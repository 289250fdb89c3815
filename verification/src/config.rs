//! What the daemon is told by its environment.

use crate::decimal;
use crate::text;
use vstd::prelude::*;

verus! {

pub const DEFAULT_SCRAPE_INTERVAL: u64 = 30;

pub const DEFAULT_RETENTION_HOURS: i64 = 24;

pub const DEFAULT_LISTEN: &'static str = "0.0.0.0:9090";

pub const DEFAULT_SNAPSHOT_INTERVAL: i64 = 300;

/// How many seconds a pod list is held before it is fetched again.
pub const POD_REFRESH_INTERVAL: i64 = 300;

pub const SECONDS_PER_HOUR: i64 = 3600;

/// The variables of the environment, as far as they are set to text.
#[derive(Debug)]
pub struct Variables {
    /// `SCRAPE_INTERVAL_SECONDS`
    pub scrape_interval: Option<String>,
    /// `RETENTION_HOURS`
    pub retention_hours: Option<String>,
    /// `LISTEN_ADDR`
    pub listen: Option<String>,
    /// `SNAPSHOT_PATH`
    pub snapshot_path: Option<String>,
    /// `SNAPSHOT_INTERVAL_SECONDS`
    pub snapshot_interval: Option<String>,
}

#[derive(Debug)]
pub struct Config {
    /// 30s against Lens' 60s display step gives a rate two samples a point,
    /// which is the minimum it can work from.
    pub scrape_interval: u64,
    /// In seconds.
    pub retention: i64,
    pub listen: String,
    /// Unset disables persistence entirely, so the daemon still runs
    /// without a volume attached.
    pub snapshot_path: Option<String>,
    /// The upper bound on how much history an unclean kill can cost.
    pub snapshot_interval: i64,
}

#[derive(Clone, Copy, Debug, PartialEq, Eq, Structural)]
pub enum ConfigError {
    /// So many hours have more seconds than can be counted.
    RetentionTooLong(i64),
}

/// A whole number of at least one: what a variable says, or else the
/// default.
pub open spec fn at_least_one(variable: Option<String>, default: int) -> int {
    let n = match variable {
        Some(s) => match decimal::integer_within(s@, i64::MIN as int, i64::MAX as int) {
            Some(n) => n,
            None => default,
        },
        None => default,
    };
    if n < 1 {
        1
    } else {
        n
    }
}

/// A count of at least one: what a variable says, or else the default.
pub open spec fn count_of(variable: Option<String>, default: int) -> int {
    let n = match variable {
        Some(s) => match decimal::count_within(s@, u64::MAX as int) {
            Some(n) => n,
            None => default,
        },
        None => default,
    };
    if n < 1 {
        1
    } else {
        n
    }
}

/// The text that a variable is set to, or else the default.
pub open spec fn text_of(variable: Option<String>, default: Seq<char>) -> Seq<char> {
    match variable {
        Some(s) => s@,
        None => default,
    }
}

/// The path that a variable is set to. One of nothing but blanks is none.
pub open spec fn path_of(variable: Option<String>) -> Option<Seq<char>> {
    match variable {
        Some(s) => if text::trimmed(s@).len() == 0 {
            None
        } else {
            Some(s@)
        },
        None => None,
    }
}

/// How long samples are kept.
pub open spec fn retention_of(vars: Variables) -> int {
    at_least_one(vars.retention_hours, DEFAULT_RETENTION_HOURS as int) * SECONDS_PER_HOUR
}

fn whole_number(variable: &Option<String>, default: i64) -> (n: i64)
    requires
        default >= 1,
    ensures
        n == at_least_one(*variable, default as int),
{
    let n = match variable {
        Some(s) => {
            let chars = text::chars_of(s.as_str());
            match decimal::parse_within(chars.as_slice(), i64::MIN, i64::MAX) {
                Some(n) => n,
                None => default,
            }
        },
        None => default,
    };
    if n < 1 {
        1
    } else {
        n
    }
}

fn count(variable: &Option<String>, default: u64) -> (n: u64)
    ensures
        n == count_of(*variable, default as int),
{
    let n = match variable {
        Some(s) => {
            let chars = text::chars_of(s.as_str());
            match decimal::parse_count(chars.as_slice()) {
                Some(n) => n,
                None => default,
            }
        },
        None => default,
    };
    if n < 1 {
        1
    } else {
        n
    }
}

impl Config {
    /// The configuration that variables make. A variable that is unset, or
    /// that does not parse, leaves the default.
    pub fn from_variables(vars: &Variables) -> (r: Result<Config, ConfigError>)
        ensures
            match r {
                Ok(config) => {
                    &&& config.scrape_interval == count_of(
                        vars.scrape_interval,
                        DEFAULT_SCRAPE_INTERVAL as int,
                    )
                    &&& config.retention == retention_of(*vars)
                    &&& config.listen@ == text_of(vars.listen, DEFAULT_LISTEN@)
                    &&& text::some_text(config.snapshot_path) == path_of(vars.snapshot_path)
                    &&& config.snapshot_interval == at_least_one(
                        vars.snapshot_interval,
                        DEFAULT_SNAPSHOT_INTERVAL as int,
                    )
                },
                Err(ConfigError::RetentionTooLong(hours)) => {
                    &&& retention_of(*vars) > i64::MAX
                    &&& hours * SECONDS_PER_HOUR == retention_of(*vars)
                },
            },
    {
        let hours = whole_number(&vars.retention_hours, DEFAULT_RETENTION_HOURS);
        if hours > i64::MAX / SECONDS_PER_HOUR {
            return Err(ConfigError::RetentionTooLong(hours));
        }
        let listen = match &vars.listen {
            Some(s) => s.clone(),
            None => DEFAULT_LISTEN.to_owned(),
        };
        let snapshot_path = match &vars.snapshot_path {
            Some(s) => {
                let chars = text::chars_of(s.as_str());
                if text::trim(chars.as_slice()).len() == 0 {
                    None
                } else {
                    Some(s.clone())
                }
            },
            None => None,
        };
        Ok(
            Config {
                scrape_interval: count(&vars.scrape_interval, DEFAULT_SCRAPE_INTERVAL),
                retention: hours * SECONDS_PER_HOUR,
                listen,
                snapshot_path,
                snapshot_interval: whole_number(&vars.snapshot_interval, DEFAULT_SNAPSHOT_INTERVAL),
            },
        )
    }
}

/// Whether a snapshot is due, once a pass that started at `started` is done.
pub fn snapshot_due(started: i64, last_snapshot: i64, interval: i64) -> (r: bool)
    ensures
        r == (started - last_snapshot >= interval),
{
    started as i128 - last_snapshot as i128 >= interval as i128
}

} // verus!
