//! What the Kubernetes API server and the kubelets say, as far as it is
//! read.
//!
//! Node and Pod objects supply everything kube-state-metrics would have,
//! and the kubelet's `/stats/summary` supplies everything node-exporter and
//! cadvisor would. Measured numbers are the bits of doubles.

use crate::decimal;
use crate::double;
use crate::text;
use crate::textmap::TextMap;
use vstd::prelude::*;
use vstd::slice::slice_subrange;

verus! {

pub struct List<T> {
    pub items: Vec<T>,
}

pub struct Metadata {
    pub name: String,
    pub namespace: String,
}

pub struct Node {
    pub metadata: Metadata,
    pub status: NodeStatus,
}

pub struct NodeStatus {
    pub capacity: TextMap,
    pub allocatable: TextMap,
}

pub struct Pod {
    pub metadata: Metadata,
    pub spec: PodSpec,
    pub status: PodStatus,
}

pub struct PodSpec {
    pub node_name: String,
    pub containers: Vec<Container>,
}

pub struct Container {
    pub name: String,
    pub image: String,
    pub resources: Resources,
}

pub struct Resources {
    pub requests: TextMap,
    pub limits: TextMap,
}

pub struct PodStatus {
    pub container_statuses: Vec<ContainerStatus>,
}

pub struct ContainerStatus {
    pub name: String,
    pub image: String,
}

pub struct StatsSummary {
    pub node: NodeStats,
    pub pods: Vec<PodStats>,
}

pub struct NodeStats {
    pub cpu: Option<CpuStats>,
    pub memory: Option<MemoryStats>,
    pub fs: Option<FsStats>,
}

pub struct PodStats {
    pub pod_ref: PodRef,
    pub containers: Vec<ContainerStats>,
    pub network: Option<NetworkStats>,
    pub volume: Vec<VolumeStats>,
}

pub struct PodRef {
    pub name: String,
    pub namespace: String,
}

pub struct ContainerStats {
    pub name: String,
    pub cpu: Option<CpuStats>,
    pub memory: Option<MemoryStats>,
    pub rootfs: Option<FsStats>,
    pub logs: Option<FsStats>,
}

#[derive(Clone, Copy, Debug, PartialEq, Eq, Structural)]
pub struct CpuStats {
    pub usage_core_nano_seconds: Option<u64>,
}

#[derive(Clone, Copy, Debug, PartialEq, Eq, Structural)]
pub struct MemoryStats {
    pub available_bytes: Option<u64>,
    pub working_set_bytes: Option<u64>,
    pub usage_bytes: Option<u64>,
}

#[derive(Clone, Copy, Debug, PartialEq, Eq, Structural)]
pub struct FsStats {
    pub capacity_bytes: Option<u64>,
    pub available_bytes: Option<u64>,
    pub used_bytes: Option<u64>,
}

#[derive(Clone, Copy, Debug, PartialEq, Eq, Structural)]
pub struct NetworkStats {
    pub rx_bytes: Option<u64>,
    pub tx_bytes: Option<u64>,
}

pub struct VolumeStats {
    pub used_bytes: Option<u64>,
    pub capacity_bytes: Option<u64>,
    pub pvc_ref: Option<PvcRef>,
}

pub struct PvcRef {
    pub name: String,
    pub namespace: String,
}

/// Whether a character can stand in the number of a quantity.
pub open spec fn in_quantity(c: char) -> bool {
    text::digit(c) || c == '.' || c == '-' || c == '+'
}

/// How many characters of a text make its number.
pub open spec fn number_length(s: Seq<char>) -> nat
    decreases s.len(),
{
    if s.len() == 0 || !in_quantity(s[0]) {
        0
    } else {
        1 + number_length(s.drop_first())
    }
}

/// What the suffix of a quantity multiplies it by.
pub open spec fn multiplier(suffix: Seq<char>) -> Option<u64> {
    if suffix == ""@ {
        Some(double::of_int(1))
    } else if suffix == "m"@ {
        Some(double::quotient(double::of_int(1), double::of_int(1000)))
    } else if suffix == "k"@ {
        Some(double::of_int(1_000))
    } else if suffix == "M"@ {
        Some(double::of_int(1_000_000))
    } else if suffix == "G"@ {
        Some(double::of_int(1_000_000_000))
    } else if suffix == "T"@ {
        Some(double::of_int(1_000_000_000_000))
    } else if suffix == "P"@ {
        Some(double::of_int(1_000_000_000_000_000))
    } else if suffix == "E"@ {
        Some(double::of_int(1_000_000_000_000_000_000))
    } else if suffix == "Ki"@ {
        Some(double::of_int(1_024))
    } else if suffix == "Mi"@ {
        Some(double::of_int(1_048_576))
    } else if suffix == "Gi"@ {
        Some(double::of_int(1_073_741_824))
    } else if suffix == "Ti"@ {
        Some(double::of_int(1_099_511_627_776))
    } else if suffix == "Pi"@ {
        Some(double::of_int(1_125_899_906_842_624))
    } else if suffix == "Ei"@ {
        Some(double::of_int(1_152_921_504_606_846_976))
    } else if suffix.len() > 0 && (suffix[0] == 'e' || suffix[0] == 'E') {
        match decimal::integer_within(suffix.drop_first(), i32::MIN as int, i32::MAX as int) {
            Some(n) => Some(double::power(double::of_int(10), n)),
            None => None,
        }
    } else {
        None
    }
}

/// What a quantity comes to: a number and what its suffix multiplies it by.
pub open spec fn quantity(s: Seq<char>) -> Option<u64> {
    let t = text::trimmed(s);
    let n = number_length(t) as int;
    match decimal::spelled(t.take(n)) {
        Some(number) => match multiplier(t.skip(n)) {
            Some(by) => Some(double::product(number, by)),
            None => None,
        },
        None => None,
    }
}

fn count_number(s: &[char]) -> (n: usize)
    ensures
        n == number_length(s@),
        n <= s@.len(),
{
    let mut n: usize = 0;
    proof {
        assert(s@.skip(0) =~= s@);
    }
    while n < s.len() && (text::is_digit(s[n]) || s[n] == '.' || s[n] == '-' || s[n] == '+')
        invariant
            n <= s@.len(),
            number_length(s@) == n + number_length(s@.skip(n as int)),
        decreases s@.len() - n,
    {
        proof {
            assert(s@.skip(n as int).drop_first() =~= s@.skip(n + 1));
        }
        n += 1;
    }
    n
}

/// What the suffix of a quantity multiplies it by.
fn multiply_by(suffix: &[char]) -> (r: Option<u64>)
    ensures
        r == multiplier(suffix@),
{
    let held = text::string_of(suffix);
    let s = held.as_str();
    if text::same(s, "") {
        Some(double::from_int(1))
    } else if text::same(s, "m") {
        Some(double::over(double::from_int(1), double::from_int(1000)))
    } else if text::same(s, "k") {
        Some(double::from_int(1_000))
    } else if text::same(s, "M") {
        Some(double::from_int(1_000_000))
    } else if text::same(s, "G") {
        Some(double::from_int(1_000_000_000))
    } else if text::same(s, "T") {
        Some(double::from_int(1_000_000_000_000))
    } else if text::same(s, "P") {
        Some(double::from_int(1_000_000_000_000_000))
    } else if text::same(s, "E") {
        Some(double::from_int(1_000_000_000_000_000_000))
    } else if text::same(s, "Ki") {
        Some(double::from_int(1_024))
    } else if text::same(s, "Mi") {
        Some(double::from_int(1_048_576))
    } else if text::same(s, "Gi") {
        Some(double::from_int(1_073_741_824))
    } else if text::same(s, "Ti") {
        Some(double::from_int(1_099_511_627_776))
    } else if text::same(s, "Pi") {
        Some(double::from_int(1_125_899_906_842_624))
    } else if text::same(s, "Ei") {
        Some(double::from_int(1_152_921_504_606_846_976))
    } else if suffix.len() > 0 && (suffix[0] == 'e' || suffix[0] == 'E') {
        let tail = slice_subrange(suffix, 1, suffix.len());
        proof {
            assert(tail@ =~= suffix@.drop_first());
        }
        match decimal::parse_within(tail, i32::MIN as i64, i32::MAX as i64) {
            Some(n) => Some(double::to_power(double::from_int(10), n as i32)),
            None => None,
        }
    } else {
        None
    }
}

/// Kubernetes quantities: `1`, `100m`, `1990168Ki`, `2Gi`, `1e3`.
pub fn parse_quantity(s: &str) -> (r: Option<u64>)
    ensures
        r == quantity(s@),
{
    let chars = text::chars_of(s);
    let trimmed = text::trim(chars.as_slice());
    let n = count_number(trimmed);
    let front = slice_subrange(trimmed, 0, n);
    let suffix = slice_subrange(trimmed, n, trimmed.len());
    proof {
        assert(front@ =~= trimmed@.take(n as int));
        assert(suffix@ =~= trimmed@.skip(n as int));
    }
    let number = match decimal::parse_double(front) {
        Some(number) => number,
        None => return None,
    };
    match multiply_by(suffix) {
        Some(by) => Some(double::times(number, by)),
        None => None,
    }
}

/// Whether a text has a character.
pub open spec fn has_char(s: Seq<char>, c: char) -> bool {
    exists|i: int| 0 <= i < s.len() && #[trigger] s[i] == c
}

/// Where the API server answers. An address with colons goes in brackets.
pub open spec fn base_of(host: Seq<char>, port: Seq<char>) -> Seq<char> {
    if has_char(host, ':') {
        "https://["@ + host + "]:"@ + port
    } else {
        "https://"@ + host + ":"@ + port
    }
}

/// Where the API server answers.
///
/// The cluster IP rather than a name: it is in the list of names that the
/// server's certificate holds, and it takes no resolver.
pub fn base_url(host: &str, port: &str) -> (url: String)
    ensures
        url@ == base_of(host@, port@),
{
    let chars = text::chars_of(host);
    let mut colon = false;
    let mut i: usize = 0;
    while i < chars.len()
        invariant
            i <= chars@.len(),
            chars@ == host@,
            colon == has_char(host@.take(i as int), ':'),
        decreases chars@.len() - i,
    {
        proof {
            let was = host@.take(i as int);
            let now = host@.take(i + 1);
            assert(now =~= was.push(host@[i as int]));
            if has_char(was, ':') {
                let k = choose|k: int| 0 <= k < was.len() && #[trigger] was[k] == ':';
                assert(now[k] == ':');
            }
            if has_char(now, ':') {
                let k = choose|k: int| 0 <= k < now.len() && #[trigger] now[k] == ':';
                if k < i {
                    assert(was[k] == ':');
                }
            }
            if host@[i as int] == ':' {
                assert(now[i as int] == ':');
            }
        }
        if chars[i] == ':' {
            colon = true;
        }
        i += 1;
    }
    proof {
        assert(host@.take(i as int) =~= host@);
    }
    let mut url = if colon {
        "https://[".to_owned()
    } else {
        "https://".to_owned()
    };
    url.append(host);
    url.append(
        if colon {
            "]:"
        } else {
            ":"
        },
    );
    url.append(port);
    url
}

/// Under which path the API server passes on what a node's kubelet reports.
pub fn stats_path(node: &str) -> (path: String)
    ensures
        path@ == "/api/v1/nodes/"@ + node@ + "/proxy/stats/summary"@,
{
    let mut path = "/api/v1/nodes/".to_owned();
    path.append(node);
    path.append("/proxy/stats/summary");
    path
}

} // verus!
