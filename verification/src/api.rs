//! What the Prometheus HTTP API asks of the store, restricted to what Lens
//! calls: the instants of a query, the limits on them, and what answers.

use crate::decimal;
use crate::double;
use crate::promql::eval;
use crate::promql::eval::{RangeSeries, RangeView, Value, ValueView};
use crate::promql::parser;
use crate::promql::parser::{Fault, ParseError};
use crate::promql::{Expr, ExprView};
use crate::store::{Store, StoreView};
use crate::text;
use vstd::prelude::*;

verus! {

/// Prometheus caps a range query at this many points. Lens never asks for
/// more than a few hundred, so this only ever stops a query that was typed
/// by hand from pinning a core.
pub const MAX_POINTS: i64 = 11_000;

/// How far back a range reaches that does not say where it starts.
pub const DEFAULT_RANGE: i64 = 3600;

/// How far apart the points of a range are that does not say.
pub const DEFAULT_STEP: i64 = 60;

/// What a query request says.
#[derive(Debug)]
pub struct Params {
    pub query: String,
    pub start: Option<String>,
    pub end: Option<String>,
    pub step: Option<String>,
}

/// The second that a text names. A fraction is cut off.
pub open spec fn time_of(s: Seq<char>) -> Option<i64> {
    match decimal::spelled(s) {
        Some(bits) => Some(double::truncated(bits)),
        None => None,
    }
}

/// The second that a parameter names, if it is there and names one.
pub open spec fn time_in(param: Option<String>) -> Option<i64> {
    match param {
        Some(s) => time_of(s@),
        None => None,
    }
}

pub fn parse_time(text: &str) -> (r: Option<i64>)
    ensures
        r == time_of(text@),
{
    let chars = text::chars_of(text);
    match decimal::parse_double(chars.as_slice()) {
        Some(bits) => Some(double::to_int(bits)),
        None => None,
    }
}

fn parse_param(param: &Option<String>) -> (r: Option<i64>)
    ensures
        r == time_in(*param),
{
    match param {
        Some(s) => parse_time(s.as_str()),
        None => None,
    }
}

/// Why a query is answered with bad data.
#[derive(Debug)]
pub enum QueryError {
    Query(ParseError),
    StartAfterEnd,
    TooManyPoints,
}

pub enum QueryFault {
    Query(Fault),
    StartAfterEnd,
    TooManyPoints,
}

impl View for QueryError {
    type V = QueryFault;

    open spec fn view(&self) -> QueryFault {
        match self {
            QueryError::Query(e) => QueryFault::Query(e@),
            QueryError::StartAfterEnd => QueryFault::StartAfterEnd,
            QueryError::TooManyPoints => QueryFault::TooManyPoints,
        }
    }
}

/// The instants of a range query.
#[derive(Debug, Clone, Copy, PartialEq, Eq, Structural)]
pub struct Span {
    pub start: i64,
    pub end: i64,
    pub step: i64,
}

/// The instants that a request asks for at `now`. A range that does not say
/// where it ends ends now, and one that starts before time starts with it.
pub open spec fn span_of(params: Params, now: i64) -> Span {
    let end = match time_in(params.end) {
        Some(t) => t,
        None => now,
    };
    let start = match time_in(params.start) {
        Some(t) => t,
        None => if end - DEFAULT_RANGE < i64::MIN {
            i64::MIN
        } else {
            (end - DEFAULT_RANGE) as i64
        },
    };
    let step = match time_in(params.step) {
        Some(t) => if t < 1 {
            1
        } else {
            t
        },
        None => DEFAULT_STEP,
    };
    Span { start, end, step }
}

/// What is wrong with a range, if anything is.
pub open spec fn span_fault(span: Span) -> Option<QueryFault> {
    if span.start > span.end {
        Some(QueryFault::StartAfterEnd)
    } else if (span.end - span.start) / (span.step as int) > MAX_POINTS {
        Some(QueryFault::TooManyPoints)
    } else {
        None
    }
}

/// The instants that a request asks for, or why they are refused.
pub fn span(params: &Params, now: i64) -> (r: Result<Span, QueryError>)
    ensures
        match span_fault(span_of(*params, now)) {
            Some(fault) => r matches Err(e) && e@ == fault,
            None => r == Ok::<Span, QueryError>(span_of(*params, now)),
        },
{
    let end = match parse_param(&params.end) {
        Some(t) => t,
        None => now,
    };
    let start = match parse_param(&params.start) {
        Some(t) => t,
        None => if end < i64::MIN + DEFAULT_RANGE {
            i64::MIN
        } else {
            end - DEFAULT_RANGE
        },
    };
    let step = match parse_param(&params.step) {
        Some(t) => if t < 1 {
            1
        } else {
            t
        },
        None => DEFAULT_STEP,
    };
    if start > end {
        return Err(QueryError::StartAfterEnd);
    }
    if (end as i128 - start as i128) / step as i128 > MAX_POINTS as i128 {
        return Err(QueryError::TooManyPoints);
    }
    Ok(Span { start, end, step })
}

/// Ranges as what they hold.
pub open spec fn answered(ranges: Seq<RangeSeries>) -> Seq<RangeView> {
    ranges.map_values(|r: RangeSeries| r@)
}

/// The pattern that an outcome says was refused, if it says so of one that
/// may have been well formed.
pub open spec fn query_refusals<T>(got: Result<T, QueryFault>) -> Set<Seq<char>> {
    match got {
        Err(QueryFault::Query(Fault::BadRegex(pattern))) => parser::doubted(pattern),
        _ => Set::empty(),
    }
}

/// What a range query at `now` comes to where the patterns in `bad` are
/// refused beside the malformed ones. A query that does not parse is refused
/// before its instants are looked at.
pub open spec fn range_answer(
    v: StoreView,
    params: Params,
    now: i64,
    bad: Set<Seq<char>>,
) -> Result<Seq<RangeView>, QueryFault> {
    match parser::parsed_under(params.query@, bad) {
        Err(e) => Err(QueryFault::Query(e)),
        Ok(expr) => range_of(v, expr, span_of(params, now)),
    }
}

/// What an expression comes to over a range, unless the range is refused.
pub open spec fn range_of(v: StoreView, expr: ExprView, span: Span) -> Result<
    Seq<RangeView>,
    QueryFault,
> {
    match span_fault(span) {
        Some(fault) => Err(fault),
        None => Ok(eval::ranged(v, expr, span.start, span.end, span.step)),
    }
}

/// What an instant query at `now` comes to, and when, where the patterns in
/// `bad` are refused. The instant is the start that the request gives.
pub open spec fn instant_answer(
    v: StoreView,
    params: Params,
    now: i64,
    bad: Set<Seq<char>>,
) -> Result<(i64, ValueView), QueryFault> {
    match parser::parsed_under(params.query@, bad) {
        Err(e) => Err(QueryFault::Query(e)),
        Ok(expr) => {
            let at = instant_of(params, now);
            Ok((at, eval::evaluated(v, expr, at)))
        },
    }
}

/// The instant that a request asks for at `now`.
pub open spec fn instant_of(params: Params, now: i64) -> i64 {
    match time_in(params.start) {
        Some(t) => t,
        None => now,
    }
}

/// The view of what a range query came to.
pub open spec fn range_outcome(r: Result<Vec<RangeSeries>, QueryError>) -> Result<
    Seq<RangeView>,
    QueryFault,
> {
    match r {
        Ok(ranges) => Ok(answered(ranges@)),
        Err(e) => Err(e@),
    }
}

/// The view of what an instant query came to.
pub open spec fn instant_outcome(r: Result<(i64, Value), QueryError>) -> Result<
    (i64, ValueView),
    QueryFault,
> {
    match r {
        Ok((at, value)) => Ok((at, value@)),
        Err(e) => Err(e@),
    }
}

/// Answers a range query whose expression is known.
pub fn range_over(store: &Store, expr: &Expr, params: &Params, now: i64) -> (r: Result<
    Vec<RangeSeries>,
    QueryError,
>)
    requires
        store.wf(),
    ensures
        range_outcome(r) == range_of(store@, expr@, span_of(*params, now)),
{
    match span(params, now) {
        Ok(span) => {
            let out = eval::query_range(store, expr, span.start, span.end, span.step);
            Ok(out)
        },
        Err(e) => Err(e),
    }
}

/// Answers a range query.
pub fn range(store: &Store, params: &Params, now: i64) -> (r: Result<Vec<RangeSeries>, QueryError>)
    requires
        store.wf(),
    ensures
        range_outcome(r) == range_answer(
            store@,
            *params,
            now,
            query_refusals(range_outcome(r)),
        ),
{
    match parser::parse(params.query.as_str()) {
        Ok(expr) => range_over(store, &expr, params, now),
        Err(e) => Err(QueryError::Query(e)),
    }
}

/// Answers an instant query, and says for when.
pub fn instant(store: &Store, params: &Params, now: i64) -> (r: Result<(i64, Value), QueryError>)
    requires
        store.wf(),
    ensures
        instant_outcome(r) == instant_answer(
            store@,
            *params,
            now,
            query_refusals(instant_outcome(r)),
        ),
{
    let expr = match parser::parse(params.query.as_str()) {
        Ok(expr) => expr,
        Err(e) => return Err(QueryError::Query(e)),
    };
    let at = match parse_param(&params.start) {
        Some(t) => t,
        None => now,
    };
    Ok((at, eval::eval(store, &expr, at)))
}

/// A sample's value as it is rendered, where that is an integer: no
/// fraction, and below 10^15. Every other double is rendered in full, which
/// is left to the caller.
pub fn format_value(value: u64) -> (r: Option<String>)
    ensures
        match r {
            Some(s) => double::plain(value) && s@ == decimal::signed_shown(
                double::truncated(value) as int,
            ),
            None => !double::plain(value),
        },
{
    match double::as_plain(value) {
        Some(n) => Some(decimal::integer_text(n)),
        None => None,
    }
}

} // verus!
