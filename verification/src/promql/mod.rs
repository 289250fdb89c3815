//! A deliberately small PromQL: exactly the grammar that Lens generates,
//! and nothing else.
//!
//! Every query comes from one place, which interpolates only node, pod and
//! namespace names. That makes the grammar finite:
//!
//!   selectors        node_memory_MemTotal_bytes{kubernetes_node=~"a|b"}
//!                    {__name__=~"kubelet_running_pods|...", instance=~"n"}
//!   rate over range  rate(node_cpu_seconds_total{...}[1m])
//!   aggregation      sum(...) / sum(...) by (pod, namespace)
//!   arithmetic       A{...} - (B{...} + C{...})

pub mod eval;
pub mod faults;
pub mod grammar;
pub mod meaning;
pub mod parser;
pub mod words;

use crate::text;
use regex_lite::Regex;
use vstd::prelude::*;

verus! {

/// A compiled regular expression of `regex_lite`.
#[verifier::external_type_specification]
#[verifier::external_body]
pub struct ExRegex(regex_lite::Regex);

/// What `regex_lite` says of a pattern that it does not compile.
#[verifier::external_type_specification]
#[verifier::external_body]
pub struct ExRegexError(regex_lite::Error);

/// The texts that a compiled regular expression matches.
pub uninterp spec fn language(regex: regex_lite::Regex) -> Set<Seq<char>>;

/// The texts that a pattern matches once `regex_lite::Regex::new` has
/// compiled it, or nothing where the pattern is malformed.
pub uninterp spec fn pattern_language(pattern: Seq<char>) -> Option<Set<Seq<char>>>;

/// Whether a pattern is short and repeats nothing by count, so that its
/// machine is small on every platform.
pub open spec fn modest(pattern: Seq<char>) -> bool {
    pattern.len() <= 4096 && !pattern.contains('{')
}

/// `regex_lite::Regex::new` compiles a pattern. What it compiles is no
/// malformed pattern, and matches the texts of the pattern's language. Of
/// the modest patterns it refuses the malformed ones alone.
///
/// Which of the others it refuses is not said: beside the malformed ones
/// they are those whose machine exceeds ten mebibytes, and how many bytes a
/// machine takes depends on the platform. A modest pattern stays far below:
/// without a counted repetition every part of it is compiled once, into no
/// more than a handful of states for each of its characters, with some bytes
/// of ranges, targets and names.
#[verifier::external_body]
pub(crate) fn compile(pattern: &str) -> (r: Result<Regex, regex_lite::Error>)
    ensures
        r matches Ok(regex) ==> pattern_language(pattern@) == Some(language(regex)),
        r is Err && modest(pattern@) ==> pattern_language(pattern@) is None,
{
    Regex::new(pattern)
}

/// `regex_lite::Regex::is_match` tells whether a compiled regular expression
/// matches a text.
#[verifier::external_body]
pub(crate) fn is_match(regex: &Regex, value: &str) -> (r: bool)
    ensures
        r == language(*regex).contains(value@),
{
    regex.is_match(value)
}

#[derive(Debug, Clone, Copy, PartialEq, Eq, Structural)]
pub enum MatchOp {
    Eq,
    Ne,
    Re,
    NotRe,
}

/// What an operator makes of whether a value is the same as the one asked
/// for, and whether it matches the pattern asked for.
pub open spec fn decided(op: MatchOp, same: bool, matched: bool) -> bool {
    match op {
        MatchOp::Eq => same,
        MatchOp::Ne => !same,
        MatchOp::Re => matched,
        MatchOp::NotRe => !matched,
    }
}

impl MatchOp {
    /// What the operator makes of whether a value is the same as the one
    /// asked for, and whether it matches the pattern asked for.
    pub fn decide(self, same: bool, matched: bool) -> (r: bool)
        ensures
            r == decided(self, same, matched),
    {
        match self {
            MatchOp::Eq => same,
            MatchOp::Ne => !same,
            MatchOp::Re => matched,
            MatchOp::NotRe => !matched,
        }
    }
}

#[derive(Debug)]
pub struct Matcher {
    pub label: String,
    pub op: MatchOp,
    pub value: String,
    /// Compiled once at parse time for `=~` and `!~`.
    pub regex: Option<Regex>,
}

/// What a matcher asks for: of which label, how, and which texts its
/// regular expression matches.
pub struct MatcherView {
    pub label: Seq<char>,
    pub op: MatchOp,
    pub value: Seq<char>,
    pub regex: Option<Set<Seq<char>>>,
}

impl View for Matcher {
    type V = MatcherView;

    open spec fn view(&self) -> MatcherView {
        MatcherView {
            label: self.label@,
            op: self.op,
            value: self.value@,
            regex: match self.regex {
                Some(regex) => Some(language(regex)),
                None => None,
            },
        }
    }
}

/// Whether a matcher takes a value. Without a regular expression nothing
/// matches.
pub open spec fn takes(m: MatcherView, value: Seq<char>) -> bool {
    decided(m.op, value == m.value, m.regex matches Some(texts) && texts.contains(value))
}

impl Matcher {
    /// Regular expressions are anchored at both ends when they are
    /// compiled; an unanchored match would let `pod=~"web"` select `web-2`
    /// and quietly double a sum.
    pub fn matches(&self, value: &str) -> (r: bool)
        ensures
            r == takes(self@, value@),
    {
        match self.op {
            MatchOp::Eq | MatchOp::Ne => self.op.decide(text::same(value, self.value.as_str()), false),
            MatchOp::Re | MatchOp::NotRe => {
                let matched = match &self.regex {
                    Some(regex) => is_match(regex, value),
                    None => false,
                };
                self.op.decide(false, matched)
            },
        }
    }
}

/// Matchers as what they ask for.
pub open spec fn matcher_views(matchers: Seq<Matcher>) -> Seq<MatcherView> {
    matchers.map_values(|m: Matcher| m@)
}

#[derive(Debug)]
pub struct Selector {
    /// Present when the metric name was written outside the braces, which
    /// lets the store skip straight to that bucket.
    pub name: Option<String>,
    pub matchers: Vec<Matcher>,
}

#[verifier::ext_equal]
pub struct SelectorView {
    pub name: Option<Seq<char>>,
    pub matchers: Seq<MatcherView>,
}

impl View for Selector {
    type V = SelectorView;

    open spec fn view(&self) -> SelectorView {
        SelectorView {
            name: text::some_text(self.name),
            matchers: matcher_views(self.matchers@),
        }
    }
}

#[derive(Debug, Clone, Copy, PartialEq, Eq, Structural)]
pub enum BinOp {
    Add,
    Sub,
    Mul,
    Div,
}

#[derive(Debug)]
pub enum Expr {
    Selector(Selector),
    /// `rate(<selector>[<window>])`, window in seconds.
    Rate(Selector, i64),
    Sum {
        expr: Box<Expr>,
        /// `None` means no `by` clause: everything folds into one series.
        by: Option<Vec<String>>,
    },
    Binary { op: BinOp, lhs: Box<Expr>, rhs: Box<Expr> },
    /// The bits of a double.
    Number(u64),
}

pub enum ExprView {
    Selector(SelectorView),
    Rate(SelectorView, i64),
    Sum(Box<ExprView>, Option<Seq<Seq<char>>>),
    Binary(BinOp, Box<ExprView>, Box<ExprView>),
    Number(u64),
}

/// Names as text.
pub open spec fn name_views(names: Seq<String>) -> Seq<Seq<char>> {
    names.map_values(|n: String| n@)
}

/// The names of a `by` clause as text.
pub open spec fn by_view(by: Option<Vec<String>>) -> Option<Seq<Seq<char>>> {
    match by {
        Some(names) => Some(name_views(names@)),
        None => None,
    }
}

/// An expression as what it asks for.
pub open spec fn expr_view(e: Expr) -> ExprView
    decreases e,
{
    match e {
        Expr::Selector(selector) => ExprView::Selector(selector@),
        Expr::Rate(selector, window) => ExprView::Rate(selector@, window),
        Expr::Sum { expr, by } => ExprView::Sum(Box::new(expr_view(*expr)), by_view(by)),
        Expr::Binary { op, lhs, rhs } => ExprView::Binary(
            op,
            Box::new(expr_view(*lhs)),
            Box::new(expr_view(*rhs)),
        ),
        Expr::Number(n) => ExprView::Number(n),
    }
}

impl View for Expr {
    type V = ExprView;

    open spec fn view(&self) -> ExprView {
        expr_view(*self)
    }
}

} // verus!
