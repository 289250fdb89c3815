//! The read-only discovery endpoints: which labels there are, which values
//! a label has, and which series match.
//!
//! Lens never calls these: it interpolates names that it already has from
//! the Kubernetes API. Grafana does. They add no collection and no state;
//! they read the label sets that the store already holds.

use crate::api;
use crate::promql::eval;
use crate::promql::parser;
use crate::promql::parser::{Fault, ParseError};
use crate::promql;
use crate::promql::{Expr, ExprView, Selector, SelectorView};
use crate::series;
use crate::store;
use crate::store::{Labels, Series, SeriesView, Store, StoreView};
use crate::text;
use crate::text::Order;
use crate::textmap;
use crate::textmap::Entry;
use vstd::prelude::*;

verus! {

/// The pairs that `form_urlencoded::parse` reads out of a query string.
pub uninterp spec fn form_pairs(raw: Seq<char>) -> Seq<(Seq<char>, Seq<char>)>;

/// `form_urlencoded::parse` splits a query string into its pairs, in the
/// order in which they stand, and undoes their encoding. Which pairs those
/// are depends on the string alone.
#[verifier::external_body]
fn decode(raw: &str) -> (pairs: Vec<(String, String)>)
    ensures
        textmap::entries_of(pairs@) == form_pairs(raw@),
{
    form_urlencoded::parse(raw.as_bytes()).into_owned().collect()
}

/// The parameters that the endpoints share: selectors, any of which a
/// series has to match, and an optional window of time.
#[derive(Debug)]
pub struct Args {
    pub selectors: Vec<Selector>,
    pub start: Option<i64>,
    pub end: Option<i64>,
}

#[verifier::ext_equal]
pub struct ArgsView {
    pub selectors: Seq<SelectorView>,
    pub start: Option<i64>,
    pub end: Option<i64>,
}

impl View for Args {
    type V = ArgsView;

    open spec fn view(&self) -> ArgsView {
        ArgsView {
            selectors: self.selectors@.map_values(|s: Selector| s@),
            start: self.start,
            end: self.end,
        }
    }
}

/// Why a discovery request is answered with bad data.
#[derive(Debug)]
pub enum ArgsError {
    /// A `match[]` that parses, but is no selector.
    NotASelector(String),
    Query(ParseError),
    NoSelector,
}

pub enum ArgsFault {
    NotASelector(Seq<char>),
    Query(Fault),
    NoSelector,
}

impl View for ArgsError {
    type V = ArgsFault;

    open spec fn view(&self) -> ArgsFault {
        match self {
            ArgsError::NotASelector(value) => ArgsFault::NotASelector(value@),
            ArgsError::Query(e) => ArgsFault::Query(e@),
            ArgsError::NoSelector => ArgsFault::NoSelector,
        }
    }
}

/// Parameters with one pair taken in, where the patterns in `bad` are
/// refused beside the malformed ones. Selectors add up; of a start or an end the last one stands.
/// Other keys are ignored.
pub open spec fn with_pair(
    args: ArgsView,
    key: Seq<char>,
    value: Seq<char>,
    bad: Set<Seq<char>>,
) -> Result<ArgsView, ArgsFault> {
    if key == "match[]"@ {
        match parser::parsed_under(value, bad) {
            Ok(ExprView::Selector(selector)) => Ok(
                ArgsView { selectors: args.selectors.push(selector), ..args },
            ),
            Ok(_) => Err(ArgsFault::NotASelector(value)),
            Err(e) => Err(ArgsFault::Query(e)),
        }
    } else if key == "start"@ {
        Ok(ArgsView { start: api::time_of(value), ..args })
    } else if key == "end"@ {
        Ok(ArgsView { end: api::time_of(value), ..args })
    } else {
        Ok(args)
    }
}

/// The parameters that pairs make where the patterns in `bad` are refused
/// beside the malformed ones, or the first thing wrong with them.
pub open spec fn args_under(pairs: Seq<Entry>, bad: Set<Seq<char>>) -> Result<ArgsView, ArgsFault>
    decreases pairs.len(),
{
    if pairs.len() == 0 {
        Ok(ArgsView { selectors: seq![], start: None, end: None })
    } else {
        match args_under(pairs.drop_last(), bad) {
            Ok(args) => with_pair(args, pairs.last().0, pairs.last().1, bad),
            Err(e) => Err(e),
        }
    }
}

/// The parameters that pairs make where no pattern is refused but the
/// malformed ones.
pub open spec fn args_of(pairs: Seq<Entry>) -> Result<ArgsView, ArgsFault> {
    args_under(pairs, Set::empty())
}

/// The pattern that an outcome says was refused, if it says so of one that
/// may have been well formed.
pub open spec fn args_refusals<T>(got: Result<T, ArgsFault>) -> Set<Seq<char>> {
    match got {
        Err(ArgsFault::Query(Fault::BadRegex(pattern))) => parser::doubted(pattern),
        _ => Set::empty(),
    }
}

/// The view of what pairs came to.
pub open spec fn args_outcome(r: Result<Args, ArgsError>) -> Result<ArgsView, ArgsFault> {
    match r {
        Ok(args) => Ok(args@),
        Err(e) => Err(e@),
    }
}

/// The parameters that pairs make, or the first thing wrong with them,
/// which can be that a pattern is refused.
pub fn args_from(pairs: &Vec<(String, String)>) -> (r: Result<Args, ArgsError>)
    ensures
        args_outcome(r) == args_under(
            textmap::entries_of(pairs@),
            args_refusals(args_outcome(r)),
        ),
{
    let ghost all = textmap::entries_of(pairs@);
    let mut args = Args { selectors: Vec::new(), start: None, end: None };
    let mut i: usize = 0;
    proof {
        assert(all.take(0) =~= seq![]);
        assert(args@ =~= ArgsView { selectors: seq![], start: None, end: None });
    }
    while i < pairs.len()
        invariant
            i <= pairs@.len(),
            all == textmap::entries_of(pairs@),
            args_under(all.take(i as int), Set::empty()) == Ok::<ArgsView, ArgsFault>(args@),
        decreases pairs@.len() - i,
    {
        let key = pairs[i].0.as_str();
        let value = pairs[i].1.as_str();
        let ghost was = args@;
        proof {
            assert(all[i as int] == (key@, value@));
            assert(all.take(i + 1).drop_last() =~= all.take(i as int));
            assert(all.take(i + 1).last() == (key@, value@));
        }
        if text::same(key, "match[]") {
            match parser::parse(value) {
                Ok(expr) => match expr {
                    Expr::Selector(selector) => {
                        let ghost view = selector@;
                        args.selectors.push(selector);
                        proof {
                            assert(args@ =~= ArgsView { selectors: was.selectors.push(view), ..was });
                        }
                    },
                    _ => {
                        proof {
                            lemma_first_fault(all, i + 1, Set::empty());
                        }
                        return Err(ArgsError::NotASelector(value.to_owned()));
                    },
                },
                Err(e) => {
                    proof {
                        let bad = parser::refusals(Err::<ExprView, Fault>(e@));
                        lemma_args_under(all.take(i as int), bad);
                        lemma_first_fault(all, i + 1, bad);
                    }
                    return Err(ArgsError::Query(e));
                },
            }
        } else if text::same(key, "start") {
            args.start = api::parse_time(value);
            proof {
                assert(args@ =~= ArgsView { start: api::time_of(value@), ..was });
            }
        } else if text::same(key, "end") {
            args.end = api::parse_time(value);
            proof {
                assert(args@ =~= ArgsView { end: api::time_of(value@), ..was });
            }
        }
        i += 1;
    }
    proof {
        assert(all.take(i as int) =~= all);
    }
    Ok(args)
}

/// What is wrong with the front of some pairs is what is wrong with them.
proof fn lemma_first_fault(pairs: Seq<Entry>, n: int, bad: Set<Seq<char>>)
    requires
        0 <= n <= pairs.len(),
        args_under(pairs.take(n), bad) is Err,
    ensures
        args_under(pairs, bad) == args_under(pairs.take(n), bad),
    decreases pairs.len(),
{
    if n == pairs.len() {
        assert(pairs.take(n) =~= pairs);
    } else {
        assert(pairs.drop_last().take(n) =~= pairs.take(n));
        lemma_first_fault(pairs.drop_last(), n, bad);
    }
}

/// Refusing patterns changes nothing of what pairs come to, unless one of
/// them is met.
proof fn lemma_args_under(pairs: Seq<Entry>, bad: Set<Seq<char>>)
    ensures
        args_under(pairs, bad) == args_of(pairs) || (args_under(pairs, bad) matches Err(
            ArgsFault::Query(Fault::BadRegex(pattern)),
        ) && bad.contains(pattern)),
    decreases pairs.len(),
{
    if pairs.len() > 0 {
        lemma_args_under(pairs.drop_last(), bad);
        parser::law_only_a_pattern_is_refused(pairs.last().1, bad);
    }
}

/// The parameters that a query string makes, or the first thing wrong with
/// them, which can be that a pattern is refused.
pub fn parse_args(raw: &str) -> (r: Result<Args, ArgsError>)
    ensures
        args_outcome(r) == args_under(form_pairs(raw@), args_refusals(args_outcome(r))),
{
    let pairs = decode(raw);
    args_from(&pairs)
}

/// Whether a time lies inside the window. A side that is not given has no
/// bound.
pub open spec fn time_in_window(t: i64, start: Option<i64>, end: Option<i64>) -> bool {
    (start matches Some(a) ==> a <= t) && (end matches Some(b) ==> t <= b)
}

/// Whether a series has a sample inside the window. Without it a node that
/// was drained yesterday would keep being offered for as long as retention
/// holds it.
pub open spec fn in_window(s: SeriesView, start: Option<i64>, end: Option<i64>) -> bool {
    exists|i: int|
        0 <= i < series::all_samples(s).len() && time_in_window(
            (#[trigger] series::all_samples(s)[i]).t,
            start,
            end,
        )
}

/// The series that selectors take, one selector after the other.
pub open spec fn all_selected(v: StoreView, selectors: Seq<SelectorView>) -> Seq<SeriesView>
    decreases selectors.len(),
{
    if selectors.len() == 0 {
        seq![]
    } else {
        all_selected(v, selectors.drop_last()) + eval::selected(v, selectors.last())
    }
}

/// Whether some series are called by these labels.
pub open spec fn labels_among(all: Seq<SeriesView>, labels: Seq<Entry>) -> bool {
    exists|i: int| 0 <= i < all.len() && (#[trigger] all[i]).labels == labels
}

/// Those series that have a sample inside the window, each label set once.
pub open spec fn offered(all: Seq<SeriesView>, start: Option<i64>, end: Option<i64>) -> Seq<SeriesView>
    decreases all.len(),
{
    if all.len() == 0 {
        seq![]
    } else {
        let before = offered(all.drop_last(), start, end);
        if in_window(all.last(), start, end) && !labels_among(before, all.last().labels) {
            before.push(all.last())
        } else {
            before
        }
    }
}

/// The series that a request asks about: those that any of its selectors
/// takes, or all of them where it has none.
pub open spec fn asked(v: StoreView, args: ArgsView) -> Seq<SeriesView> {
    if args.selectors.len() == 0 {
        store::candidates_of(v, None).filter(|s: SeriesView| in_window(s, args.start, args.end))
    } else {
        offered(all_selected(v, args.selectors), args.start, args.end)
    }
}

fn has_sample_in_window(s: &Series, start: Option<i64>, end: Option<i64>) -> (r: bool)
    requires
        s.wf(),
    ensures
        r == in_window(s@, start, end),
{
    let low = match start {
        Some(start) => start,
        None => i64::MIN,
    };
    let high = match end {
        Some(end) => end,
        None => i64::MAX,
    };
    proof {
        let all = series::all_samples(s@);
        if series::inside(all, low, high) {
            let i = choose|i: int| 0 <= i < all.len() && low <= (#[trigger] all[i]).t <= high;
            assert(time_in_window(all[i].t, start, end));
        }
        if in_window(s@, start, end) {
            let i = choose|i: int|
                0 <= i < all.len() && time_in_window((#[trigger] all[i]).t, start, end);
            assert(low <= all[i].t <= high);
        }
    }
    s.has_sample_in(low, high)
}

fn called_among(all: &Vec<&Series>, labels: &Labels) -> (r: bool)
    ensures
        r == labels_among(store::ref_views(all@), labels@),
{
    let ghost views = store::ref_views(all@);
    let mut i: usize = 0;
    while i < all.len()
        invariant
            i <= all@.len(),
            views == store::ref_views(all@),
            forall|j: int| 0 <= j < i ==> (#[trigger] views[j]).labels != labels@,
        decreases all@.len() - i,
    {
        assert(views[i as int] == all@[i as int]@);
        if all[i].labels().same(labels) {
            return true;
        }
        i += 1;
    }
    false
}

/// The series that a request asks about.
pub fn matching<'a>(store: &'a Store, args: &Args) -> (out: Vec<&'a Series>)
    requires
        store.wf(),
    ensures
        store::ref_views(out@) == asked(store@, args@),
        forall|i: int| 0 <= i < out@.len() ==> (#[trigger] out@[i]).wf(),
{
    if args.selectors.len() == 0 {
        return windowed(store, args.start, args.end);
    }
    let ghost selectors = args@.selectors;
    let mut out: Vec<&'a Series> = Vec::new();
    let mut i: usize = 0;
    proof {
        assert(selectors.take(0) =~= seq![]);
        assert(store::ref_views(out@) =~= seq![]);
    }
    while i < args.selectors.len()
        invariant
            store.wf(),
            i <= args.selectors@.len(),
            selectors == args@.selectors,
            store::ref_views(out@) == offered(
                all_selected(store@, selectors.take(i as int)),
                args.start,
                args.end,
            ),
            forall|k: int| 0 <= k < out@.len() ==> (#[trigger] out@[k]).wf(),
        decreases args.selectors@.len() - i,
    {
        let found = eval::select(store, &args.selectors[i]);
        let ghost views = store::ref_views(found@);
        let ghost before = all_selected(store@, selectors.take(i as int));
        proof {
            assert(selectors.take(i + 1).drop_last() =~= selectors.take(i as int));
            assert(selectors.take(i + 1).last() == args.selectors@[i as int]@);
            assert(before + views.take(0) =~= before);
        }
        let mut j: usize = 0;
        while j < found.len()
            invariant
                j <= found@.len(),
                views == store::ref_views(found@),
                forall|k: int| 0 <= k < found@.len() ==> (#[trigger] found@[k]).wf(),
                forall|k: int| 0 <= k < out@.len() ==> (#[trigger] out@[k]).wf(),
                store::ref_views(out@) == offered(
                    before + views.take(j as int),
                    args.start,
                    args.end,
                ),
            decreases found@.len() - j,
        {
            let one = found[j];
            let ghost was = out@;
            let ghost next = before + views.take(j + 1);
            proof {
                assert(next.drop_last() =~= before + views.take(j as int));
                assert(next.last() == one@);
            }
            if has_sample_in_window(one, args.start, args.end) && !called_among(&out, one.labels()) {
                out.push(one);
                proof {
                    assert(store::ref_views(out@) =~= store::ref_views(was).push(one@));
                }
            }
            j += 1;
        }
        proof {
            assert(views.take(j as int) =~= views);
        }
        i += 1;
    }
    proof {
        assert(selectors.take(i as int) =~= selectors);
    }
    out
}

/// All series that have a sample inside the window.
fn windowed<'a>(store: &'a Store, start: Option<i64>, end: Option<i64>) -> (out: Vec<&'a Series>)
    requires
        store.wf(),
    ensures
        store::ref_views(out@) == store::candidates_of(store@, None).filter(
            |s: SeriesView| in_window(s, start, end),
        ),
        forall|i: int| 0 <= i < out@.len() ==> (#[trigger] out@[i]).wf(),
{
    let all = store.series_iter();
    let ghost views = store::ref_views(all@);
    let ghost pred = |s: SeriesView| in_window(s, start, end);
    let mut out: Vec<&'a Series> = Vec::new();
    let mut i: usize = 0;
    proof {
        reveal(Seq::filter);
        assert(store::ref_views(out@) =~= views.take(0).filter(pred));
    }
    while i < all.len()
        invariant
            i <= all@.len(),
            views == store::ref_views(all@),
            pred == (|s: SeriesView| in_window(s, start, end)),
            forall|j: int| 0 <= j < all@.len() ==> (#[trigger] all@[j]).wf(),
            store::ref_views(out@) == views.take(i as int).filter(pred),
            forall|j: int| 0 <= j < out@.len() ==> (#[trigger] out@[j]).wf(),
        decreases all@.len() - i,
    {
        let one = all[i];
        let ghost was = out@;
        proof {
            reveal(Seq::filter);
            assert(views.take(i + 1).drop_last() =~= views.take(i as int));
            assert(views.take(i + 1).last() == one@);
        }
        if has_sample_in_window(one, start, end) {
            out.push(one);
            proof {
                assert(store::ref_views(out@) =~= store::ref_views(was).push(one@));
            }
        }
        i += 1;
    }
    proof {
        assert(views.take(i as int) =~= views);
    }
    out
}

/// Whether texts stand in order, each once.
pub open spec fn in_order(texts: Seq<Seq<char>>) -> bool {
    forall|i: int, j: int|
        0 <= i < j < texts.len() ==> text::before(#[trigger] texts[i], #[trigger] texts[j])
}

/// Takes a text into a list in order, unless it is there.
fn enlist(list: &mut Vec<String>, one: &str)
    requires
        in_order(promql::name_views(old(list)@)),
    ensures
        in_order(promql::name_views(final(list)@)),
        forall|n: Seq<char>| #[trigger]
            promql::name_views(final(list)@).contains(n) <==> promql::name_views(
                old(list)@,
            ).contains(n) || n == one@,
{
    let ghost was = promql::name_views(list@);
    let mut i: usize = 0;
    while i < list.len()
        invariant_except_break
            i <= list@.len(),
            was == promql::name_views(list@),
            in_order(was),
            forall|j: int| 0 <= j < i ==> text::before(#[trigger] was[j], one@),
        ensures
            i <= list@.len(),
            was == promql::name_views(list@),
            in_order(was),
            forall|j: int| 0 <= j < i ==> text::before(#[trigger] was[j], one@),
            i < list@.len() ==> text::before(one@, was[i as int]),
        decreases list@.len() - i,
    {
        assert(was[i as int] == list@[i as int]@);
        match text::order(one, list[i].as_str()) {
            Order::Same => {
                return ;
            },
            Order::Before => {
                break;
            },
            Order::After => {},
        }
        i += 1;
    }
    list.insert(i, one.to_owned());
    proof {
        let now = promql::name_views(list@);
        assert(now =~= was.insert(i as int, one@));
        assert forall|a: int, b: int| 0 <= a < b < now.len() implies text::before(
            #[trigger] now[a],
            #[trigger] now[b],
        ) by {
            if a < i {
                assert(now[a] == was[a]);
                if b > i {
                    assert(now[b] == was[b - 1]);
                }
            } else if a > i {
                assert(now[a] == was[a - 1]);
                assert(now[b] == was[b - 1]);
            } else {
                assert(now[b] == was[b - 1]);
                if b > i + 1 {
                    text::lemma_before_transitive(one@, was[i as int], was[b - 1]);
                }
            }
        }
        assert forall|n: Seq<char>| #[trigger] now.contains(n) <==> was.contains(n) || n == one@ by {
            if was.contains(n) {
                let j = choose|j: int| 0 <= j < was.len() && was[j] == n;
                if j < i {
                    assert(now[j] == n);
                } else {
                    assert(now[j + 1] == n);
                }
            }
            if n == one@ {
                assert(now[i as int] == n);
            }
            if now.contains(n) {
                let j = choose|j: int| 0 <= j < now.len() && now[j] == n;
                if j < i {
                    assert(was[j] == n);
                } else if j > i {
                    assert(was[j - 1] == n);
                }
            }
        }
    }
}

/// Whether some series have a label.
pub open spec fn has_label(all: Seq<SeriesView>, name: Seq<char>) -> bool {
    exists|i: int| 0 <= i < all.len() && textmap::lookup((#[trigger] all[i]).labels, name) is Some
}

/// Whether some series have a label with this value.
pub open spec fn has_value(all: Seq<SeriesView>, name: Seq<char>, value: Seq<char>) -> bool {
    exists|i: int|
        0 <= i < all.len() && textmap::lookup((#[trigger] all[i]).labels, name) == Some(value)
}

/// Whether a list is that of the labels that some series have: in order,
/// each once, those and no others.
pub open spec fn lists_labels(list: Seq<Seq<char>>, all: Seq<SeriesView>) -> bool {
    in_order(list) && forall|name: Seq<char>| #[trigger] list.contains(name) <==> has_label(all, name)
}

/// Whether a list is that of the values that some series have under a
/// label: in order, each once, those and no others.
pub open spec fn lists_values(list: Seq<Seq<char>>, all: Seq<SeriesView>, name: Seq<char>) -> bool {
    in_order(list) && forall|value: Seq<char>| #[trigger]
        list.contains(value) <==> has_value(all, name, value)
}

proof fn lemma_label_found(entries: Seq<Entry>, k: Seq<char>)
    ensures
        textmap::lookup(entries, k) is Some <==> exists|i: int|
            0 <= i < entries.len() && (#[trigger] entries[i]).0 == k,
    decreases entries.len(),
{
    if entries.len() > 0 {
        let rest = entries.drop_first();
        lemma_label_found(rest, k);
        if exists|i: int| 0 <= i < entries.len() && (#[trigger] entries[i]).0 == k {
            let i = choose|i: int| 0 <= i < entries.len() && (#[trigger] entries[i]).0 == k;
            if i > 0 {
                assert(rest[i - 1].0 == k);
            }
        }
        if exists|i: int| 0 <= i < rest.len() && (#[trigger] rest[i]).0 == k {
            let i = choose|i: int| 0 <= i < rest.len() && (#[trigger] rest[i]).0 == k;
            assert(entries[i + 1].0 == k);
        }
    }
}

/// The labels of the series that parameters ask about.
pub fn labels_of(store: &Store, args: &Args) -> (names: Vec<String>)
    requires
        store.wf(),
    ensures
        lists_labels(promql::name_views(names@), asked(store@, args@)),
{
    let all = matching(store, args);
    let ghost views = store::ref_views(all@);
    let mut names: Vec<String> = Vec::new();
    let mut i: usize = 0;
    while i < all.len()
        invariant
            i <= all@.len(),
            views == store::ref_views(all@),
            lists_labels(promql::name_views(names@), views.take(i as int)),
        decreases all@.len() - i,
    {
        let entries = all[i].labels().entries();
        let ghost labels = all@[i as int]@.labels;
        let ghost before = promql::name_views(names@);
        let mut j: usize = 0;
        while j < entries.len()
            invariant
                j <= entries@.len(),
                labels == textmap::entries_of(entries@),
                in_order(promql::name_views(names@)),
                forall|name: Seq<char>| #[trigger]
                    promql::name_views(names@).contains(name) <==> before.contains(name) || exists|
                        k: int,
                    |
                        0 <= k < j && (#[trigger] labels[k]).0 == name,
            decreases entries@.len() - j,
        {
            let ghost was = promql::name_views(names@);
            enlist(&mut names, entries[j].0.as_str());
            proof {
                assert(labels[j as int].0 == entries@[j as int].0@);
                let now = promql::name_views(names@);
                assert forall|name: Seq<char>| #[trigger] now.contains(name) <==> before.contains(
                    name,
                ) || exists|k: int| 0 <= k < j + 1 && (#[trigger] labels[k]).0 == name by {
                    assert(was.contains(name) <==> before.contains(name) || exists|k: int|
                        0 <= k < j && (#[trigger] labels[k]).0 == name);
                }
            }
            j += 1;
        }
        proof {
            let now = promql::name_views(names@);
            let rest = views.take(i as int);
            let more = views.take(i + 1);
            assert forall|name: Seq<char>| #[trigger] now.contains(name) <==> has_label(
                more,
                name,
            ) by {
                lemma_label_found(labels, name);
                assert(before.contains(name) <==> has_label(rest, name));
                assert(more[i as int].labels == labels);
                if has_label(rest, name) {
                    let k = choose|k: int|
                        0 <= k < rest.len() && textmap::lookup((#[trigger] rest[k]).labels, name) is Some;
                    assert(more[k] == rest[k]);
                }
                if has_label(more, name) {
                    let k = choose|k: int|
                        0 <= k < more.len() && textmap::lookup((#[trigger] more[k]).labels, name) is Some;
                    if k < i {
                        assert(rest[k] == more[k]);
                    }
                }
            }
        }
        i += 1;
    }
    proof {
        assert(views.take(i as int) =~= views);
    }
    names
}

/// The values that the series which parameters ask about have under a
/// label.
pub fn values_of(store: &Store, name: &str, args: &Args) -> (values: Vec<String>)
    requires
        store.wf(),
    ensures
        lists_values(promql::name_views(values@), asked(store@, args@), name@),
{
    let all = matching(store, args);
    let ghost views = store::ref_views(all@);
    let mut values: Vec<String> = Vec::new();
    let mut i: usize = 0;
    while i < all.len()
        invariant
            i <= all@.len(),
            views == store::ref_views(all@),
            lists_values(promql::name_views(values@), views.take(i as int), name@),
        decreases all@.len() - i,
    {
        let ghost before = promql::name_views(values@);
        let found = all[i].labels().get(name);
        let ghost labels = all@[i as int]@.labels;
        match found {
            Some(value) => enlist(&mut values, value.as_str()),
            None => {},
        }
        proof {
            let now = promql::name_views(values@);
            let rest = views.take(i as int);
            let more = views.take(i + 1);
            assert forall|value: Seq<char>| #[trigger] now.contains(value) <==> has_value(
                more,
                name@,
                value,
            ) by {
                assert(before.contains(value) <==> has_value(rest, name@, value));
                assert(more[i as int].labels == labels);
                if has_value(rest, name@, value) {
                    let k = choose|k: int|
                        0 <= k < rest.len() && textmap::lookup((#[trigger] rest[k]).labels, name@)
                            == Some(value);
                    assert(more[k] == rest[k]);
                }
                if has_value(more, name@, value) {
                    let k = choose|k: int|
                        0 <= k < more.len() && textmap::lookup((#[trigger] more[k]).labels, name@)
                            == Some(value);
                    if k < i {
                        assert(rest[k] == more[k]);
                    }
                }
            }
        }
        i += 1;
    }
    proof {
        assert(views.take(i as int) =~= views);
    }
    values
}

/// Label sets as what they hold.
pub open spec fn label_views(all: Seq<&Labels>) -> Seq<Seq<Entry>> {
    all.map_values(|l: &Labels| l@)
}

/// What series are called.
pub open spec fn called(all: Seq<SeriesView>) -> Seq<Seq<Entry>> {
    all.map_values(|s: SeriesView| s.labels)
}

/// What the series that parameters ask about are called. A bare request is
/// refused rather than answered with every label set there is.
pub fn series_of<'a>(store: &'a Store, args: &Args) -> (r: Result<Vec<&'a Labels>, ArgsError>)
    requires
        store.wf(),
    ensures
        if args@.selectors.len() == 0 {
            r matches Err(ArgsError::NoSelector)
        } else {
            r matches Ok(out) && label_views(out@) == called(asked(store@, args@))
        },
{
    if args.selectors.len() == 0 {
        return Err(ArgsError::NoSelector);
    }
    let all = matching(store, args);
    let ghost views = store::ref_views(all@);
    let mut out: Vec<&'a Labels> = Vec::with_capacity(all.len());
    let mut i: usize = 0;
    while i < all.len()
        invariant
            i <= all@.len(),
            views == store::ref_views(all@),
            label_views(out@) =~= called(views.take(i as int)),
        decreases all@.len() - i,
    {
        let ghost was = out@;
        out.push(all[i].labels());
        proof {
            assert(label_views(out@) =~= label_views(was).push(views[i as int].labels));
            assert(views.take(i + 1) =~= views.take(i as int).push(views[i as int]));
        }
        i += 1;
    }
    proof {
        assert(views.take(i as int) =~= views);
    }
    Ok(out)
}

/// Answers which labels there are.
pub fn labels(store: &Store, raw: &str) -> (r: Result<Vec<String>, ArgsError>)
    requires
        store.wf(),
    ensures
        match r {
            Ok(names) => args_of(form_pairs(raw@)) matches Ok(args) && lists_labels(
                promql::name_views(names@),
                asked(store@, args),
            ),
            Err(e) => args_under(
                form_pairs(raw@),
                args_refusals(Err::<ArgsView, ArgsFault>(e@)),
            ) == Err::<ArgsView, ArgsFault>(e@),
        },
{
    match parse_args(raw) {
        Ok(args) => Ok(labels_of(store, &args)),
        Err(e) => Err(e),
    }
}

/// Answers which values a label has.
pub fn values(store: &Store, name: &str, raw: &str) -> (r: Result<Vec<String>, ArgsError>)
    requires
        store.wf(),
    ensures
        match r {
            Ok(values) => args_of(form_pairs(raw@)) matches Ok(args) && lists_values(
                promql::name_views(values@),
                asked(store@, args),
                name@,
            ),
            Err(e) => args_under(
                form_pairs(raw@),
                args_refusals(Err::<ArgsView, ArgsFault>(e@)),
            ) == Err::<ArgsView, ArgsFault>(e@),
        },
{
    match parse_args(raw) {
        Ok(args) => Ok(values_of(store, name, &args)),
        Err(e) => Err(e),
    }
}

/// What pairs make of a request that has to have a selector, where the
/// patterns in `bad` are refused beside the malformed ones.
pub open spec fn selecting_args_under(pairs: Seq<Entry>, bad: Set<Seq<char>>) -> Result<
    ArgsView,
    ArgsFault,
> {
    match args_under(pairs, bad) {
        Ok(args) => if args.selectors.len() == 0 {
            Err(ArgsFault::NoSelector)
        } else {
            Ok(args)
        },
        Err(e) => Err(e),
    }
}

/// Answers which series there are.
pub fn series<'a>(store: &'a Store, raw: &str) -> (r: Result<Vec<&'a Labels>, ArgsError>)
    requires
        store.wf(),
    ensures
        match r {
            Ok(out) => selecting_args_under(form_pairs(raw@), Set::empty()) matches Ok(args)
                && label_views(out@) == called(asked(store@, args)),
            Err(e) => selecting_args_under(
                form_pairs(raw@),
                args_refusals(Err::<ArgsView, ArgsFault>(e@)),
            ) == Err::<ArgsView, ArgsFault>(e@),
        },
{
    match parse_args(raw) {
        Ok(args) => series_of(store, &args),
        Err(e) => Err(e),
    }
}

/// No two series that are offered are called the same, and all of them
/// have a sample inside it.
pub proof fn law_series_are_offered_once(all: Seq<SeriesView>, start: Option<i64>, end: Option<i64>)
    ensures
        forall|i: int, j: int|
            0 <= i < j < offered(all, start, end).len() ==> (#[trigger] offered(
                all,
                start,
                end,
            )[i]).labels != (#[trigger] offered(all, start, end)[j]).labels,
        forall|i: int|
            0 <= i < offered(all, start, end).len() ==> in_window(
                #[trigger] offered(all, start, end)[i],
                start,
                end,
            ),
    decreases all.len(),
{
    if all.len() > 0 {
        let before = offered(all.drop_last(), start, end);
        let out = offered(all, start, end);
        law_series_are_offered_once(all.drop_last(), start, end);
        assert forall|i: int, j: int| 0 <= i < j < out.len() implies (#[trigger] out[i]).labels != (
        #[trigger] out[j]).labels by {
            assert(out[i] == before[i]);
            if j < before.len() {
                assert(out[j] == before[j]);
            }
        }
        assert forall|i: int| 0 <= i < out.len() implies in_window(#[trigger] out[i], start, end) by {
            if i < before.len() {
                assert(out[i] == before[i]);
            }
        }
    }
}

/// A series that has a sample in the window and that some selector takes is
/// offered, under its labels.
pub proof fn law_selected_series_are_offered(
    all: Seq<SeriesView>,
    start: Option<i64>,
    end: Option<i64>,
    at: int,
)
    requires
        0 <= at < all.len(),
        in_window(all[at], start, end),
    ensures
        labels_among(offered(all, start, end), all[at].labels),
    decreases all.len(),
{
    let before = offered(all.drop_last(), start, end);
    let out = offered(all, start, end);
    if at == all.len() - 1 {
        if !labels_among(before, all.last().labels) {
            assert(out[before.len() as int].labels == all[at].labels);
        }
    } else {
        law_selected_series_are_offered(all.drop_last(), start, end, at);
        let i = choose|i: int| 0 <= i < before.len() && (#[trigger] before[i]).labels == all[at].labels;
        assert(out[i] == before[i]);
    }
}

proof fn lemma_offered_stood(all: Seq<SeriesView>, start: Option<i64>, end: Option<i64>, at: int)
    requires
        0 <= at < offered(all, start, end).len(),
    ensures
        all.contains(offered(all, start, end)[at]),
    decreases all.len(),
{
    let before = offered(all.drop_last(), start, end);
    if at < before.len() {
        lemma_offered_stood(all.drop_last(), start, end, at);
        let i = choose|i: int| 0 <= i < all.drop_last().len() && all.drop_last()[i] == before[at];
        assert(all[i] == before[at]);
    } else {
        assert(all[all.len() - 1] == offered(all, start, end)[at]);
    }
}

proof fn lemma_selected_stood(v: StoreView, selector: SelectorView, s: SeriesView)
    requires
        eval::selected(v, selector).contains(s),
    ensures
        store::candidates_of(v, None).contains(s),
{
    let some = store::candidates_of(v, selector.name);
    let every = store::candidates_of(v, None);
    some.lemma_filter_contains_rev(
        |s: SeriesView| eval::all_take(selector.matchers, s.labels),
        s,
    );
    match selector.name {
        None => {},
        Some(name) => {
            store::lemma_under_stood(v.series, store::keys_under(v.names, name), s);
            let i = choose|i: int| 0 <= i < v.series.len() && (#[trigger] v.series[i]).1 == s;
            assert(every[i] == s);
        },
    }
}

proof fn lemma_all_selected_stood(v: StoreView, selectors: Seq<SelectorView>, s: SeriesView)
    requires
        all_selected(v, selectors).contains(s),
    ensures
        store::candidates_of(v, None).contains(s),
    decreases selectors.len(),
{
    if selectors.len() > 0 {
        let all = all_selected(v, selectors);
        let front = all_selected(v, selectors.drop_last());
        let back = eval::selected(v, selectors.last());
        let i = choose|i: int| 0 <= i < all.len() && all[i] == s;
        if i < front.len() {
            assert(front[i] == s);
            lemma_all_selected_stood(v, selectors.drop_last(), s);
        } else {
            assert(back[i - front.len()] == s);
            lemma_selected_stood(v, selectors.last(), s);
        }
    }
}

/// Selectors only ever narrow: what is asked about with them is asked about
/// without them too.
pub proof fn law_selectors_narrow(v: StoreView, args: ArgsView, s: SeriesView)
    requires
        asked(v, args).contains(s),
    ensures
        asked(v, ArgsView { selectors: seq![], ..args }).contains(s),
{
    if args.selectors.len() == 0 {
        assert(args.selectors =~= seq![]);
    } else {
        let all = all_selected(v, args.selectors);
        let some = asked(v, args);
        let at = choose|i: int| 0 <= i < some.len() && some[i] == s;
        lemma_offered_stood(all, args.start, args.end, at);
        law_series_are_offered_once(all, args.start, args.end);
        lemma_all_selected_stood(v, args.selectors, s);
        store::candidates_of(v, None).lemma_filter_contains(
            |s: SeriesView| in_window(s, args.start, args.end),
            store::candidates_of(v, None).index_of(s),
        );
    }
}

/// Whether one of some selectors takes a series of a store.
pub open spec fn any_selects(v: StoreView, selectors: Seq<SelectorView>, s: SeriesView) -> bool {
    exists|i: int| 0 <= i < selectors.len() && #[trigger] eval::selected(v, selectors[i]).contains(s)
}

proof fn lemma_all_selected(v: StoreView, selectors: Seq<SelectorView>, s: SeriesView)
    ensures
        all_selected(v, selectors).contains(s) <==> any_selects(v, selectors, s),
    decreases selectors.len(),
{
    if selectors.len() > 0 {
        let init = selectors.drop_last();
        let front = all_selected(v, init);
        let back = eval::selected(v, selectors.last());
        let all = all_selected(v, selectors);
        lemma_all_selected(v, init, s);
        if all.contains(s) {
            let i = choose|i: int| 0 <= i < all.len() && all[i] == s;
            if i < front.len() {
                assert(front[i] == s);
                let k = choose|k: int|
                    0 <= k < init.len() && #[trigger] eval::selected(v, init[k]).contains(s);
                assert(selectors[k] == init[k]);
            } else {
                assert(back[i - front.len()] == s);
                assert(eval::selected(v, selectors[selectors.len() - 1]).contains(s));
            }
        }
        if any_selects(v, selectors, s) {
            let k = choose|k: int|
                0 <= k < selectors.len() && #[trigger] eval::selected(v, selectors[k]).contains(s);
            if k < init.len() {
                assert(init[k] == selectors[k]);
                let i = choose|i: int| 0 <= i < front.len() && front[i] == s;
                assert(all[i] == s);
            } else {
                let i = choose|i: int| 0 <= i < back.len() && back[i] == s;
                assert(all[front.len() + i] == s);
            }
        }
    }
}

/// Two series of a store that are called the same are the same.
proof fn lemma_called_once(v: StoreView, a: SeriesView, b: SeriesView)
    requires
        store::store_wf(v),
        store::candidates_of(v, None).contains(a),
        store::candidates_of(v, None).contains(b),
        a.labels == b.labels,
    ensures
        a == b,
{
    let all = store::candidates_of(v, None);
    let i = choose|i: int| 0 <= i < all.len() && all[i] == a;
    let j = choose|j: int| 0 <= j < all.len() && all[j] == b;
    assert(v.series[i].0 == store::key_of(v.series[i].1.labels));
    assert(v.series[j].0 == store::key_of(v.series[j].1.labels));
    if i < j {
        assert(v.series[i].0 != v.series[j].0);
    } else if j < i {
        assert(v.series[j].0 != v.series[i].0);
    }
}

/// A series is asked about if and only if it stands in the store, has a
/// sample inside the window, and is taken by a selector where there are
/// any. None that ended before the start ever is.
pub proof fn law_asked_series_are_sampled_and_selected(v: StoreView, args: ArgsView, s: SeriesView)
    requires
        store::store_wf(v),
    ensures
        asked(v, args).contains(s) <==> store::candidates_of(v, None).contains(s) && in_window(
            s,
            args.start,
            args.end,
        ) && (args.selectors.len() == 0 || any_selects(v, args.selectors, s)),
        args.start matches Some(start) && (forall|i: int|
            0 <= i < series::all_samples(s).len() ==> (#[trigger] series::all_samples(s)[i]).t < start)
            ==> !asked(v, args).contains(s),
{
    let every = store::candidates_of(v, None);
    let out = asked(v, args);
    let pred = |s: SeriesView| in_window(s, args.start, args.end);
    if args.selectors.len() == 0 {
        if out.contains(s) {
            every.lemma_filter_contains_rev(pred, s);
            let i = choose|i: int| 0 <= i < out.len() && out[i] == s;
            every.lemma_filter_pred(pred, i);
        }
        if every.contains(s) && pred(s) {
            every.lemma_filter_contains(pred, every.index_of(s));
        }
    } else {
        let all = all_selected(v, args.selectors);
        lemma_all_selected(v, args.selectors, s);
        law_series_are_offered_once(all, args.start, args.end);
        if out.contains(s) {
            let at = choose|i: int| 0 <= i < out.len() && out[i] == s;
            lemma_offered_stood(all, args.start, args.end, at);
            lemma_all_selected_stood(v, args.selectors, s);
        }
        if every.contains(s) && pred(s) && all.contains(s) {
            let at = choose|i: int| 0 <= i < all.len() && all[i] == s;
            law_selected_series_are_offered(all, args.start, args.end, at);
            let k = choose|k: int| 0 <= k < out.len() && (#[trigger] out[k]).labels == s.labels;
            lemma_offered_stood(all, args.start, args.end, k);
            lemma_all_selected_stood(v, args.selectors, out[k]);
            lemma_called_once(v, out[k], s);
        }
    }
}

proof fn lemma_filtered_labels_differ(all: Seq<SeriesView>, pred: spec_fn(SeriesView) -> bool)
    requires
        forall|i: int, j: int|
            0 <= i < j < all.len() ==> (#[trigger] all[i]).labels != (#[trigger] all[j]).labels,
    ensures
        forall|i: int, j: int|
            0 <= i < j < all.filter(pred).len() ==> (#[trigger] all.filter(pred)[i]).labels != (
            #[trigger] all.filter(pred)[j]).labels,
    decreases all.len(),
{
    reveal(Seq::filter);
    if all.len() > 0 {
        let init = all.drop_last();
        let before = init.filter(pred);
        let out = all.filter(pred);
        assert forall|i: int, j: int| 0 <= i < j < init.len() implies (#[trigger] init[i]).labels != (
        #[trigger] init[j]).labels by {
            assert(init[i] == all[i] && init[j] == all[j]);
        }
        lemma_filtered_labels_differ(init, pred);
        assert forall|i: int, j: int| 0 <= i < j < out.len() implies (#[trigger] out[i]).labels != (
        #[trigger] out[j]).labels by {
            assert(out[i] == before[i]);
            if j < before.len() {
                assert(out[j] == before[j]);
            } else {
                assert(before.contains(before[i]));
                init.lemma_filter_contains_rev(pred, before[i]);
                let k = choose|k: int| 0 <= k < init.len() && init[k] == before[i];
                assert(all[k] == out[i] && all[all.len() - 1] == out[j]);
            }
        }
    }
}

/// No series is asked about twice.
pub proof fn law_no_series_is_asked_about_twice(v: StoreView, args: ArgsView)
    requires
        store::store_wf(v),
    ensures
        forall|i: int, j: int|
            0 <= i < j < asked(v, args).len() ==> (#[trigger] asked(v, args)[i]).labels != (
            #[trigger] asked(v, args)[j]).labels,
{
    if args.selectors.len() == 0 {
        let every = store::candidates_of(v, None);
        assert forall|i: int, j: int| 0 <= i < j < every.len() implies (#[trigger] every[i]).labels
            != (#[trigger] every[j]).labels by {
            assert(v.series[i].0 == store::key_of(v.series[i].1.labels));
            assert(v.series[j].0 == store::key_of(v.series[j].1.labels));
            assert(v.series[i].0 != v.series[j].0);
        }
        lemma_filtered_labels_differ(
            every,
            |s: SeriesView| in_window(s, args.start, args.end),
        );
    } else {
        law_series_are_offered_once(all_selected(v, args.selectors), args.start, args.end);
    }
}

} // verus!
