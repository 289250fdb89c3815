//! Evaluation of the parsed subset against the store.

use super::{
    by_view, expr_view, matcher_views, name_views, takes, BinOp, Expr, ExprView, Matcher, MatcherView, Selector,
    SelectorView,
};
use crate::double;
use crate::keyed;
use crate::keyed::Keyed;
use crate::series;
use crate::store;
use crate::store::{canonical_key, Labels, Sample, Series, SeriesView, Store, StoreView, NAME_LABEL};
use crate::text;
use crate::textmap;
use crate::textmap::Entry;
use vstd::prelude::*;

verus! {

/// How stale a sample may be and still answer for an instant. It is what
/// makes a chart break rather than draw a flat line across an outage.
pub const LOOKBACK: i64 = 300;

/// What an expression comes to at an instant. Numbers are the bits of
/// doubles.
pub enum Value {
    Scalar(u64),
    Vector(Vec<(Labels, u64)>),
}

pub enum ValueView {
    Scalar(u64),
    Vector(Seq<(Seq<Entry>, u64)>),
}

/// Points as what they are called and what they come to.
pub open spec fn point_views(points: Seq<(Labels, u64)>) -> Seq<(Seq<Entry>, u64)> {
    points.map_values(|p: (Labels, u64)| (p.0@, p.1))
}

impl View for Value {
    type V = ValueView;

    open spec fn view(&self) -> ValueView {
        match self {
            Value::Scalar(n) => ValueView::Scalar(*n),
            Value::Vector(points) => ValueView::Vector(point_views(points@)),
        }
    }
}

/// The points of a value. A scalar has none.
pub open spec fn points_of(value: ValueView) -> Seq<(Seq<Entry>, u64)> {
    match value {
        ValueView::Vector(points) => points,
        ValueView::Scalar(_) => seq![],
    }
}

/// The value that a label has for a matcher. A label that is absent has the
/// empty one, which is what makes `container!=""` exclude the pod-level
/// rollups rather than everything.
pub open spec fn label_value(labels: Seq<Entry>, label: Seq<char>) -> Seq<char> {
    match textmap::lookup(labels, label) {
        Some(value) => value,
        None => seq![],
    }
}

/// Whether matchers take a label set.
pub open spec fn all_take(matchers: Seq<MatcherView>, labels: Seq<Entry>) -> bool {
    forall|i: int|
        0 <= i < matchers.len() ==> takes(
            #[trigger] matchers[i],
            label_value(labels, matchers[i].label),
        )
}

/// The series of a store that a selector takes.
pub open spec fn selected(v: StoreView, selector: SelectorView) -> Seq<SeriesView> {
    store::candidates_of(v, selector.name).filter(
        |s: SeriesView| all_take(selector.matchers, s.labels),
    )
}

/// A label set without its name.
pub open spec fn unnamed(labels: Seq<Entry>) -> Seq<Entry> {
    textmap::without_entry(labels, NAME_LABEL@)
}

/// What each series has for an instant, where it has something.
pub open spec fn instant_points(all: Seq<SeriesView>, t: i64) -> Seq<(Seq<Entry>, u64)>
    decreases all.len(),
{
    if all.len() == 0 {
        seq![]
    } else {
        let before = instant_points(all.drop_last(), t);
        match series::answer(series::all_samples(all.last()), t, LOOKBACK) {
            Some(v) => before.push((unnamed(all.last().labels), v)),
            None => before,
        }
    }
}

/// How much a counter grew over samples. Where it fell it was reset, and
/// what it holds is what it grew by since.
pub open spec fn grown(samples: Seq<Sample>) -> u64
    decreases samples.len(),
{
    if samples.len() < 2 {
        double::of_int(0)
    } else {
        let v = samples.last().v;
        let prev = samples[samples.len() - 2].v;
        double::sum(
            grown(samples.drop_last()),
            if double::less(v, prev) {
                v
            } else {
                double::difference(v, prev)
            },
        )
    }
}

/// How fast a counter grew over samples, a second.
pub open spec fn rate_over(samples: Seq<Sample>) -> Option<u64> {
    if samples.len() < 2 || samples.last().t <= samples[0].t {
        None
    } else {
        Some(
            double::quotient(
                grown(samples),
                double::of_int(samples.last().t - samples[0].t),
            ),
        )
    }
}

/// How fast each series grew over a window, where that can be told.
pub open spec fn rate_points(all: Seq<SeriesView>, t: i64, window: i64) -> Seq<(Seq<Entry>, u64)>
    decreases all.len(),
{
    if all.len() == 0 {
        seq![]
    } else {
        let before = rate_points(all.drop_last(), t, window);
        match rate_over(series::within(series::all_samples(all.last()), t, window)) {
            Some(v) => before.push((unnamed(all.last().labels), v)),
            None => before,
        }
    }
}

/// The labels that a `by` clause keeps. A label that is absent is not kept.
pub open spec fn kept(labels: Seq<Entry>, names: Seq<Seq<char>>) -> Seq<Entry>
    decreases names.len(),
{
    if names.len() == 0 {
        seq![]
    } else {
        let before = kept(labels, names.drop_last());
        match textmap::lookup(labels, names.last()) {
            Some(v) => textmap::with_entry(before, names.last(), v),
            None => before,
        }
    }
}

/// What a point is grouped under. Without a `by` clause everything folds
/// into one series.
pub open spec fn group_of(labels: Seq<Entry>, by: Option<Seq<Seq<char>>>) -> Seq<Entry> {
    match by {
        Some(names) => kept(labels, names),
        None => seq![],
    }
}

/// Sums by group, each group where its first point stood.
pub open spec fn groups(points: Seq<(Seq<Entry>, u64)>, by: Option<Seq<Seq<char>>>) -> Seq<
    (Seq<char>, (Seq<Entry>, u64)),
>
    decreases points.len(),
{
    if points.len() == 0 {
        seq![]
    } else {
        let before = groups(points.drop_last(), by);
        let (labels, v) = points.last();
        let group = group_of(labels, by);
        let key = store::key_of(group);
        match keyed::found(before, key) {
            Some((first, total)) => keyed::put(before, key, (first, double::sum(total, v))),
            None => keyed::put(before, key, (group, v)),
        }
    }
}

/// Entries without their keys.
pub open spec fn without_keys<V>(entries: Seq<(Seq<char>, V)>) -> Seq<V> {
    entries.map_values(|e: (Seq<char>, V)| e.1)
}

pub open spec fn applied(op: BinOp, a: u64, b: u64) -> u64 {
    match op {
        BinOp::Add => double::sum(a, b),
        BinOp::Sub => double::difference(a, b),
        BinOp::Mul => double::product(a, b),
        BinOp::Div => double::quotient(a, b),
    }
}

/// Points by the key of what they are called, the last of each key.
pub open spec fn by_key(points: Seq<(Seq<Entry>, u64)>) -> Seq<(Seq<char>, u64)>
    decreases points.len(),
{
    if points.len() == 0 {
        seq![]
    } else {
        keyed::put(
            by_key(points.drop_last()),
            store::key_of(points.last().0),
            points.last().1,
        )
    }
}

/// Points of the left side with what the right side has under the same
/// labels. A point without a partner drops out.
pub open spec fn paired(
    op: BinOp,
    points: Seq<(Seq<Entry>, u64)>,
    others: Seq<(Seq<char>, u64)>,
) -> Seq<(Seq<Entry>, u64)>
    decreases points.len(),
{
    if points.len() == 0 {
        seq![]
    } else {
        let before = paired(op, points.drop_last(), others);
        let (labels, v) = points.last();
        match keyed::found(others, store::key_of(labels)) {
            Some(other) => before.push((labels, applied(op, v, other))),
            None => before,
        }
    }
}

/// What an operator makes of two values.
pub open spec fn combined(op: BinOp, lhs: ValueView, rhs: ValueView) -> ValueView {
    match (lhs, rhs) {
        (ValueView::Scalar(a), ValueView::Scalar(b)) => ValueView::Scalar(applied(op, a, b)),
        (ValueView::Vector(points), ValueView::Scalar(b)) => ValueView::Vector(
            points.map_values(|p: (Seq<Entry>, u64)| (p.0, applied(op, p.1, b))),
        ),
        (ValueView::Scalar(a), ValueView::Vector(points)) => ValueView::Vector(
            points.map_values(|p: (Seq<Entry>, u64)| (p.0, applied(op, a, p.1))),
        ),
        (ValueView::Vector(a), ValueView::Vector(b)) => ValueView::Vector(paired(op, a, by_key(b))),
    }
}

/// What an expression comes to at `t`.
pub open spec fn evaluated(v: StoreView, e: ExprView, t: i64) -> ValueView
    decreases e,
{
    match e {
        ExprView::Number(n) => ValueView::Scalar(n),
        ExprView::Selector(selector) => ValueView::Vector(instant_points(selected(v, selector), t)),
        ExprView::Rate(selector, window) => ValueView::Vector(
            rate_points(selected(v, selector), t, window),
        ),
        ExprView::Sum(inner, by) => ValueView::Vector(
            without_keys(groups(points_of(evaluated(v, *inner, t)), by)),
        ),
        ExprView::Binary(op, lhs, rhs) => combined(
            op,
            evaluated(v, *lhs, t),
            evaluated(v, *rhs, t),
        ),
    }
}

impl Value {
    /// The points of a value. A scalar has none.
    pub fn into_vector(self) -> (points: Vec<(Labels, u64)>)
        ensures
            point_views(points@) == points_of(self@),
    {
        match self {
            Value::Vector(points) => points,
            Value::Scalar(_) => {
                let none: Vec<(Labels, u64)> = Vec::new();
                proof {
                    assert(point_views(none@) =~= seq![]);
                }
                none
            },
        }
    }
}

/// Whether matchers take a label set.
fn take_all(matchers: &Vec<Matcher>, labels: &Labels) -> (r: bool)
    ensures
        r == all_take(matcher_views(matchers@), labels@),
{
    let ghost views = matcher_views(matchers@);
    let empty = String::new();
    let mut i: usize = 0;
    while i < matchers.len()
        invariant
            i <= matchers@.len(),
            views == matcher_views(matchers@),
            empty@ == Seq::<char>::empty(),
            forall|j: int|
                0 <= j < i ==> takes(#[trigger] views[j], label_value(labels@, views[j].label)),
        decreases matchers@.len() - i,
    {
        let matcher = &matchers[i];
        let value = match labels.get(matcher.label.as_str()) {
            Some(value) => value.as_str(),
            None => empty.as_str(),
        };
        proof {
            assert(views[i as int] == matcher@);
            assert(value@ =~= label_value(labels@, matcher@.label));
        }
        if !matcher.matches(value) {
            return false;
        }
        i += 1;
    }
    true
}

/// The series of a store that a selector takes.
pub fn select<'a>(store: &'a Store, selector: &Selector) -> (out: Vec<&'a Series>)
    requires
        store.wf(),
    ensures
        store::ref_views(out@) == selected(store@, selector@),
        forall|i: int| 0 <= i < out@.len() ==> (#[trigger] out@[i]).wf(),
{
    let name = match &selector.name {
        Some(name) => Some(name.as_str()),
        None => None,
    };
    let all = store.candidates(name);
    let ghost views = store::ref_views(all@);
    let ghost pred = |s: SeriesView| all_take(selector@.matchers, s.labels);
    let mut out: Vec<&'a Series> = Vec::new();
    let mut i: usize = 0;
    proof {
        reveal(Seq::filter);
        assert(store::ref_views(out@) =~= views.take(0).filter(pred));
    }
    while i < all.len()
        invariant
            i <= all@.len(),
            views == store::ref_views(all@),
            pred == (|s: SeriesView| all_take(selector@.matchers, s.labels)),
            forall|j: int| 0 <= j < all@.len() ==> (#[trigger] all@[j]).wf(),
            store::ref_views(out@) == views.take(i as int).filter(pred),
            forall|j: int| 0 <= j < out@.len() ==> (#[trigger] out@[j]).wf(),
        decreases all@.len() - i,
    {
        let series = all[i];
        let ghost before = out@;
        proof {
            reveal(Seq::filter);
            assert(views.take(i + 1).drop_last() =~= views.take(i as int));
            assert(views.take(i + 1).last() == series@);
        }
        if take_all(&selector.matchers, series.labels()) {
            out.push(series);
            proof {
                assert(store::ref_views(out@) =~= store::ref_views(before).push(series@));
            }
        }
        i += 1;
    }
    proof {
        assert(views.take(i as int) =~= views);
    }
    out
}

/// A label set without its name.
fn without_name(labels: &Labels) -> (out: Labels)
    ensures
        out@ == unnamed(labels@),
{
    labels.without(NAME_LABEL)
}

pub fn apply(op: BinOp, a: u64, b: u64) -> (r: u64)
    ensures
        r == applied(op, a, b),
{
    match op {
        BinOp::Add => double::plus(a, b),
        BinOp::Sub => double::minus(a, b),
        BinOp::Mul => double::times(a, b),
        BinOp::Div => double::over(a, b),
    }
}

/// How fast a counter grew over samples, a second. A container restart
/// resets its counter, and a plain last-minus-first would render that as a
/// large negative rate.
pub fn rate(samples: &[Sample]) -> (r: Option<u64>)
    requires
        samples@.len() > 0 ==> samples@.last().t - samples@[0].t <= i64::MAX,
    ensures
        r == rate_over(samples@),
{
    let n = samples.len();
    if n < 2 || samples[n - 1].t <= samples[0].t {
        return None;
    }
    let span = samples[n - 1].t - samples[0].t;
    let mut delta = double::from_int(0);
    let mut prev = samples[0].v;
    let mut i: usize = 1;
    while i < n
        invariant
            n == samples@.len(),
            1 <= i <= n,
            prev == samples@[i - 1].v,
            delta == grown(samples@.take(i as int)),
        decreases n - i,
    {
        let v = samples[i].v;
        proof {
            assert(samples@.take(i + 1).drop_last() =~= samples@.take(i as int));
        }
        delta = double::plus(
            delta,
            if double::is_less(v, prev) {
                v
            } else {
                double::minus(v, prev)
            },
        );
        prev = v;
        i += 1;
    }
    proof {
        assert(samples@.take(i as int) =~= samples@);
    }
    Some(double::over(delta, double::from_int(span)))
}

/// What each series has for an instant.
fn eval_selector(store: &Store, selector: &Selector, t: i64) -> (out: Vec<(Labels, u64)>)
    requires
        store.wf(),
    ensures
        point_views(out@) == instant_points(selected(store@, selector@), t),
{
    let all = select(store, selector);
    let ghost views = store::ref_views(all@);
    let mut out: Vec<(Labels, u64)> = Vec::new();
    let mut i: usize = 0;
    proof {
        assert(point_views(out@) =~= instant_points(views.take(0), t));
    }
    while i < all.len()
        invariant
            i <= all@.len(),
            views == store::ref_views(all@),
            forall|j: int| 0 <= j < all@.len() ==> (#[trigger] all@[j]).wf(),
            point_views(out@) == instant_points(views.take(i as int), t),
        decreases all@.len() - i,
    {
        let series = all[i];
        let ghost before = out@;
        proof {
            assert(views.take(i + 1).drop_last() =~= views.take(i as int));
            assert(views.take(i + 1).last() == series@);
        }
        match series.value_at(t, LOOKBACK) {
            Some(v) => {
                let labels = without_name(series.labels());
                out.push((labels, v));
                proof {
                    assert(point_views(out@) =~= point_views(before).push((labels@, v)));
                }
            },
            None => {},
        }
        i += 1;
    }
    proof {
        assert(views.take(i as int) =~= views);
    }
    out
}

proof fn lemma_within_span(samples: Seq<Sample>, t: i64, window: i64)
    ensures
        ({
            let kept = series::within(samples, t, window);
            kept.len() > 0 ==> kept.last().t - kept[0].t <= i64::MAX
        }),
{
    let inside = |s: Sample| t - window < s.t <= t;
    let kept = series::within(samples, t, window);
    if kept.len() > 0 {
        samples.lemma_filter_pred(inside, 0);
        samples.lemma_filter_pred(inside, kept.len() - 1);
    }
}

/// How fast each series grew over a window.
fn eval_rate(store: &Store, selector: &Selector, window: i64, t: i64) -> (out: Vec<(Labels, u64)>)
    requires
        store.wf(),
    ensures
        point_views(out@) == rate_points(selected(store@, selector@), t, window),
{
    let all = select(store, selector);
    let ghost views = store::ref_views(all@);
    let mut out: Vec<(Labels, u64)> = Vec::new();
    let mut i: usize = 0;
    proof {
        assert(point_views(out@) =~= rate_points(views.take(0), t, window));
    }
    while i < all.len()
        invariant
            i <= all@.len(),
            views == store::ref_views(all@),
            forall|j: int| 0 <= j < all@.len() ==> (#[trigger] all@[j]).wf(),
            point_views(out@) == rate_points(views.take(i as int), t, window),
        decreases all@.len() - i,
    {
        let series = all[i];
        let ghost before = out@;
        proof {
            assert(views.take(i + 1).drop_last() =~= views.take(i as int));
            assert(views.take(i + 1).last() == series@);
            lemma_within_span(series::all_samples(series@), t, window);
        }
        let samples = series.range_at(t, window);
        match rate(samples.as_slice()) {
            Some(v) => {
                let labels = without_name(series.labels());
                out.push((labels, v));
                proof {
                    assert(point_views(out@) =~= point_views(before).push((labels@, v)));
                }
            },
            None => {},
        }
        i += 1;
    }
    proof {
        assert(views.take(i as int) =~= views);
    }
    out
}

/// What a point is grouped under.
fn group(labels: &Labels, by: &Option<Vec<String>>) -> (out: Labels)
    ensures
        out@ == group_of(labels@, by_view(*by)),
{
    let mut out = Labels::new();
    match by {
        None => {},
        Some(names) => {
            let ghost all = name_views(names@);
            let mut i: usize = 0;
            proof {
                assert(all.take(0) =~= seq![]);
            }
            while i < names.len()
                invariant
                    i <= names@.len(),
                    all == name_views(names@),
                    out@ == kept(labels@, all.take(i as int)),
                decreases names@.len() - i,
            {
                proof {
                    assert(all.take(i + 1).drop_last() =~= all.take(i as int));
                    assert(all.take(i + 1).last() == names@[i as int]@);
                }
                match labels.get(names[i].as_str()) {
                    Some(v) => out.insert(names[i].clone(), v.clone()),
                    None => {},
                }
                i += 1;
            }
            proof {
                assert(all.take(i as int) =~= all);
            }
        },
    }
    out
}

/// Groups as what they are called and what they come to.
pub open spec fn group_views(entries: Seq<(Seq<char>, (Labels, u64))>) -> Seq<
    (Seq<char>, (Seq<Entry>, u64)),
> {
    entries.map_values(|e: (Seq<char>, (Labels, u64))| (e.0, (e.1.0@, e.1.1)))
}

/// Sums points by group.
fn sum_by(points: Vec<(Labels, u64)>, by: &Option<Vec<String>>) -> (out: Vec<(Labels, u64)>)
    ensures
        point_views(out@) == without_keys(groups(point_views(points@), by_view(*by))),
{
    let ghost all = point_views(points@);
    let ghost names = by_view(*by);
    let mut sums: Keyed<(Labels, u64)> = Keyed::new();
    proof {
        assert(all.take(0) =~= seq![]);
        assert(group_views(sums@) =~= groups(all.take(0), names));
    }
    for point in it: points.into_iter()
        invariant
            it.seq() == points@,
            all == point_views(points@),
            names == by_view(*by),
            sums.wf(),
            group_views(sums@) == groups(all.take(it.index()), names),
    {
        let ghost i = it.index();
        let (labels, v) = point;
        let ghost was = group_views(sums@);
        proof {
            assert(all.take(i + 1).drop_last() =~= all.take(i));
            assert(all.take(i + 1).last() == (labels@, v));
        }
        let grouped = group(&labels, by);
        let key = canonical_key(&grouped);
        proof {
            keyed::lemma_place_by_keys(sums@, was, key@);
            keyed::lemma_place(was, key@);
        }
        match sums.find(key.as_str()) {
            Some(at) => {
                let entry = sums.at_mut(at);
                entry.1 = double::plus(entry.1, v);
                proof {
                    assert(group_views(sums@) =~= groups(all.take(i + 1), names));
                }
            },
            None => {
                let ghost held = key@;
                let ghost labels = grouped@;
                sums.put(key, (grouped, v));
                proof {
                    assert(group_views(sums@) =~= keyed::put(was, held, (labels, v)));
                }
            },
        }
    }
    proof {
        assert(all.take(points@.len() as int) =~= all);
    }
    let ghost result = group_views(sums@);
    let entries = sums.into_entries();
    let mut out: Vec<(Labels, u64)> = Vec::with_capacity(entries.len());
    proof {
        assert(point_views(out@) =~= without_keys(result).take(0));
    }
    for entry in it: entries.into_iter()
        invariant
            it.seq() == entries@,
            result == group_views(keyed::keyed_of(entries@)),
            point_views(out@) == without_keys(result).take(it.index()),
    {
        let ghost i = it.index();
        let ghost before = out@;
        let (_, point) = entry;
        out.push(point);
        proof {
            assert(without_keys(result)[i] == (point.0@, point.1));
            assert(point_views(out@) =~= point_views(before).push((point.0@, point.1)));
            assert(without_keys(result).take(i + 1) =~= without_keys(result).take(i).push(
                without_keys(result)[i],
            ));
        }
    }
    proof {
        assert(without_keys(result).take(entries@.len() as int) =~= without_keys(result));
    }
    out
}

/// Applies an operator with a scalar to every point, on the side that is
/// asked for.
fn with_scalar(op: BinOp, points: Vec<(Labels, u64)>, scalar: u64, scalar_first: bool) -> (out: Vec<
    (Labels, u64),
>)
    ensures
        point_views(out@) == point_views(points@).map_values(
            |p: (Seq<Entry>, u64)|
                (
                    p.0,
                    if scalar_first {
                        applied(op, scalar, p.1)
                    } else {
                        applied(op, p.1, scalar)
                    },
                ),
        ),
{
    let ghost f = |p: (Seq<Entry>, u64)|
        (
            p.0,
            if scalar_first {
                applied(op, scalar, p.1)
            } else {
                applied(op, p.1, scalar)
            },
        );
    let ghost goal = point_views(points@).map_values(f);
    let mut out: Vec<(Labels, u64)> = Vec::with_capacity(points.len());
    proof {
        assert(point_views(out@) =~= goal.take(0));
    }
    for point in it: points.into_iter()
        invariant
            it.seq() == points@,
            goal == point_views(points@).map_values(f),
            f == (|p: (Seq<Entry>, u64)|
                (
                    p.0,
                    if scalar_first {
                        applied(op, scalar, p.1)
                    } else {
                        applied(op, p.1, scalar)
                    },
                )),
            point_views(out@) == goal.take(it.index()),
    {
        let ghost i = it.index();
        let ghost before = out@;
        let (labels, v) = point;
        let r = if scalar_first {
            apply(op, scalar, v)
        } else {
            apply(op, v, scalar)
        };
        out.push((labels, r));
        proof {
            assert(goal[i] == (labels@, r));
            assert(point_views(out@) =~= point_views(before).push((labels@, r)));
            assert(goal.take(i + 1) =~= goal.take(i).push(goal[i]));
        }
    }
    proof {
        assert(goal.take(points@.len() as int) =~= goal);
    }
    out
}

/// Points by the key of what they are called, the last of each key.
fn index_points(points: &Vec<(Labels, u64)>) -> (out: Keyed<u64>)
    ensures
        out.wf(),
        out@ == by_key(point_views(points@)),
{
    let ghost all = point_views(points@);
    let mut out: Keyed<u64> = Keyed::new();
    let mut i: usize = 0;
    proof {
        assert(all.take(0) =~= seq![]);
    }
    while i < points.len()
        invariant
            i <= points@.len(),
            all == point_views(points@),
            out.wf(),
            out@ == by_key(all.take(i as int)),
        decreases points@.len() - i,
    {
        proof {
            assert(all.take(i + 1).drop_last() =~= all.take(i as int));
            assert(all.take(i + 1).last() == (points@[i as int].0@, points@[i as int].1));
        }
        out.put(canonical_key(&points[i].0), points[i].1);
        i += 1;
    }
    proof {
        assert(all.take(i as int) =~= all);
    }
    out
}

/// Matches points of two sides one to one on the full label set, which is
/// what makes `MemTotal - (MemFree + Buffers + Cached)` line up.
fn pair(op: BinOp, points: Vec<(Labels, u64)>, others: &Keyed<u64>) -> (out: Vec<(Labels, u64)>)
    requires
        others.wf(),
    ensures
        point_views(out@) == paired(op, point_views(points@), others@),
{
    let ghost all = point_views(points@);
    let mut out: Vec<(Labels, u64)> = Vec::new();
    proof {
        assert(all.take(0) =~= seq![]);
        assert(point_views(out@) =~= paired(op, all.take(0), others@));
    }
    for point in it: points.into_iter()
        invariant
            it.seq() == points@,
            all == point_views(points@),
            others.wf(),
            point_views(out@) == paired(op, all.take(it.index()), others@),
    {
        let ghost i = it.index();
        let ghost before = out@;
        let (labels, v) = point;
        proof {
            assert(all.take(i + 1).drop_last() =~= all.take(i));
            assert(all.take(i + 1).last() == (labels@, v));
        }
        let key = canonical_key(&labels);
        match others.get(key.as_str()) {
            Some(other) => {
                let r = apply(op, v, *other);
                out.push((labels, r));
                proof {
                    assert(point_views(out@) =~= point_views(before).push((labels@, r)));
                }
            },
            None => {},
        }
    }
    proof {
        assert(all.take(points@.len() as int) =~= all);
    }
    out
}

/// What an operator makes of two values.
pub fn combine(op: BinOp, lhs: Value, rhs: Value) -> (r: Value)
    ensures
        r@ == combined(op, lhs@, rhs@),
{
    match (lhs, rhs) {
        (Value::Scalar(a), Value::Scalar(b)) => Value::Scalar(apply(op, a, b)),
        (Value::Vector(points), Value::Scalar(b)) => {
            let ghost all = point_views(points@);
            let out = with_scalar(op, points, b, false);
            proof {
                assert(point_views(out@) =~= all.map_values(
                    |p: (Seq<Entry>, u64)| (p.0, applied(op, p.1, b)),
                ));
            }
            Value::Vector(out)
        },
        (Value::Scalar(a), Value::Vector(points)) => {
            let ghost all = point_views(points@);
            let out = with_scalar(op, points, a, true);
            proof {
                assert(point_views(out@) =~= all.map_values(
                    |p: (Seq<Entry>, u64)| (p.0, applied(op, a, p.1)),
                ));
            }
            Value::Vector(out)
        },
        (Value::Vector(points), Value::Vector(others)) => {
            let index = index_points(&others);
            Value::Vector(pair(op, points, &index))
        },
    }
}

/// Evaluates an expression at an instant.
pub fn eval(store: &Store, expr: &Expr, t: i64) -> (r: Value)
    requires
        store.wf(),
    ensures
        r@ == evaluated(store@, expr@, t),
    decreases expr,
{
    match expr {
        Expr::Number(n) => Value::Scalar(*n),
        Expr::Selector(selector) => Value::Vector(eval_selector(store, selector, t)),
        Expr::Rate(selector, window) => Value::Vector(eval_rate(store, selector, *window, t)),
        Expr::Sum { expr, by } => {
            let points = eval(store, expr, t).into_vector();
            Value::Vector(sum_by(points, by))
        },
        Expr::Binary { op, lhs, rhs } => {
            let left = eval(store, lhs, t);
            let right = eval(store, rhs, t);
            combine(*op, left, right)
        },
    }
}

/// A matrix result: one label set, and the points that answered for it.
pub struct RangeSeries {
    pub labels: Labels,
    /// When, and the bits of the double that answered.
    pub values: Vec<(i64, u64)>,
}

#[verifier::ext_equal]
pub struct RangeView {
    pub labels: Seq<Entry>,
    pub values: Seq<(i64, u64)>,
}

impl View for RangeSeries {
    type V = RangeView;

    open spec fn view(&self) -> RangeView {
        RangeView { labels: self.labels@, values: self.values@ }
    }
}

/// Ranges with the points of one instant put behind those they had. What is
/// not finite is left out.
pub open spec fn with_points(
    ranges: Seq<(Seq<char>, RangeView)>,
    t: i64,
    points: Seq<(Seq<Entry>, u64)>,
) -> Seq<(Seq<char>, RangeView)>
    decreases points.len(),
{
    if points.len() == 0 {
        ranges
    } else {
        let before = with_points(ranges, t, points.drop_last());
        let (labels, v) = points.last();
        let key = store::key_of(labels);
        if !double::finite(v) {
            before
        } else {
            match keyed::found(before, key) {
                Some(range) => keyed::put(
                    before,
                    key,
                    RangeView { labels: range.labels, values: range.values.push((t, v)) },
                ),
                None => keyed::put(before, key, RangeView { labels, values: seq![(t, v)] }),
            }
        }
    }
}

/// Ranges with the points of every instant from `t` to `end`, `step` apart.
pub open spec fn ranges_from(
    v: StoreView,
    e: ExprView,
    t: int,
    end: i64,
    step: int,
    ranges: Seq<(Seq<char>, RangeView)>,
) -> Seq<(Seq<char>, RangeView)>
    decreases
            (if t <= end {
                end - t + 1
            } else {
                0
            }),
{
    if t > end || step <= 0 {
        ranges
    } else {
        ranges_from(
            v,
            e,
            t + step,
            end,
            step,
            with_points(ranges, t as i64, points_of(evaluated(v, e, t as i64))),
        )
    }
}

/// A step of at least a second.
pub open spec fn whole_step(step: i64) -> int {
    if step < 1 {
        1
    } else {
        step as int
    }
}

/// What an expression comes to over a range, one series for each label set,
/// in the order in which they first answer.
pub open spec fn ranged(v: StoreView, e: ExprView, start: i64, end: i64, step: i64) -> Seq<RangeView> {
    without_keys(ranges_from(v, e, start as int, end, whole_step(step), seq![]))
}

/// Ranges by key, as what they hold.
pub open spec fn range_views(entries: Seq<(Seq<char>, RangeSeries)>) -> Seq<(Seq<char>, RangeView)> {
    entries.map_values(|e: (Seq<char>, RangeSeries)| (e.0, e.1@))
}

/// Puts the points of one instant behind those that ranges have.
fn add_points(ranges: &mut Keyed<RangeSeries>, t: i64, points: Vec<(Labels, u64)>)
    requires
        old(ranges).wf(),
    ensures
        final(ranges).wf(),
        range_views(final(ranges)@) == with_points(
            range_views(old(ranges)@),
            t,
            point_views(points@),
        ),
{
    let ghost all = point_views(points@);
    let ghost first = range_views(ranges@);
    proof {
        assert(all.take(0) =~= seq![]);
    }
    for point in it: points.into_iter()
        invariant
            it.seq() == points@,
            all == point_views(points@),
            ranges.wf(),
            range_views(ranges@) == with_points(first, t, all.take(it.index())),
    {
        let ghost i = it.index();
        let (labels, v) = point;
        let ghost was = range_views(ranges@);
        let ghost view = labels@;
        proof {
            assert(all.take(i + 1).drop_last() =~= all.take(i));
            assert(all.take(i + 1).last() == (view, v));
        }
        if double::is_finite(v) {
            let key = canonical_key(&labels);
            proof {
                keyed::lemma_place_by_keys(ranges@, was, key@);
                keyed::lemma_place(was, key@);
            }
            match ranges.find(key.as_str()) {
                Some(at) => {
                    let range = ranges.at_mut(at);
                    let ghost had = range@;
                    range.values.push((t, v));
                    proof {
                        assert(range@ =~= RangeView {
                            labels: had.labels,
                            values: had.values.push((t, v)),
                        });
                        assert(range_views(ranges@) =~= with_points(first, t, all.take(i + 1)));
                    }
                },
                None => {
                    let ghost held = key@;
                    let mut values: Vec<(i64, u64)> = Vec::new();
                    values.push((t, v));
                    let range = RangeSeries { labels, values };
                    proof {
                        assert(range@ =~= RangeView { labels: view, values: seq![(t, v)] });
                    }
                    let ghost had = range@;
                    ranges.put(key, range);
                    proof {
                        assert(range_views(ranges@) =~= keyed::put(was, held, had));
                    }
                },
            }
        }
    }
    proof {
        assert(all.take(points@.len() as int) =~= all);
    }
}

/// Evaluates an expression over a range.
pub fn query_range(store: &Store, expr: &Expr, start: i64, end: i64, step: i64) -> (out: Vec<
    RangeSeries,
>)
    requires
        store.wf(),
    ensures
        out@.map_values(|r: RangeSeries| r@) == ranged(store@, expr@, start, end, step),
{
    let step: i64 = if step < 1 {
        1
    } else {
        step
    };
    let mut ranges: Keyed<RangeSeries> = Keyed::new();
    let ghost goal = ranges_from(store@, expr@, start as int, end, step as int, seq![]);
    proof {
        assert(range_views(ranges@) =~= seq![]);
    }
    let mut t: i128 = start as i128;
    while t <= end as i128
        invariant
            store.wf(),
            step >= 1,
            start <= t,
            t <= 0x1_0000_0000_0000_0000,
            ranges.wf(),
            goal == ranges_from(
                store@,
                expr@,
                t as int,
                end,
                step as int,
                range_views(ranges@),
            ),
        decreases
            (if t <= end {
                end - t + 1
            } else {
                0
            }),
    {
        let points = eval(store, expr, t as i64).into_vector();
        add_points(&mut ranges, t as i64, points);
        t = t + step as i128;
    }
    let entries = ranges.into_entries();
    let ghost result = range_views(keyed::keyed_of(entries@));
    let mut out: Vec<RangeSeries> = Vec::with_capacity(entries.len());
    let ghost view = |r: RangeSeries| r@;
    proof {
        assert(out@.map_values(view) =~= without_keys(result).take(0));
    }
    for entry in it: entries.into_iter()
        invariant
            it.seq() == entries@,
            result == range_views(keyed::keyed_of(entries@)),
            view == (|r: RangeSeries| r@),
            out@.map_values(view) == without_keys(result).take(it.index()),
    {
        let ghost i = it.index();
        let ghost before = out@;
        let (_, range) = entry;
        out.push(range);
        proof {
            assert(without_keys(result)[i] == range@);
            assert(out@.map_values(view) =~= before.map_values(view).push(range@));
            assert(without_keys(result).take(i + 1) =~= without_keys(result).take(i).push(
                without_keys(result)[i],
            ));
        }
    }
    proof {
        assert(without_keys(result).take(entries@.len() as int) =~= without_keys(result));
    }
    out
}

/// Whether samples are those of a counter: finite, and never below zero.
pub open spec fn counts(samples: Seq<Sample>) -> bool {
    forall|i: int|
        0 <= i < samples.len() ==> double::finite((#[trigger] samples[i]).v) && double::value(
            samples[i].v,
        ) >= 0
}

proof fn lemma_grown_is_not_negative(samples: Seq<Sample>)
    requires
        counts(samples),
    ensures
        grown(samples) <= double::INFINITY,
    decreases samples.len(),
{
    if samples.len() < 2 {
        double::law_small_integers_are_exact(0);
    } else {
        let init = samples.drop_last();
        let v = samples.last().v;
        let prev = samples[samples.len() - 2].v;
        assert(counts(init)) by {
            assert forall|i: int| 0 <= i < init.len() implies double::finite((#[trigger] init[i]).v)
                && double::value(init[i].v) >= 0 by {
                assert(init[i] == samples[i]);
            }
        }
        assert(samples[samples.len() - 1].v == v);
        lemma_grown_is_not_negative(init);
        if double::less(v, prev) {
            double::law_sum_of_nonnegative(grown(init), v);
        } else {
            double::law_difference_of_ordered(v, prev);
            double::law_sum_of_nonnegative(grown(init), double::difference(v, prev));
        }
    }
}

/// A counter that is reset does not read as a negative rate, nor as none.
pub proof fn law_rate_is_never_negative(samples: Seq<Sample>)
    requires
        counts(samples),
    ensures
        rate_over(samples) matches Some(r) ==> !double::negative(r) && !double::nan(r),
{
    if samples.len() >= 2 && samples.last().t > samples[0].t {
        lemma_grown_is_not_negative(samples);
        double::law_quotient_by_count(grown(samples), samples.last().t - samples[0].t);
    }
}

/// No rate over counters is negative, whatever resets there were.
pub proof fn law_rates_are_never_negative(all: Seq<SeriesView>, t: i64, window: i64)
    requires
        forall|i: int| 0 <= i < all.len() ==> counts(series::all_samples(#[trigger] all[i])),
    ensures
        forall|i: int|
            0 <= i < rate_points(all, t, window).len() ==> !double::negative(
                (#[trigger] rate_points(all, t, window)[i]).1,
            ) && !double::nan(rate_points(all, t, window)[i].1),
    decreases all.len(),
{
    if all.len() > 0 {
        let init = all.drop_last();
        let before = rate_points(init, t, window);
        let out = rate_points(all, t, window);
        assert forall|i: int| 0 <= i < init.len() implies counts(
            series::all_samples(#[trigger] init[i]),
        ) by {
            assert(init[i] == all[i]);
        }
        law_rates_are_never_negative(init, t, window);
        let samples = series::all_samples(all.last());
        assert(counts(series::all_samples(all[all.len() - 1])));
        let some = series::within(samples, t, window);
        let pred = |s: Sample| t - window < s.t <= t;
        assert forall|i: int| 0 <= i < some.len() implies double::finite((#[trigger] some[i]).v)
            && double::value(some[i].v) >= 0 by {
            samples.lemma_filter_contains_rev(pred, some[i]);
            let k = choose|k: int| 0 <= k < samples.len() && samples[k] == some[i];
            assert(double::finite(samples[k].v));
        }
        law_rate_is_never_negative(some);
        assert forall|i: int| 0 <= i < out.len() implies !double::negative((#[trigger] out[i]).1)
            && !double::nan(out[i].1) by {
            if i < before.len() {
                assert(out[i] == before[i]);
            }
        }
    }
}

/// A sum without a `by` clause folds everything into one series without
/// labels.
pub proof fn law_sum_folds_into_one(points: Seq<(Seq<Entry>, u64)>)
    requires
        points.len() > 0,
    ensures
        groups(points, None).len() == 1,
        groups(points, None)[0].1.0 == Seq::<Entry>::empty(),
    decreases points.len(),
{
    let init = points.drop_last();
    let before = groups(init, None);
    let none = Seq::<Entry>::empty();
    let key = store::key_of(none);
    if init.len() == 0 {
        assert(before =~= seq![]);
    } else {
        law_sum_folds_into_one(init);
        lemma_only_key(init);
    }
    keyed::lemma_place(before, key);
}

proof fn lemma_only_key(points: Seq<(Seq<Entry>, u64)>)
    requires
        points.len() > 0,
    ensures
        groups(points, None).len() == 1,
        groups(points, None)[0].0 == store::key_of(Seq::<Entry>::empty()),
    decreases points.len(),
{
    let init = points.drop_last();
    let before = groups(init, None);
    let key = store::key_of(Seq::<Entry>::empty());
    if init.len() == 0 {
        assert(before =~= seq![]);
    } else {
        lemma_only_key(init);
    }
    keyed::lemma_place(before, key);
}

/// Labels that nothing carries fold everything into one series, as no `by`
/// clause at all does.
pub proof fn law_absent_labels_fold_into_one(
    points: Seq<(Seq<Entry>, u64)>,
    names: Seq<Seq<char>>,
)
    requires
        forall|i: int, j: int|
            0 <= i < points.len() && 0 <= j < names.len() ==> textmap::lookup(
                (#[trigger] points[i]).0,
                #[trigger] names[j],
            ) is None,
    ensures
        groups(points, Some(names)) == groups(points, None),
    decreases points.len(),
{
    if points.len() > 0 {
        let init = points.drop_last();
        assert forall|i: int, j: int|
            0 <= i < init.len() && 0 <= j < names.len() implies textmap::lookup(
            (#[trigger] init[i]).0,
            #[trigger] names[j],
        ) is None by {
            assert(init[i] == points[i]);
        }
        law_absent_labels_fold_into_one(init, names);
        assert(points[points.len() - 1] == points.last());
        lemma_nothing_kept(points.last().0, names);
    }
}

proof fn lemma_nothing_kept(labels: Seq<Entry>, names: Seq<Seq<char>>)
    requires
        forall|j: int| 0 <= j < names.len() ==> textmap::lookup(labels, #[trigger] names[j]) is None,
    ensures
        kept(labels, names) == Seq::<Entry>::empty(),
    decreases names.len(),
{
    if names.len() > 0 {
        let init = names.drop_last();
        assert forall|j: int| 0 <= j < init.len() implies textmap::lookup(
            labels,
            #[trigger] init[j],
        ) is None by {
            assert(init[j] == names[j]);
        }
        lemma_nothing_kept(labels, init);
        assert(names[names.len() - 1] == names.last());
    }
}

/// A series whose samples are all staler than the lookback has no point.
pub proof fn law_stale_series_have_no_point(all: Seq<SeriesView>, t: i64)
    requires
        forall|i: int|
            0 <= i < all.len() ==> series::stale(
                series::all_samples(#[trigger] all[i]),
                t,
                LOOKBACK,
            ),
    ensures
        instant_points(all, t).len() == 0,
    decreases all.len(),
{
    if all.len() > 0 {
        let init = all.drop_last();
        assert forall|i: int| 0 <= i < init.len() implies series::stale(
            series::all_samples(#[trigger] init[i]),
            t,
            LOOKBACK,
        ) by {
            assert(init[i] == all[i]);
        }
        law_stale_series_have_no_point(init, t);
        assert(series::stale(series::all_samples(all[all.len() - 1]), t, LOOKBACK));
        series::law_stale_samples_do_not_answer(series::all_samples(all.last()), t, LOOKBACK);
    }
}

/// Whether every point has plain labels.
pub open spec fn plain_points(points: Seq<(Seq<Entry>, u64)>) -> bool {
    forall|i: int| 0 <= i < points.len() ==> store::plain_labels((#[trigger] points[i]).0)
}

/// Whether all series have plain labels.
spec fn plain_series(all: Seq<SeriesView>) -> bool {
    forall|i: int| 0 <= i < all.len() ==> store::plain_labels((#[trigger] all[i]).labels)
}

proof fn lemma_selected_plain(v: StoreView, selector: SelectorView)
    requires
        store::plain_store(v),
    ensures
        plain_series(selected(v, selector)),
{
    let all = store::candidates_of(v, selector.name);
    let pred = |s: SeriesView| all_take(selector.matchers, s.labels);
    let out = selected(v, selector);
    assert forall|i: int| 0 <= i < out.len() implies store::plain_labels(
        (#[trigger] out[i]).labels,
    ) by {
        all.lemma_filter_contains_rev(pred, out[i]);
        let at = choose|at: int| 0 <= at < all.len() && all[at] == out[i];
        match selector.name {
            Some(name) => {
                store::lemma_under_stood(v.series, store::keys_under(v.names, name), out[i]);
                let k = choose|k: int| 0 <= k < v.series.len() && (#[trigger] v.series[k]).1 == out[i];
                assert(store::plain_labels(v.series[k].1.labels));
            },
            None => {
                assert(store::plain_labels(v.series[at].1.labels));
            },
        }
    }
}

proof fn lemma_unnamed_plain(labels: Seq<Entry>)
    requires
        store::plain_labels(labels),
    ensures
        store::plain_labels(unnamed(labels)),
{
    let pred = |e: Entry| e.0 != NAME_LABEL@;
    let out = unnamed(labels);
    assert forall|i: int| 0 <= i < out.len() implies store::plain_text((#[trigger] out[i]).0)
        && store::plain_text(out[i].1) by {
        labels.lemma_filter_contains_rev(pred, out[i]);
    }
}

proof fn lemma_instant_plain(all: Seq<SeriesView>, t: i64)
    requires
        plain_series(all),
    ensures
        plain_points(instant_points(all, t)),
    decreases all.len(),
{
    if all.len() > 0 {
        assert(plain_series(all.drop_last()));
        lemma_instant_plain(all.drop_last(), t);
        lemma_unnamed_plain(all.last().labels);
    }
}

proof fn lemma_rates_plain(all: Seq<SeriesView>, t: i64, window: i64)
    requires
        plain_series(all),
    ensures
        plain_points(rate_points(all, t, window)),
    decreases all.len(),
{
    if all.len() > 0 {
        assert(plain_series(all.drop_last()));
        lemma_rates_plain(all.drop_last(), t, window);
        lemma_unnamed_plain(all.last().labels);
    }
}

proof fn lemma_lookup_plain(labels: Seq<Entry>, k: Seq<char>)
    requires
        store::plain_labels(labels),
    ensures
        textmap::lookup(labels, k) matches Some(v) ==> store::plain_text(k) && store::plain_text(v),
    decreases labels.len(),
{
    if labels.len() > 0 {
        assert(store::plain_text(labels[0].0));
        let rest = labels.drop_first();
        assert forall|i: int| 0 <= i < rest.len() implies store::plain_text((#[trigger] rest[i]).0)
            && store::plain_text(rest[i].1) by {
            assert(rest[i] == labels[i + 1]);
        }
        lemma_lookup_plain(rest, k);
    }
}

proof fn lemma_entry_plain(labels: Seq<Entry>, k: Seq<char>, v: Seq<char>)
    requires
        store::plain_labels(labels),
        store::plain_text(k),
        store::plain_text(v),
    ensures
        store::plain_labels(textmap::with_entry(labels, k, v)),
    decreases labels.len(),
{
    let out = textmap::with_entry(labels, k, v);
    if labels.len() > 0 {
        let rest = labels.drop_first();
        assert forall|i: int| 0 <= i < rest.len() implies store::plain_text((#[trigger] rest[i]).0)
            && store::plain_text(rest[i].1) by {
            assert(rest[i] == labels[i + 1]);
        }
        lemma_entry_plain(rest, k, v);
        assert(store::plain_text(labels[0].0));
    }
    assert forall|i: int| 0 <= i < out.len() implies store::plain_text((#[trigger] out[i]).0)
        && store::plain_text(out[i].1) by {
        if labels.len() == 0 || text::before(k, labels[0].0) {
            if i > 0 {
                assert(out[i] == labels[i - 1]);
            }
        } else if labels[0].0 == k {
            if i > 0 {
                assert(out[i] == labels[i]);
            }
        } else if i > 0 {
            assert(out[i] == textmap::with_entry(labels.drop_first(), k, v)[i - 1]);
        }
    }
}

pub(crate) proof fn lemma_kept_plain(labels: Seq<Entry>, names: Seq<Seq<char>>)
    requires
        store::plain_labels(labels),
    ensures
        store::plain_labels(kept(labels, names)),
    decreases names.len(),
{
    if names.len() > 0 {
        lemma_kept_plain(labels, names.drop_last());
        lemma_lookup_plain(labels, names.last());
        if let Some(v) = textmap::lookup(labels, names.last()) {
            lemma_entry_plain(kept(labels, names.drop_last()), names.last(), v);
        }
    }
}

proof fn lemma_groups_plain(points: Seq<(Seq<Entry>, u64)>, by: Option<Seq<Seq<char>>>)
    requires
        plain_points(points),
    ensures
        plain_points(without_keys(groups(points, by))),
    decreases points.len(),
{
    let out = without_keys(groups(points, by));
    if points.len() > 0 {
        assert(plain_points(points.drop_last()));
        lemma_groups_plain(points.drop_last(), by);
        let before = groups(points.drop_last(), by);
        let (labels, v) = points.last();
        let group = group_of(labels, by);
        let key = store::key_of(group);
        assert(store::plain_labels(labels));
        if let Some(names) = by {
            lemma_kept_plain(labels, names);
        }
        keyed::lemma_place(before, key);
        let at = keyed::place(before, key) as int;
        assert forall|i: int| 0 <= i < out.len() implies store::plain_labels(
            (#[trigger] out[i]).0,
        ) by {
            if i < before.len() {
                assert(store::plain_labels(without_keys(before)[i].0));
            }
        }
    }
}

proof fn lemma_paired_plain(
    op: BinOp,
    points: Seq<(Seq<Entry>, u64)>,
    others: Seq<(Seq<char>, u64)>,
)
    requires
        plain_points(points),
    ensures
        plain_points(paired(op, points, others)),
    decreases points.len(),
{
    if points.len() > 0 {
        assert(plain_points(points.drop_last()));
        lemma_paired_plain(op, points.drop_last(), others);
        assert(store::plain_labels(points.last().0));
    }
}

/// Over a store with plain labels an expression answers with plain labels.
pub proof fn law_answers_are_plain(v: StoreView, e: ExprView, t: i64)
    requires
        store::plain_store(v),
    ensures
        plain_points(points_of(evaluated(v, e, t))),
    decreases e,
{
    match e {
        ExprView::Number(_) => {},
        ExprView::Selector(selector) => {
            lemma_selected_plain(v, selector);
            lemma_instant_plain(selected(v, selector), t);
        },
        ExprView::Rate(selector, window) => {
            lemma_selected_plain(v, selector);
            lemma_rates_plain(selected(v, selector), t, window);
        },
        ExprView::Sum(inner, by) => {
            law_answers_are_plain(v, *inner, t);
            lemma_groups_plain(points_of(evaluated(v, *inner, t)), by);
        },
        ExprView::Binary(op, lhs, rhs) => {
            law_answers_are_plain(v, *lhs, t);
            law_answers_are_plain(v, *rhs, t);
            let a = points_of(evaluated(v, *lhs, t));
            let b = points_of(evaluated(v, *rhs, t));
            let out = points_of(evaluated(v, e, t));
            match (evaluated(v, *lhs, t), evaluated(v, *rhs, t)) {
                (ValueView::Vector(_), ValueView::Vector(_)) => {
                    lemma_paired_plain(op, a, by_key(b));
                },
                (ValueView::Vector(_), ValueView::Scalar(_)) => {
                    assert forall|i: int| 0 <= i < out.len() implies store::plain_labels(
                        (#[trigger] out[i]).0,
                    ) by {
                        assert(store::plain_labels(a[i].0));
                    }
                },
                (ValueView::Scalar(_), ValueView::Vector(_)) => {
                    assert forall|i: int| 0 <= i < out.len() implies store::plain_labels(
                        (#[trigger] out[i]).0,
                    ) by {
                        assert(store::plain_labels(b[i].0));
                    }
                },
                (ValueView::Scalar(_), ValueView::Scalar(_)) => {},
            }
        },
    }
}

/// Whether an expression answers for labels at `t`, with a finite number.
pub open spec fn answers(v: StoreView, e: ExprView, t: i64, labels: Seq<Entry>, x: u64) -> bool {
    points_of(evaluated(v, e, t)).contains((labels, x)) && double::finite(x)
}

/// Whether `t` is one of the instants from `start` to `end`, `step` apart.
pub open spec fn asked(t: i64, start: int, end: i64, step: int) -> bool {
    start <= t <= end && (t - start) % step == 0
}

/// Whether a range shows a number for labels at `t`.
pub open spec fn shows(r: RangeView, t: i64, labels: Seq<Entry>, x: u64) -> bool {
    r.labels == labels && r.values.contains((t, x))
}

/// Whether one of the ranges shows a number for labels at `t`.
pub open spec fn shown(ranges: Seq<RangeView>, t: i64, labels: Seq<Entry>, x: u64) -> bool {
    exists|i: int| 0 <= i < ranges.len() && shows(#[trigger] ranges[i], t, labels, x)
}

/// Whether a range has points, in the order of their instants.
pub open spec fn in_time(r: RangeView) -> bool {
    &&& r.values.len() > 0
    &&& forall|i: int, j: int|
        0 <= i < j < r.values.len() ==> (#[trigger] r.values[i]).0 <= (#[trigger] r.values[j]).0
}

/// Whether ranges stand under the keys of their labels, their points in
/// order and none behind `t`.
spec fn filed(ranges: Seq<(Seq<char>, RangeView)>, t: int) -> bool {
    &&& keyed::distinct(ranges)
    &&& forall|i: int|
        0 <= i < ranges.len() ==> {
            &&& (#[trigger] ranges[i]).0 == store::key_of(ranges[i].1.labels)
            &&& store::plain_labels(ranges[i].1.labels)
            &&& in_time(ranges[i].1)
            &&& forall|j: int|
                0 <= j < ranges[i].1.values.len() ==> (#[trigger] ranges[i].1.values[j]).0 <= t
        }
}

/// Whether one of the ranges under keys shows a number for labels at `t`.
spec fn filed_shows(
    ranges: Seq<(Seq<char>, RangeView)>,
    t: i64,
    labels: Seq<Entry>,
    x: u64,
) -> bool {
    exists|i: int| 0 <= i < ranges.len() && shows((#[trigger] ranges[i]).1, t, labels, x)
}

proof fn lemma_one_point(ranges: Seq<(Seq<char>, RangeView)>, t: i64, labels: Seq<Entry>, v: u64)
    requires
        filed(ranges, t as int),
        store::plain_labels(labels),
        double::finite(v),
    ensures
        ({
            let out = with_points(ranges, t, seq![(labels, v)]);
            &&& filed(out, t as int)
            &&& forall|u: i64, l: Seq<Entry>, x: u64| #[trigger]
                filed_shows(out, u, l, x) <==> filed_shows(ranges, u, l, x) || (u == t && l == labels
                    && x == v)
        }),
{
    let points = seq![(labels, v)];
    let out = with_points(ranges, t, points);
    let key = store::key_of(labels);
    assert(points.drop_last() =~= seq![]);
    assert(with_points(ranges, t, points.drop_last()) == ranges);
    keyed::lemma_place(ranges, key);
    let at = keyed::place(ranges, key) as int;
    if keyed::holds(ranges, key) {
        let old = ranges[at].1;
        store::law_plain_labels_have_their_own_key(old.labels, labels);
        let new = RangeView { labels: old.labels, values: old.values.push((t, v)) };
        keyed::lemma_put_distinct(ranges, key, new);
        assert(out == ranges.update(at, (key, new)));
        assert forall|u: i64, l: Seq<Entry>, x: u64| #[trigger]
            filed_shows(out, u, l, x) <==> filed_shows(ranges, u, l, x) || (u == t && l == labels && x
            == v) by {
            if filed_shows(ranges, u, l, x) {
                let i = choose|i: int|
                    0 <= i < ranges.len() && shows((#[trigger] ranges[i]).1, u, l, x);
                if i == at {
                    let j = choose|j: int| 0 <= j < old.values.len() && old.values[j] == (u, x);
                    assert(new.values[j] == (u, x));
                }
                assert(shows(out[i].1, u, l, x));
            }
            if u == t && l == labels && x == v {
                assert(new.values[old.values.len() as int] == (u, x));
                assert(shows(out[at].1, u, l, x));
            }
            if filed_shows(out, u, l, x) {
                let i = choose|i: int| 0 <= i < out.len() && shows((#[trigger] out[i]).1, u, l, x);
                if i == at {
                    let j = choose|j: int| 0 <= j < new.values.len() && new.values[j] == (u, x);
                    if j < old.values.len() {
                        assert(old.values[j] == (u, x));
                        assert(shows(ranges[i].1, u, l, x));
                    }
                } else {
                    assert(shows(ranges[i].1, u, l, x));
                }
            }
        }
    } else {
        let new = RangeView { labels, values: seq![(t, v)] };
        keyed::lemma_put_distinct(ranges, key, new);
        assert(out == ranges.push((key, new)));
        assert forall|u: i64, l: Seq<Entry>, x: u64| #[trigger]
            filed_shows(out, u, l, x) <==> filed_shows(ranges, u, l, x) || (u == t && l == labels && x
            == v) by {
            if filed_shows(ranges, u, l, x) {
                let i = choose|i: int|
                    0 <= i < ranges.len() && shows((#[trigger] ranges[i]).1, u, l, x);
                assert(shows(out[i].1, u, l, x));
            }
            if u == t && l == labels && x == v {
                assert(new.values[0] == (u, x));
                assert(shows(out[ranges.len() as int].1, u, l, x));
            }
            if filed_shows(out, u, l, x) {
                let i = choose|i: int| 0 <= i < out.len() && shows((#[trigger] out[i]).1, u, l, x);
                if i < ranges.len() {
                    assert(shows(ranges[i].1, u, l, x));
                }
            }
        }
    }
}

/// The points of one instant are put in one by one.
proof fn lemma_points_by_one(
    ranges: Seq<(Seq<char>, RangeView)>,
    t: i64,
    points: Seq<(Seq<Entry>, u64)>,
)
    requires
        points.len() > 0,
    ensures
        with_points(ranges, t, points) == with_points(
            with_points(ranges, t, points.drop_last()),
            t,
            seq![points.last()],
        ),
{
    let one = seq![points.last()];
    assert(one.drop_last() =~= seq![]);
    assert(one.last() == points.last());
    let before = with_points(ranges, t, points.drop_last());
    assert(with_points(before, t, one.drop_last()) == before);
}

proof fn lemma_one_instant(
    ranges: Seq<(Seq<char>, RangeView)>,
    t: i64,
    points: Seq<(Seq<Entry>, u64)>,
)
    requires
        filed(ranges, t as int),
        plain_points(points),
    ensures
        filed(with_points(ranges, t, points), t as int),
        forall|u: i64, l: Seq<Entry>, x: u64| #[trigger]
            filed_shows(with_points(ranges, t, points), u, l, x) <==> filed_shows(ranges, u, l, x) || (
            u == t && points.contains((l, x)) && double::finite(x)),
    decreases points.len(),
{
    if points.len() > 0 {
        let fewer = points.drop_last();
        let before = with_points(ranges, t, fewer);
        let out = with_points(ranges, t, points);
        let (labels, v) = points.last();
        assert(plain_points(fewer));
        lemma_one_instant(ranges, t, fewer);
        assert(store::plain_labels(labels));
        if double::finite(v) {
            lemma_points_by_one(ranges, t, points);
            lemma_one_point(before, t, labels, v);
        }
        assert forall|u: i64, l: Seq<Entry>, x: u64| #[trigger]
            filed_shows(out, u, l, x) <==> filed_shows(ranges, u, l, x) || (u == t
            && points.contains((l, x)) && double::finite(x)) by {
            assert(filed_shows(before, u, l, x) <==> filed_shows(ranges, u, l, x) || (u == t
                && fewer.contains((l, x)) && double::finite(x)));
            assert(points =~= fewer.push((labels, v)));
            if fewer.contains((l, x)) {
                let j = choose|j: int| 0 <= j < fewer.len() && fewer[j] == (l, x);
                assert(points[j] == (l, x));
            }
            if (l, x) == (labels, v) {
                assert(points[fewer.len() as int] == (l, x));
            }
            if points.contains((l, x)) && (l, x) != (labels, v) {
                let j = choose|j: int| 0 <= j < points.len() && points[j] == (l, x);
                assert(fewer[j] == (l, x));
            }
        }
    }
}

/// The first of the instants, and those from the second on.
proof fn lemma_asked_from(u: i64, t: int, end: i64, step: int)
    requires
        step > 0,
        t <= end,
    ensures
        asked(u, t, end, step) <==> u == t || asked(u, t + step, end, step),
{
    if u == t {
        assert((u - t) % step == 0) by (nonlinear_arith)
            requires
                u - t == 0,
                step > 0,
        ;
    } else if t < u < t + step {
        vstd::arithmetic::div_mod::lemma_small_mod((u - t) as nat, step as nat);
    } else {
        vstd::arithmetic::div_mod::lemma_mod_sub_multiples_vanish(u - t, step);
    }
}

proof fn lemma_all_instants(
    v: StoreView,
    e: ExprView,
    t: int,
    end: i64,
    step: int,
    ranges: Seq<(Seq<char>, RangeView)>,
)
    requires
        store::plain_store(v),
        i64::MIN <= t,
        step > 0,
        filed(ranges, t),
    ensures
        ({
            let out = ranges_from(v, e, t, end, step, ranges);
            &&& exists|last: int| filed(out, last)
            &&& forall|u: i64, l: Seq<Entry>, x: u64| #[trigger]
                filed_shows(out, u, l, x) <==> filed_shows(ranges, u, l, x) || (asked(u, t, end, step)
                    && answers(v, e, u, l, x))
        }),
    decreases
            (if t <= end {
                end - t + 1
            } else {
                0
            }),
{
    let out = ranges_from(v, e, t, end, step, ranges);
    if t > end {
        assert(filed(out, t));
    } else {
        let now = t as i64;
        let points = points_of(evaluated(v, e, now));
        let next = with_points(ranges, now, points);
        law_answers_are_plain(v, e, now);
        lemma_one_instant(ranges, now, points);
        assert(filed(next, t + step));
        lemma_all_instants(v, e, t + step, end, step, next);
        assert(out == ranges_from(v, e, t + step, end, step, next));
        assert forall|u: i64, l: Seq<Entry>, x: u64| #[trigger]
            filed_shows(out, u, l, x) <==> filed_shows(ranges, u, l, x) || (asked(u, t, end, step)
            && answers(v, e, u, l, x)) by {
            assert(filed_shows(next, u, l, x) <==> filed_shows(ranges, u, l, x) || (u == now
                && points.contains((l, x)) && double::finite(x)));
            lemma_asked_from(u, t, end, step);
        }
    }
}

/// Over a store with plain labels, a range query shows a number for labels
/// at an instant if and only if the instant is asked for and the expression
/// then answers so with a finite number. Each label set has one range, which
/// is not empty and runs in the order of time.
pub proof fn law_range_shows_every_answer(
    v: StoreView,
    e: ExprView,
    start: i64,
    end: i64,
    step: i64,
)
    requires
        store::plain_store(v),
    ensures
        ({
            let out = ranged(v, e, start, end, step);
            &&& forall|t: i64, l: Seq<Entry>, x: u64| #[trigger]
                shown(out, t, l, x) <==> asked(t, start as int, end, whole_step(step)) && answers(
                    v,
                    e,
                    t,
                    l,
                    x,
                )
            &&& forall|i: int, j: int|
                0 <= i < j < out.len() ==> (#[trigger] out[i]).labels != (#[trigger] out[j]).labels
            &&& forall|i: int| 0 <= i < out.len() ==> in_time(#[trigger] out[i])
        }),
{
    let none = Seq::<(Seq<char>, RangeView)>::empty();
    lemma_all_instants(v, e, start as int, end, whole_step(step), none);
    let ranges = ranges_from(v, e, start as int, end, whole_step(step), none);
    let out = ranged(v, e, start, end, step);
    let last = choose|last: int| filed(ranges, last);
    assert forall|t: i64, l: Seq<Entry>, x: u64| #[trigger]
        shown(out, t, l, x) <==> asked(t, start as int, end, whole_step(step)) && answers(
        v,
        e,
        t,
        l,
        x,
    ) by {
        assert(filed_shows(ranges, t, l, x) <==> filed_shows(none, t, l, x) || (asked(
            t,
            start as int,
            end,
            whole_step(step),
        ) && answers(v, e, t, l, x)));
        if filed_shows(ranges, t, l, x) {
            let i = choose|i: int| 0 <= i < ranges.len() && shows((#[trigger] ranges[i]).1, t, l, x);
            assert(shows(out[i], t, l, x));
        }
        if shown(out, t, l, x) {
            let i = choose|i: int| 0 <= i < out.len() && shows(#[trigger] out[i], t, l, x);
            assert(shows(ranges[i].1, t, l, x));
        }
    }
    assert forall|i: int, j: int| 0 <= i < j < out.len() implies (#[trigger] out[i]).labels != (
    #[trigger] out[j]).labels by {
        assert(ranges[i].0 != ranges[j].0);
    }
    assert forall|i: int| 0 <= i < out.len() implies in_time(#[trigger] out[i]) by {
        assert(in_time(ranges[i].1));
    }
}

proof fn lemma_no_instants(
    v: StoreView,
    e: ExprView,
    t: int,
    end: i64,
    step: int,
    ranges: Seq<(Seq<char>, RangeView)>,
)
    requires
        i64::MIN <= t,
        forall|u: i64| t <= u <= end ==> #[trigger] evaluated(v, e, u) is Scalar,
    ensures
        ranges_from(v, e, t, end, step, ranges) == ranges,
    decreases
            (if t <= end {
                end - t + 1
            } else {
                0
            }),
{
    if t <= end && step > 0 {
        assert(evaluated(v, e, t as i64) is Scalar);
        lemma_no_instants(v, e, t + step, end, step, ranges);
    }
}

/// A range query shows nothing where it starts after its end, or where the
/// expression comes to a number without labels. A step of less than a second
/// is one second.
pub proof fn law_range_of_nothing(v: StoreView, e: ExprView, start: i64, end: i64, step: i64)
    ensures
        (start > end || forall|t: i64| start <= t <= end ==> #[trigger] evaluated(v, e, t) is Scalar)
            ==> ranged(v, e, start, end, step) == Seq::<RangeView>::empty(),
        step < 1 ==> ranged(v, e, start, end, step) == ranged(v, e, start, end, 1),
{
    let none = Seq::<(Seq<char>, RangeView)>::empty();
    if start > end || forall|t: i64|
        start <= t <= end ==> #[trigger] evaluated(v, e, t) is Scalar {
        lemma_no_instants(v, e, start as int, end, whole_step(step), none);
        assert(ranged(v, e, start, end, step) =~= Seq::<RangeView>::empty());
    }
}

} // verus!
