//! What the parts of a query mean: which points arithmetic pairs, what a
//! sum adds up, how fast a counter grew, and which series a selector takes.

use super::eval::{
    all_take, answers, applied, asked, by_key, combined, evaluated, group_of, grown, groups, in_time, instant_points,
    kept, label_value, law_answers_are_plain, law_range_shows_every_answer, paired, plain_points, points_of, ranged,
    rate_over, rate_points, selected, shown, shows, unnamed, whole_step, without_keys, RangeView, ValueView,
    LOOKBACK,
};
use super::{BinOp, ExprView, MatchOp, MatcherView, SelectorView};
use crate::chunk;
use crate::double;
use crate::keyed;
use crate::listing;
use crate::series;
use crate::store;
use crate::store::{Sample, SeriesView, StoreView};
use crate::textmap;
use crate::textmap::Entry;
use vstd::prelude::*;

verus! {

/// A point: what it is called, and the bits of the double that it holds.
pub type Point = (Seq<Entry>, u64);

/// Whether no label set stands twice among points.
pub open spec fn labels_once(points: Seq<Point>) -> bool {
    forall|i: int, j: int|
        0 <= i < j < points.len() ==> (#[trigger] points[i]).0 != (#[trigger] points[j]).0
}

/// Whether `r` is what an operator makes of `x` on its left and `y` on its
/// right.
pub open spec fn comes_to(op: BinOp, x: u64, y: u64, r: u64) -> bool {
    &&& op == BinOp::Add ==> r == double::sum(x, y)
    &&& op == BinOp::Sub ==> r == double::difference(x, y)
    &&& op == BinOp::Mul ==> r == double::product(x, y)
    &&& op == BinOp::Div ==> r == double::quotient(x, y)
}

proof fn lemma_by_key(points: Seq<Point>)
    requires
        plain_points(points),
        labels_once(points),
    ensures
        keyed::distinct(by_key(points)),
        forall|l: Seq<Entry>, y: u64|
            store::plain_labels(l) ==> (#[trigger] points.contains((l, y)) <==> keyed::found(
                by_key(points),
                store::key_of(l),
            ) == Some(y)),
    decreases points.len(),
{
    if points.len() == 0 {
        assert forall|l: Seq<Entry>, y: u64| store::plain_labels(l) implies (
        #[trigger] points.contains((l, y)) <==> keyed::found(by_key(points), store::key_of(l)) == Some(
            y,
        )) by {
            assert(!points.contains((l, y)));
        }
    } else {
        let init = points.drop_last();
        let (name, v) = points.last();
        let before = by_key(init);
        let key = store::key_of(name);
        assert(plain_points(init));
        assert(labels_once(init));
        assert(store::plain_labels(points[points.len() - 1].0));
        lemma_by_key(init);
        keyed::lemma_put_distinct(before, key, v);
        assert forall|l: Seq<Entry>, y: u64| store::plain_labels(l) implies (
        #[trigger] points.contains((l, y)) <==> keyed::found(by_key(points), store::key_of(l)) == Some(
            y,
        )) by {
            keyed::law_put_is_found(before, key, v, store::key_of(l));
            assert(points =~= init.push((name, v)));
            if l == name {
                if points.contains((l, y)) {
                    let i = choose|i: int| 0 <= i < points.len() && points[i] == (l, y);
                    if i < init.len() {
                        assert(points[i].0 != points[points.len() - 1].0);
                    }
                }
                assert(points[points.len() - 1] == (name, v));
            } else {
                if store::key_of(l) == key {
                    store::law_plain_labels_have_their_own_key(l, name);
                }
                assert(init.contains((l, y)) <==> points.contains((l, y))) by {
                    if init.contains((l, y)) {
                        let i = choose|i: int| 0 <= i < init.len() && init[i] == (l, y);
                        assert(points[i] == (l, y));
                    }
                    if points.contains((l, y)) {
                        let i = choose|i: int| 0 <= i < points.len() && points[i] == (l, y);
                        assert(init[i] == (l, y));
                    }
                }
            }
        }
    }
}

proof fn lemma_paired(op: BinOp, points: Seq<Point>, others: Seq<(Seq<char>, u64)>)
    ensures
        forall|l: Seq<Entry>, r: u64|
            (#[trigger] paired(op, points, others).contains((l, r))) <==> exists|x: u64, y: u64|
                #[trigger] points.contains((l, x)) && keyed::found(others, store::key_of(l)) == Some(y)
                    && #[trigger] comes_to(op, x, y, r),
        labels_once(points) ==> labels_once(paired(op, points, others)),
        forall|i: int|
            0 <= i < paired(op, points, others).len() ==> exists|j: int|
                0 <= j < points.len() && (#[trigger] points[j]).0 == (#[trigger] paired(
                    op,
                    points,
                    others,
                )[i]).0,
    decreases points.len(),
{
    let out = paired(op, points, others);
    if points.len() > 0 {
        let init = points.drop_last();
        let (name, v) = points.last();
        let before = paired(op, init, others);
        lemma_paired(op, init, others);
        assert(points =~= init.push((name, v)));
        assert forall|l: Seq<Entry>, r: u64|
            (#[trigger] out.contains((l, r))) <==> exists|x: u64, y: u64|
                #[trigger] points.contains((l, x)) && keyed::found(others, store::key_of(l)) == Some(y)
                    && #[trigger] comes_to(op, x, y, r) by {
            if out.contains((l, r)) {
                let i = choose|i: int| 0 <= i < out.len() && out[i] == (l, r);
                if i < before.len() {
                    assert(before[i] == (l, r));
                    assert(before.contains((l, r)));
                    let (x, y) = choose|x: u64, y: u64|
                        #[trigger] init.contains((l, x)) && keyed::found(others, store::key_of(l))
                            == Some(y) && #[trigger] comes_to(op, x, y, r);
                    let j = choose|j: int| 0 <= j < init.len() && init[j] == (l, x);
                    assert(points[j] == (l, x));
                    assert(points.contains((l, x)) && comes_to(op, x, y, r));
                } else {
                    let y = keyed::found(others, store::key_of(name))->0;
                    assert(points[points.len() - 1] == (l, v));
                    assert(points.contains((l, v)) && comes_to(op, v, y, r));
                }
            }
            if exists|x: u64, y: u64|
                #[trigger] points.contains((l, x)) && keyed::found(others, store::key_of(l)) == Some(y)
                    && #[trigger] comes_to(op, x, y, r) {
                let (x, y) = choose|x: u64, y: u64|
                    #[trigger] points.contains((l, x)) && keyed::found(others, store::key_of(l)) == Some(
                        y,
                    ) && #[trigger] comes_to(op, x, y, r);
                let j = choose|j: int| 0 <= j < points.len() && points[j] == (l, x);
                if j < init.len() {
                    assert(init[j] == (l, x));
                    assert(init.contains((l, x)) && comes_to(op, x, y, r));
                    assert(before.contains((l, r)));
                    let i = choose|i: int| 0 <= i < before.len() && before[i] == (l, r);
                    assert(out[i] == (l, r));
                } else {
                    assert(out[out.len() - 1] == (l, r));
                }
            }
        }
        assert forall|i: int| 0 <= i < out.len() implies exists|j: int|
            0 <= j < points.len() && (#[trigger] points[j]).0 == (#[trigger] out[i]).0 by {
            if i < before.len() {
                assert(out[i] == before[i]);
                let j = choose|j: int| 0 <= j < init.len() && (#[trigger] init[j]).0 == before[i].0;
                assert(points[j].0 == out[i].0);
            } else {
                assert(points[points.len() - 1].0 == out[i].0);
            }
        }
        if labels_once(points) {
            assert(labels_once(init));
            assert forall|i: int, j: int| 0 <= i < j < out.len() implies (#[trigger] out[i]).0 != (
            #[trigger] out[j]).0 by {
                if j < before.len() {
                    assert(before[i].0 != before[j].0);
                } else {
                    assert(out[i] == before[i]);
                    let k = choose|k: int| 0 <= k < init.len() && (#[trigger] init[k]).0 == before[i].0;
                    assert(points[k].0 != points[points.len() - 1].0);
                }
            }
        }
    } else {
        assert forall|l: Seq<Entry>, r: u64|
            !(#[trigger] out.contains((l, r))) && !(exists|x: u64, y: u64|
                #[trigger] points.contains((l, x)) && keyed::found(others, store::key_of(l)) == Some(y)
                    && #[trigger] comes_to(op, x, y, r)) by {
        }
    }
}

/// Two vectors pair one to one on their full label sets: the result has a
/// number under labels if and only if both sides have one under the very
/// same labels, and it is what the operator makes of those two. No label set
/// stands twice in it.
pub proof fn law_vectors_pair_on_their_labels(op: BinOp, a: Seq<Point>, b: Seq<Point>)
    requires
        plain_points(a),
        plain_points(b),
        labels_once(a),
        labels_once(b),
    ensures
        combined(op, ValueView::Vector(a), ValueView::Vector(b)) matches ValueView::Vector(out) && {
            &&& labels_once(out)
            &&& forall|l: Seq<Entry>, r: u64|
                (#[trigger] out.contains((l, r))) <==> exists|x: u64, y: u64|
                    #[trigger] a.contains((l, x)) && #[trigger] b.contains((l, y)) && comes_to(
                        op,
                        x,
                        y,
                        r,
                    )
        },
{
    let out = paired(op, a, by_key(b));
    lemma_by_key(b);
    lemma_paired(op, a, by_key(b));
    assert forall|l: Seq<Entry>, r: u64|
        (#[trigger] out.contains((l, r))) <==> exists|x: u64, y: u64|
            #[trigger] a.contains((l, x)) && #[trigger] b.contains((l, y)) && comes_to(op, x, y, r) by {
        if out.contains((l, r)) {
            let (x, y) = choose|x: u64, y: u64|
                #[trigger] a.contains((l, x)) && keyed::found(by_key(b), store::key_of(l)) == Some(y)
                    && #[trigger] comes_to(op, x, y, r);
            let i = choose|i: int| 0 <= i < a.len() && a[i] == (l, x);
            assert(store::plain_labels(a[i].0));
            assert(b.contains((l, y)));
        }
        if exists|x: u64, y: u64|
            #[trigger] a.contains((l, x)) && #[trigger] b.contains((l, y)) && comes_to(op, x, y, r) {
            let (x, y) = choose|x: u64, y: u64|
                #[trigger] a.contains((l, x)) && #[trigger] b.contains((l, y)) && comes_to(op, x, y, r);
            let i = choose|i: int| 0 <= i < a.len() && a[i] == (l, x);
            assert(store::plain_labels(a[i].0));
            assert(a.contains((l, x)) && comes_to(op, x, y, r));
        }
    }
}

/// Whether `y` is the last number that points have under labels.
pub open spec fn last_under(points: Seq<Point>, labels: Seq<Entry>, y: u64) -> bool {
    exists|j: int|
        0 <= j < points.len() && #[trigger] points[j] == (labels, y) && forall|m: int|
            j < m < points.len() ==> (#[trigger] points[m]).0 != labels
}

proof fn lemma_last_under(points: Seq<Point>, labels: Seq<Entry>, y: u64)
    requires
        plain_points(points),
        store::plain_labels(labels),
    ensures
        keyed::distinct(by_key(points)),
        keyed::found(by_key(points), store::key_of(labels)) == Some(y) <==> last_under(
            points,
            labels,
            y,
        ),
    decreases points.len(),
{
    if points.len() > 0 {
        let init = points.drop_last();
        let n = points.len() - 1;
        let (name, v) = points.last();
        let before = by_key(init);
        let key = store::key_of(name);
        assert(plain_points(init));
        assert(store::plain_labels(points[n].0));
        lemma_last_under(init, labels, y);
        keyed::lemma_put_distinct(before, key, v);
        keyed::law_put_is_found(before, key, v, store::key_of(labels));
        if name == labels {
            if last_under(points, labels, y) {
                let j = choose|j: int|
                    0 <= j < points.len() && #[trigger] points[j] == (labels, y) && forall|m: int|
                        j < m < points.len() ==> (#[trigger] points[m]).0 != labels;
                if j < n {
                    assert(points[n].0 != labels);
                }
            }
            if v == y {
                assert(points[n] == (labels, y));
            }
        } else {
            if store::key_of(labels) == key {
                store::law_plain_labels_have_their_own_key(labels, name);
            }
            if last_under(init, labels, y) {
                let j = choose|j: int|
                    0 <= j < init.len() && #[trigger] init[j] == (labels, y) && forall|m: int|
                        j < m < init.len() ==> (#[trigger] init[m]).0 != labels;
                assert(points[j] == (labels, y));
                assert forall|m: int| j < m < points.len() implies (#[trigger] points[m]).0
                    != labels by {
                    if m < n {
                        assert(init[m] == points[m]);
                    }
                }
            }
            if last_under(points, labels, y) {
                let j = choose|j: int|
                    0 <= j < points.len() && #[trigger] points[j] == (labels, y) && forall|m: int|
                        j < m < points.len() ==> (#[trigger] points[m]).0 != labels;
                assert(init[j] == (labels, y));
                assert forall|m: int| j < m < init.len() implies (#[trigger] init[m]).0 != labels by {
                    assert(init[m] == points[m]);
                }
            }
        }
    }
}

proof fn lemma_paired_places(op: BinOp, points: Seq<Point>, others: Seq<(Seq<char>, u64)>) -> (at: Seq<int>)
    ensures
        in_order(at, points.len() as int),
        at.len() == paired(op, points, others).len(),
        forall|k: int|
            0 <= k < at.len() ==> {
                let p = points[#[trigger] at[k]];
                let out = paired(op, points, others)[k];
                &&& out.0 == p.0
                &&& keyed::found(others, store::key_of(p.0)) matches Some(y) && comes_to(
                    op,
                    p.1,
                    y,
                    out.1,
                )
            },
        forall|i: int|
            0 <= i < points.len() && keyed::found(others, store::key_of((#[trigger] points[i]).0))
                is Some ==> at.contains(i),
    decreases points.len(),
{
    if points.len() == 0 {
        seq![]
    } else {
        let init = points.drop_last();
        let n = points.len() - 1;
        let before = lemma_paired_places(op, init, others);
        let taken = keyed::found(others, store::key_of(points.last().0)) is Some;
        let at = if taken {
            before.push(n)
        } else {
            before
        };
        let out = paired(op, points, others);
        assert forall|k: int| 0 <= k < at.len() implies {
            let p = points[#[trigger] at[k]];
            &&& out[k].0 == p.0
            &&& keyed::found(others, store::key_of(p.0)) matches Some(y) && comes_to(
                op,
                p.1,
                y,
                out[k].1,
            )
        } by {
            if k < before.len() {
                assert(at[k] == before[k]);
                assert(init[before[k]] == points[before[k]]);
                assert(out[k] == paired(op, init, others)[k]);
            }
        }
        assert forall|i: int|
            0 <= i < points.len() && keyed::found(
                others,
                store::key_of((#[trigger] points[i]).0),
            ) is Some implies at.contains(i) by {
            if i < n {
                assert(init[i] == points[i]);
                assert(before.contains(i));
                let k = choose|k: int| 0 <= k < before.len() && before[k] == i;
                assert(at[k] == i);
            } else {
                assert(at[at.len() - 1] == n);
            }
        }
        assert forall|k: int| 0 <= k < at.len() implies 0 <= (#[trigger] at[k]) < points.len() by {
            if k < before.len() {
                assert(at[k] == before[k]);
            }
        }
        assert forall|j: int, k: int| 0 <= j < k < at.len() implies (#[trigger] at[j]) < (
        #[trigger] at[k]) by {
            assert(at[j] == before[j]);
            if k < before.len() {
                assert(at[k] == before[k]);
            }
        }
        at
    }
}

/// Each point of the left side meets the last one of the right side that is
/// called the same, and drops out where there is none. What comes out stands
/// in the order of the left side, at the places that come back.
pub proof fn law_points_meet_their_partners(op: BinOp, a: Seq<Point>, b: Seq<Point>) -> (at: Seq<int>)
    requires
        plain_points(a),
        plain_points(b),
    ensures
        in_order(at, a.len() as int),
        combined(op, ValueView::Vector(a), ValueView::Vector(b)) matches ValueView::Vector(out)
            && out.len() == at.len() && forall|k: int|
            0 <= k < at.len() ==> (#[trigger] out[k]).0 == a[at[k]].0 && exists|y: u64| #[trigger]
                last_under(b, a[at[k]].0, y) && comes_to(op, a[at[k]].1, y, out[k].1),
        forall|i: int, j: int|
            0 <= i < a.len() && 0 <= j < b.len() && (#[trigger] a[i]).0 == (#[trigger] b[j]).0
                ==> at.contains(i),
{
    let others = by_key(b);
    let out = paired(op, a, others);
    let at = lemma_paired_places(op, a, others);
    assert forall|k: int| 0 <= k < at.len() implies (#[trigger] out[k]).0 == a[at[k]].0 && exists|y: u64|
        #[trigger]
        last_under(b, a[at[k]].0, y) && comes_to(op, a[at[k]].1, y, out[k].1) by {
        let p = a[at[k]];
        let y = keyed::found(others, store::key_of(p.0))->0;
        assert(store::plain_labels(a[at[k]].0));
        lemma_last_under(b, p.0, y);
        assert(last_under(b, p.0, y));
    }
    assert forall|i: int, j: int|
        0 <= i < a.len() && 0 <= j < b.len() && (#[trigger] a[i]).0 == (
        #[trigger] b[j]).0 implies at.contains(i) by {
        let y = lemma_some_last(b, a[i].0, j);
        assert(store::plain_labels(a[i].0));
        lemma_last_under(b, a[i].0, y);
    }
    at
}

proof fn lemma_some_last(points: Seq<Point>, labels: Seq<Entry>, j: int) -> (y: u64)
    requires
        0 <= j < points.len(),
        points[j].0 == labels,
    ensures
        last_under(points, labels, y),
    decreases points.len() - j,
{
    if exists|m: int| j < m < points.len() && (#[trigger] points[m]).0 == labels {
        let m = choose|m: int| j < m < points.len() && (#[trigger] points[m]).0 == labels;
        lemma_some_last(points, labels, m)
    } else {
        assert(points[j] == (labels, points[j].1));
        points[j].1
    }
}

/// A number without labels meets every point of a vector, on the side on
/// which it stands, and two of them meet each other.
pub proof fn law_scalars_meet_every_point(op: BinOp, points: Seq<Point>, a: u64, b: u64)
    ensures
        combined(op, ValueView::Vector(points), ValueView::Scalar(b)) matches ValueView::Vector(out)
            && out.len() == points.len() && forall|i: int|
            0 <= i < out.len() ==> (#[trigger] out[i]).0 == points[i].0 && comes_to(
                op,
                points[i].1,
                b,
                out[i].1,
            ),
        combined(op, ValueView::Scalar(a), ValueView::Vector(points)) matches ValueView::Vector(out)
            && out.len() == points.len() && forall|i: int|
            0 <= i < out.len() ==> (#[trigger] out[i]).0 == points[i].0 && comes_to(
                op,
                a,
                points[i].1,
                out[i].1,
            ),
        combined(op, ValueView::Scalar(a), ValueView::Scalar(b)) matches ValueView::Scalar(r)
            && comes_to(op, a, b, r),
{
}

/// Whole numbers come out of arithmetic as arithmetic has it, as long as
/// nothing passes 2^53.
pub proof fn law_whole_numbers_come_out_right(a: int, b: int)
    requires
        0 <= a <= 0x20_0000_0000_0000,
        0 <= b <= 0x20_0000_0000_0000,
    ensures
        a + b <= 0x20_0000_0000_0000 ==> applied(BinOp::Add, double::of_int(a), double::of_int(b))
            == double::of_int(a + b),
        applied(BinOp::Sub, double::of_int(a), double::of_int(b)) == double::of_int(a - b),
        a * b <= 0x20_0000_0000_0000 ==> applied(BinOp::Mul, double::of_int(a), double::of_int(b))
            == double::of_int(a * b),
        a * b <= 0x20_0000_0000_0000 && b > 0 ==> applied(
            BinOp::Div,
            double::of_int(a * b),
            double::of_int(b),
        ) == double::of_int(a),
{
    double::law_signed_integers_add(a, b);
    if a * b <= 0x20_0000_0000_0000 {
        double::law_small_integers_multiply(a, b);
    }
}

/// Whether `g` is what is left of labels for a sum: of the names in the `by`
/// clause those that the labels have, with their values, and nothing else.
pub open spec fn is_group(labels: Seq<Entry>, by: Option<Seq<Seq<char>>>, g: Seq<Entry>) -> bool {
    &&& textmap::ordered(g)
    &&& forall|k: Seq<char>| #[trigger]
        textmap::lookup(g, k) == (if by is Some && by->0.contains(k) {
            textmap::lookup(labels, k)
        } else {
            None
        })
}

/// The points of a group, in order.
pub open spec fn members(points: Seq<Point>, by: Option<Seq<Seq<char>>>, g: Seq<Entry>) -> Seq<Point> {
    points.filter(|p: Point| is_group(p.0, by, g))
}

/// What points add up to, one after the other.
pub open spec fn added_up(points: Seq<Point>) -> u64
    decreases points.len(),
{
    if points.len() < 2 {
        points[0].1
    } else {
        double::sum(added_up(points.drop_last()), points.last().1)
    }
}

proof fn lemma_kept(labels: Seq<Entry>, names: Seq<Seq<char>>)
    ensures
        is_group(labels, Some(names), kept(labels, names)),
    decreases names.len(),
{
    let out = kept(labels, names);
    if names.len() > 0 {
        let init = names.drop_last();
        let before = kept(labels, init);
        let last = names.last();
        lemma_kept(labels, init);
        assert(names =~= init.push(last));
        if let Some(v) = textmap::lookup(labels, last) {
            textmap::law_order_is_kept(before, last, v);
            textmap::law_entry_is_found(before, last, v);
        }
        assert forall|k: Seq<char>| #[trigger]
            textmap::lookup(out, k) == (if names.contains(k) {
                textmap::lookup(labels, k)
            } else {
                None
            }) by {
            assert(textmap::lookup(before, k) == (if init.contains(k) {
                textmap::lookup(labels, k)
            } else {
                None
            }));
            if k == last {
                assert(names[names.len() - 1] == k);
            } else {
                if let Some(v) = textmap::lookup(labels, last) {
                    textmap::law_other_entries_stay(before, last, v, k);
                }
                if names.contains(k) {
                    let i = choose|i: int| 0 <= i < names.len() && names[i] == k;
                    assert(init[i] == k);
                }
                if init.contains(k) {
                    let i = choose|i: int| 0 <= i < init.len() && init[i] == k;
                    assert(names[i] == k);
                }
            }
        }
    }
}

proof fn lemma_group(labels: Seq<Entry>, by: Option<Seq<Seq<char>>>, g: Seq<Entry>)
    ensures
        is_group(labels, by, g) <==> g == group_of(labels, by),
{
    let own = group_of(labels, by);
    if let Some(names) = by {
        lemma_kept(labels, names);
    }
    assert(is_group(labels, by, own));
    if is_group(labels, by, g) {
        assert forall|k: Seq<char>| textmap::lookup(g, k) == textmap::lookup(own, k) by {
        }
        textmap::law_order_is_canonical(g, own);
    }
}

proof fn lemma_members(points: Seq<Point>, by: Option<Seq<Seq<char>>>, g: Seq<Entry>)
    requires
        points.len() > 0,
    ensures
        members(points, by, g) == (if group_of(points.last().0, by) == g {
            members(points.drop_last(), by, g).push(points.last())
        } else {
            members(points.drop_last(), by, g)
        }),
{
    reveal(Seq::filter);
    lemma_group(points.last().0, by, g);
}

/// Whether sums stand under the keys of their groups, each with what the
/// points of its group add up to.
spec fn summed(
    entries: Seq<(Seq<char>, Point)>,
    points: Seq<Point>,
    by: Option<Seq<Seq<char>>>,
) -> bool {
    &&& keyed::distinct(entries)
    &&& forall|i: int|
        0 <= i < entries.len() ==> {
            let g = (#[trigger] entries[i]).1.0;
            &&& entries[i].0 == store::key_of(g)
            &&& store::plain_labels(g)
            &&& members(points, by, g).len() > 0
            &&& entries[i].1.1 == added_up(members(points, by, g))
        }
    &&& forall|p: int|
        0 <= p < points.len() ==> keyed::holds(
            entries,
            store::key_of(group_of((#[trigger] points[p]).0, by)),
        )
}

#[verifier::rlimit(40)]
proof fn lemma_groups(points: Seq<Point>, by: Option<Seq<Seq<char>>>)
    requires
        plain_points(points),
    ensures
        summed(groups(points, by), points, by),
    decreases points.len(),
{
    reveal(Seq::filter);
    let entries = groups(points, by);
    if points.len() > 0 {
        let init = points.drop_last();
        let before = groups(init, by);
        let (labels, v) = points.last();
        let group = group_of(labels, by);
        let key = store::key_of(group);
        assert(plain_points(init));
        assert(store::plain_labels(points[points.len() - 1].0));
        lemma_groups(init, by);
        lemma_plain_group(labels, by);
        keyed::lemma_place(before, key);
        let at = keyed::place(before, key) as int;
        lemma_members(points, by, group);
        if keyed::holds(before, key) {
            store::law_plain_labels_have_their_own_key(before[at].1.0, group);
            let new = (group, double::sum(before[at].1.1, v));
            assert(entries == keyed::put(before, key, new));
            keyed::lemma_put_distinct(before, key, new);
            assert(members(points, by, group).drop_last() =~= members(init, by, group));
        } else {
            let new = (group, v);
            assert(entries == keyed::put(before, key, new));
            keyed::lemma_put_distinct(before, key, new);
            if members(init, by, group).len() > 0 {
                let m = members(init, by, group)[0];
                init.lemma_filter_contains_rev(|p: Point| is_group(p.0, by, group), m);
                let q = choose|q: int| 0 <= q < init.len() && init[q] == m;
                lemma_group(m.0, by, group);
                assert(keyed::holds(before, store::key_of(group_of(init[q].0, by))));
            }
            assert(members(points, by, group) =~= seq![(labels, v)]);
        }
        assert forall|i: int| 0 <= i < entries.len() implies {
            let g = (#[trigger] entries[i]).1.0;
            &&& entries[i].0 == store::key_of(g)
            &&& store::plain_labels(g)
            &&& members(points, by, g).len() > 0
            &&& entries[i].1.1 == added_up(members(points, by, g))
        } by {
            let g = entries[i].1.0;
            lemma_members(points, by, g);
            if entries[i].0 != key {
                assert(entries[i] == before[i]);
            }
        }
        assert forall|p: int| 0 <= p < points.len() implies keyed::holds(
            entries,
            store::key_of(group_of((#[trigger] points[p]).0, by)),
        ) by {
            let k = store::key_of(group_of(points[p].0, by));
            let new = (group, if keyed::holds(before, key) {
                double::sum(before[at].1.1, v)
            } else {
                v
            });
            keyed::law_put_is_found(before, key, new, k);
            if p < init.len() {
                assert(points[p] == init[p]);
                assert(keyed::holds(before, k));
            }
        }
    }
}

proof fn lemma_plain_group(labels: Seq<Entry>, by: Option<Seq<Seq<char>>>)
    requires
        store::plain_labels(labels),
    ensures
        store::plain_labels(group_of(labels, by)),
{
    if let Some(names) = by {
        super::eval::lemma_kept_plain(labels, names);
    }
}

/// A sum has one point for each group that the points under it make: no
/// label set stands twice, each is the group of some point, every point's
/// group is there, and the number under a group is what exactly the points
/// of that group add up to, in their order.
pub proof fn law_sum_has_one_point_for_each_group(
    v: StoreView,
    inner: ExprView,
    by: Option<Seq<Seq<char>>>,
    t: i64,
)
    requires
        store::plain_store(v),
    ensures
        ({
            let points = points_of(evaluated(v, inner, t));
            evaluated(v, ExprView::Sum(Box::new(inner), by), t) matches ValueView::Vector(out) && {
                &&& labels_once(out)
                &&& forall|i: int|
                    0 <= i < out.len() ==> members(points, by, (#[trigger] out[i]).0).len() > 0
                        && out[i].1 == added_up(members(points, by, out[i].0))
                &&& forall|p: int|
                    0 <= p < points.len() ==> exists|i: int|
                        0 <= i < out.len() && is_group(
                            (#[trigger] points[p]).0,
                            by,
                            (#[trigger] out[i]).0,
                        )
            }
        }),
{
    let points = points_of(evaluated(v, inner, t));
    law_answers_are_plain(v, inner, t);
    lemma_groups(points, by);
    let entries = groups(points, by);
    let out = without_keys(entries);
    let whole = ExprView::Sum(Box::new(inner), by);
    assert(evaluated(v, whole, t) == ValueView::Vector(out)) by {
        reveal_with_fuel(evaluated, 2);
    }
    assert(labels_once(out)) by {
        assert forall|i: int, j: int| 0 <= i < j < out.len() implies (#[trigger] out[i]).0 != (
        #[trigger] out[j]).0 by {
            assert(entries[i].0 != entries[j].0);
        }
    }
    assert forall|i: int| 0 <= i < out.len() implies members(points, by, (#[trigger] out[i]).0).len()
        > 0 && out[i].1 == added_up(members(points, by, out[i].0)) by {
        assert(entries[i].1 == out[i]);
    }
    assert forall|p: int| 0 <= p < points.len() implies exists|i: int|
        0 <= i < out.len() && is_group((#[trigger] points[p]).0, by, (#[trigger] out[i]).0) by {
        let g = group_of(points[p].0, by);
        let key = store::key_of(g);
        keyed::lemma_place(entries, key);
        let i = keyed::place(entries, key) as int;
        assert(keyed::holds(entries, key));
        assert(store::plain_labels(points[p].0));
        lemma_plain_group(points[p].0, by);
        assert(entries[i].0 == store::key_of(entries[i].1.0));
        store::law_plain_labels_have_their_own_key(entries[i].1.0, g);
        lemma_group(points[p].0, by, out[i].0);
    }
}

/// Whether samples hold these whole numbers, none of them above 2^53.
pub open spec fn hold_whole(samples: Seq<Sample>, ns: Seq<int>) -> bool {
    &&& ns.len() == samples.len()
    &&& forall|i: int|
        0 <= i < ns.len() ==> 0 <= (#[trigger] ns[i]) <= 0x20_0000_0000_0000 && samples[i].v
            == double::of_int(ns[i])
}

/// What a counter lost where it was reset: each time, all that it had.
pub open spec fn lost(ns: Seq<int>) -> int
    decreases ns.len(),
{
    if ns.len() < 2 {
        0
    } else {
        lost(ns.drop_last()) + if ns.last() < ns[ns.len() - 2] {
            ns[ns.len() - 2]
        } else {
            0
        }
    }
}

proof fn lemma_grown(samples: Seq<Sample>, ns: Seq<int>)
    requires
        hold_whole(samples, ns),
        ns.len() > 0,
        ns.last() - ns[0] + lost(ns) <= 0x20_0000_0000_0000,
    ensures
        0 <= ns.last() - ns[0] + lost(ns),
        grown(samples) == double::of_int(ns.last() - ns[0] + lost(ns)),
    decreases ns.len(),
{
    if ns.len() >= 2 {
        let init = ns.drop_last();
        let n = ns.last();
        let prev = ns[ns.len() - 2];
        let fewer = samples.drop_last();
        assert forall|i: int| 0 <= i < init.len() implies 0 <= (#[trigger] init[i])
            <= 0x20_0000_0000_0000 && fewer[i].v == double::of_int(init[i]) by {
            assert(init[i] == ns[i]);
        }
        assert(init.last() == prev);
        assert(0 <= ns[ns.len() - 1] && 0 <= ns[ns.len() - 2]);
        lemma_grown(fewer, init);
        double::law_signed_integers_are_exact(n);
        double::law_signed_integers_are_exact(prev);
        double::lemma_ordered(n, prev);
        let so_far = init.last() - init[0] + lost(init);
        if n < prev {
            double::law_signed_integers_add(so_far, n);
        } else {
            double::law_signed_integers_add(n, prev);
            double::law_signed_integers_add(so_far, n - prev);
        }
    }
}

/// A counter's rate is what it grew by over the seconds from the first
/// sample to the last: the last number less the first, and what each reset
/// took away.
pub proof fn law_rate_is_growth_over_time(samples: Seq<Sample>, ns: Seq<int>)
    requires
        chunk::ascending(samples),
        samples.len() >= 2,
        hold_whole(samples, ns),
        ns.last() - ns[0] + lost(ns) <= 0x20_0000_0000_0000,
    ensures
        rate_over(samples) == Some(
            double::quotient(
                double::of_int(ns.last() - ns[0] + lost(ns)),
                double::of_int(samples.last().t - samples[0].t),
            ),
        ),
{
    lemma_grown(samples, ns);
    assert(samples[0].t < samples[samples.len() - 1].t);
}

/// A counter that never falls has lost nothing: its rate is the last number
/// less the first, over the time between them.
pub proof fn law_rate_of_a_rising_counter(samples: Seq<Sample>, ns: Seq<int>)
    requires
        chunk::ascending(samples),
        samples.len() >= 2,
        hold_whole(samples, ns),
        forall|i: int, j: int| 0 <= i < j < ns.len() ==> (#[trigger] ns[i]) <= (#[trigger] ns[j]),
    ensures
        rate_over(samples) == Some(
            double::quotient(
                double::of_int(ns.last() - ns[0]),
                double::of_int(samples.last().t - samples[0].t),
            ),
        ),
{
    lemma_nothing_lost(ns);
    assert(0 <= ns[0] && ns[ns.len() - 1] <= 0x20_0000_0000_0000);
    law_rate_is_growth_over_time(samples, ns);
}

proof fn lemma_nothing_lost(ns: Seq<int>)
    requires
        forall|i: int, j: int| 0 <= i < j < ns.len() ==> (#[trigger] ns[i]) <= (#[trigger] ns[j]),
    ensures
        lost(ns) == 0,
    decreases ns.len(),
{
    if ns.len() >= 2 {
        let init = ns.drop_last();
        assert forall|i: int, j: int| 0 <= i < j < init.len() implies (#[trigger] init[i]) <= (
        #[trigger] init[j]) by {
            assert(ns[i] <= ns[j]);
        }
        lemma_nothing_lost(init);
        assert(ns[ns.len() - 2] <= ns[ns.len() - 1]);
    }
}

/// A counter that grows by so much a second has that rate, however its
/// samples are spaced.
pub proof fn law_steady_counter_has_its_rate(samples: Seq<Sample>, ns: Seq<int>, k: int)
    requires
        chunk::ascending(samples),
        samples.len() >= 2,
        hold_whole(samples, ns),
        0 <= k <= 0x20_0000_0000_0000,
        samples.last().t - samples[0].t <= 0x20_0000_0000_0000,
        forall|i: int|
            0 <= i < ns.len() ==> (#[trigger] ns[i]) == ns[0] + k * (samples[i].t - samples[0].t),
    ensures
        rate_over(samples) == Some(double::of_int(k)),
{
    assert forall|i: int, j: int| 0 <= i < j < ns.len() implies (#[trigger] ns[i]) <= (
    #[trigger] ns[j]) by {
        let a = samples[i].t - samples[0].t;
        let b = samples[j].t - samples[0].t;
        assert(samples[i].t < samples[j].t);
        assert(k * a <= k * b) by (nonlinear_arith)
            requires
                k >= 0,
                a <= b,
        ;
    }
    law_rate_of_a_rising_counter(samples, ns);
    let d = samples.last().t - samples[0].t;
    assert(samples[0].t < samples[samples.len() - 1].t);
    assert(ns[ns.len() - 1] == ns[0] + k * d);
    assert(0 <= ns[0]);
    double::law_small_integers_multiply(k, d);
}

/// A rate takes two samples.
pub proof fn law_rate_takes_two_samples(samples: Seq<Sample>)
    ensures
        samples.len() < 2 ==> rate_over(samples) is None,
        chunk::ascending(samples) && samples.len() >= 2 ==> rate_over(samples) is Some,
{
    if samples.len() >= 2 && chunk::ascending(samples) {
        assert(samples[0].t < samples[samples.len() - 1].t);
    }
}

/// Whether places stand in order, each once, among so many.
pub open spec fn in_order(at: Seq<int>, n: int) -> bool {
    &&& forall|k: int| 0 <= k < at.len() ==> 0 <= (#[trigger] at[k]) < n
    &&& forall|j: int, k: int| 0 <= j < k < at.len() ==> (#[trigger] at[j]) < (#[trigger] at[k])
}

/// Whether labels meet a matcher. A label that is absent counts as empty.
pub open spec fn meets(labels: Seq<Entry>, m: MatcherView) -> bool {
    let value = match textmap::lookup(labels, m.label) {
        Some(value) => value,
        None => Seq::<char>::empty(),
    };
    match m.op {
        MatchOp::Eq => value == m.value,
        MatchOp::Ne => value != m.value,
        MatchOp::Re => m.regex matches Some(texts) && texts.contains(value),
        MatchOp::NotRe => !(m.regex matches Some(texts) && texts.contains(value)),
    }
}

/// Whether a selector picks a series with these labels: its name is the one
/// asked for, if one is, and it meets every matcher.
pub open spec fn picks(selector: SelectorView, labels: Seq<Entry>) -> bool {
    &&& selector.name matches Some(name) ==> (match textmap::lookup(labels, "__name__"@) {
        Some(own) => own == name,
        None => name.len() == 0,
    })
    &&& forall|i: int|
        0 <= i < selector.matchers.len() ==> meets(labels, #[trigger] selector.matchers[i])
}

/// Whether labels are others without the name.
pub open spec fn nameless(labels: Seq<Entry>, out: Seq<Entry>) -> bool {
    &&& textmap::ordered(out)
    &&& forall|k: Seq<char>| #[trigger]
        textmap::lookup(out, k) == (if k == "__name__"@ {
            None
        } else {
            textmap::lookup(labels, k)
        })
}

/// Whether `x` is the newest number at or before `t`, and no older than five
/// minutes.
pub open spec fn newest_is(samples: Seq<Sample>, t: i64, x: u64) -> bool {
    exists|i: int|
        0 <= i < samples.len() && (#[trigger] samples[i]).v == x && t - 300 <= samples[i].t <= t && (
        forall|j: int|
            0 <= j < samples.len() && (#[trigger] samples[j]).t <= t ==> samples[j].t <= samples[i].t)
}

/// Whether there is a sample at or before `t` that is no older than five
/// minutes.
pub open spec fn is_fresh(samples: Seq<Sample>, t: i64) -> bool {
    exists|i: int| 0 <= i < samples.len() && t - 300 <= (#[trigger] samples[i]).t <= t
}

/// Whether some samples are those of others that are later than
/// `t - window` and not later than `t`.
pub open spec fn window_of(w: Seq<Sample>, samples: Seq<Sample>, t: i64, window: i64) -> bool {
    &&& chunk::ascending(w)
    &&& forall|x: Sample| #[trigger]
        w.contains(x) <==> samples.contains(x) && x.t > t - window && x.t <= t
}

proof fn lemma_latest(samples: Seq<Sample>, t: i64)
    requires
        chunk::ascending(samples),
    ensures
        match series::latest(samples, t as int) {
            Some(s) => exists|i: int|
                0 <= i < samples.len() && (#[trigger] samples[i]) == s && s.t <= t && (forall|j: int|
                    0 <= j < samples.len() && (#[trigger] samples[j]).t <= t ==> samples[j].t <= s.t),
            None => forall|j: int| 0 <= j < samples.len() ==> (#[trigger] samples[j]).t > t,
        },
    decreases samples.len(),
{
    if samples.len() > 0 {
        let n = samples.len() - 1;
        if samples.last().t <= t {
            assert(samples[n] == samples.last());
            assert forall|j: int|
                0 <= j < samples.len() && (#[trigger] samples[j]).t <= t implies samples[j].t
                <= samples.last().t by {
                if j < n {
                    assert(samples[j].t < samples[n].t);
                }
            }
        } else {
            let init = samples.drop_last();
            assert forall|i: int, j: int| 0 <= i < j < init.len() implies init[i].t < init[j].t by {
                assert(samples[i].t < samples[j].t);
            }
            lemma_latest(init, t);
            match series::latest(init, t as int) {
                Some(s) => {
                    let i = choose|i: int|
                        0 <= i < init.len() && (#[trigger] init[i]) == s && s.t <= t && (forall|j: int|
                            0 <= j < init.len() && (#[trigger] init[j]).t <= t ==> init[j].t <= s.t);
                    assert(samples[i] == s);
                    assert forall|j: int|
                        0 <= j < samples.len() && (#[trigger] samples[j]).t <= t implies samples[j].t
                        <= s.t by {
                        assert(init[j] == samples[j]);
                    }
                },
                None => {
                    assert forall|j: int| 0 <= j < samples.len() implies (#[trigger] samples[j]).t
                        > t by {
                        if j < n {
                            assert(init[j] == samples[j]);
                        }
                    }
                },
            }
        }
    }
}

/// What answers for an instant is the newest number at or before it, unless
/// that is older than five minutes.
pub proof fn law_newest_sample_answers(samples: Seq<Sample>, t: i64)
    requires
        chunk::ascending(samples),
    ensures
        match series::answer(samples, t, LOOKBACK) {
            Some(x) => newest_is(samples, t, x) && is_fresh(samples, t),
            None => !is_fresh(samples, t),
        },
{
    lemma_latest(samples, t);
    if let Some(s) = series::latest(samples, t as int) {
        let i = choose|i: int|
            0 <= i < samples.len() && (#[trigger] samples[i]) == s && s.t <= t && (forall|j: int|
                0 <= j < samples.len() && (#[trigger] samples[j]).t <= t ==> samples[j].t <= s.t);
        assert(samples[i].t <= t);
    }
}

/// The samples of a window are those later than its start and not later than
/// its end.
pub proof fn law_window_is_half_open(samples: Seq<Sample>, t: i64, window: i64)
    requires
        chunk::ascending(samples),
    ensures
        window_of(series::within(samples, t, window), samples, t, window),
    decreases samples.len(),
{
    let pred = |s: Sample| t - window < s.t <= t;
    let w = series::within(samples, t, window);
    assert forall|x: Sample| #[trigger] w.contains(x) <==> samples.contains(x) && x.t > t - window && x.t
        <= t by {
        if w.contains(x) {
            samples.lemma_filter_contains_rev(pred, x);
            let i = choose|i: int| 0 <= i < w.len() && w[i] == x;
            samples.lemma_filter_pred(pred, i);
        }
        if samples.contains(x) && pred(x) {
            let i = choose|i: int| 0 <= i < samples.len() && samples[i] == x;
            samples.lemma_filter_contains(pred, i);
        }
    }
    lemma_filter_ascends(samples, pred);
}

proof fn lemma_filter_ascends(samples: Seq<Sample>, pred: spec_fn(Sample) -> bool)
    requires
        chunk::ascending(samples),
    ensures
        chunk::ascending(samples.filter(pred)),
{
    let at = lemma_filter_places(samples, pred);
    let w = samples.filter(pred);
    assert forall|i: int, j: int| 0 <= i < j < w.len() implies w[i].t < w[j].t by {
        assert(w[i] == samples[at[i]] && w[j] == samples[at[j]]);
        assert(at[i] < at[j]);
    }
}

/// Where what a filter keeps stood.
proof fn lemma_filter_places<A>(s: Seq<A>, pred: spec_fn(A) -> bool) -> (at: Seq<int>)
    ensures
        in_order(at, s.len() as int),
        at.len() == s.filter(pred).len(),
        forall|k: int|
            0 <= k < at.len() ==> s.filter(pred)[k] == s[#[trigger] at[k]] && pred(s[at[k]]),
        forall|i: int| 0 <= i < s.len() && pred(#[trigger] s[i]) ==> at.contains(i),
    decreases s.len(),
{
    reveal(Seq::filter);
    if s.len() == 0 {
        seq![]
    } else {
        let init = s.drop_last();
        let n = s.len() - 1;
        let before = lemma_filter_places(init, pred);
        let at = if pred(s.last()) {
            before.push(n)
        } else {
            before
        };
        let out = s.filter(pred);
        assert forall|k: int| 0 <= k < at.len() implies out[k] == s[#[trigger] at[k]] && pred(s[at[k]]) by {
            if k < before.len() {
                assert(before[k] == at[k]);
                assert(init[before[k]] == s[at[k]]);
            }
        }
        assert forall|j: int, k: int| 0 <= j < k < at.len() implies (#[trigger] at[j]) < (
        #[trigger] at[k]) by {
            assert(before[j] == at[j]);
            if k < before.len() {
                assert(before[k] == at[k]);
            }
        }
        assert forall|i: int| 0 <= i < s.len() && pred(#[trigger] s[i]) implies at.contains(i) by {
            if i < n {
                assert(init[i] == s[i]);
                let k = choose|k: int| 0 <= k < before.len() && before[k] == i;
                assert(at[k] == i);
            } else {
                assert(at[at.len() - 1] == i);
            }
        }
        at
    }
}

proof fn lemma_places_compose(a: Seq<int>, b: Seq<int>, n: int) -> (at: Seq<int>)
    requires
        in_order(a, n),
        in_order(b, a.len() as int),
    ensures
        in_order(at, n),
        at.len() == b.len(),
        forall|k: int| 0 <= k < b.len() ==> (#[trigger] at[k]) == a[b[k]],
        forall|i: int| b.contains(i) && 0 <= i < a.len() ==> at.contains(#[trigger] a[i]),
{
    let at = Seq::new(b.len(), |k: int| a[b[k]]);
    assert forall|k: int| 0 <= k < at.len() implies 0 <= (#[trigger] at[k]) < n by {
        assert(0 <= b[k] < a.len());
    }
    assert forall|j: int, k: int| 0 <= j < k < at.len() implies (#[trigger] at[j]) < (
    #[trigger] at[k]) by {
        assert(b[j] < b[k]);
        assert(0 <= b[j] && b[k] < a.len());
    }
    assert forall|i: int| b.contains(i) && 0 <= i < a.len() implies at.contains(#[trigger] a[i]) by {
        let k = choose|k: int| 0 <= k < b.len() && b[k] == i;
        assert(at[k] == a[i]);
    }
    at
}

proof fn lemma_takes(matchers: Seq<MatcherView>, labels: Seq<Entry>)
    ensures
        all_take(matchers, labels) <==> forall|i: int|
            0 <= i < matchers.len() ==> meets(labels, #[trigger] matchers[i]),
{
    assert forall|i: int| 0 <= i < matchers.len() implies super::takes(
        #[trigger] matchers[i],
        label_value(labels, matchers[i].label),
    ) == meets(labels, matchers[i]) by {
    }
    if all_take(matchers, labels) {
        assert forall|i: int| 0 <= i < matchers.len() implies meets(labels, #[trigger] matchers[i]) by {
            assert(super::takes(matchers[i], label_value(labels, matchers[i].label)));
        }
    }
    if forall|i: int| 0 <= i < matchers.len() ==> meets(labels, #[trigger] matchers[i]) {
        assert forall|i: int| 0 <= i < matchers.len() implies super::takes(
            #[trigger] matchers[i],
            label_value(labels, matchers[i].label),
        ) by {
            assert(meets(labels, matchers[i]));
        }
    }
}

/// A selector takes the series that it picks, each once, in the order of the
/// store, and no others. The places where they stand come back.
pub proof fn law_selector_takes_what_it_picks(v: StoreView, selector: SelectorView) -> (at: Seq<int>)
    requires
        store::store_wf(v),
        listing::indexed(v),
    ensures
        in_order(at, v.series.len() as int),
        at.len() == selected(v, selector).len(),
        forall|k: int|
            0 <= k < at.len() ==> selected(v, selector)[k] == v.series[#[trigger] at[k]].1 && picks(
                selector,
                v.series[at[k]].1.labels,
            ),
        forall|i: int|
            0 <= i < v.series.len() && picks(selector, (#[trigger] v.series[i]).1.labels)
                ==> at.contains(i),
{
    let all = store::candidates_of(v, None);
    let some = store::candidates_of(v, selector.name);
    let named = |s: SeriesView| selector.name matches Some(name) ==> store::name_of(s.labels) == name;
    let pred = |s: SeriesView| all_take(selector.matchers, s.labels);
    let out = selected(v, selector);
    match selector.name {
        Some(name) => {
            listing::law_list_finds_what_a_walk_finds(v, name);
            let own = |s: SeriesView| store::name_of(s.labels) == name;
            assert(own =~= named);
        },
        None => {
            series::lemma_all_kept(all, named);
        },
    }
    assert(some == all.filter(named));
    let first = lemma_filter_places(all, named);
    let second = lemma_filter_places(some, pred);
    let at = lemma_places_compose(first, second, all.len() as int);
    assert forall|k: int| 0 <= k < at.len() implies out[k] == v.series[#[trigger] at[k]].1 && picks(
        selector,
        v.series[at[k]].1.labels,
    ) by {
        let s = v.series[at[k]].1;
        assert(some[second[k]] == all[first[second[k]]]);
        assert(all[at[k]] == s);
        assert(pred(some[second[k]]));
        assert(named(all[first[second[k]]]));
        lemma_takes(selector.matchers, s.labels);
    }
    assert forall|i: int|
        0 <= i < v.series.len() && picks(
            selector,
            (#[trigger] v.series[i]).1.labels,
        ) implies at.contains(i) by {
        let s = v.series[i].1;
        assert(all[i] == s);
        lemma_takes(selector.matchers, s.labels);
        if let Some(name) = selector.name {
            if textmap::lookup(s.labels, "__name__"@) is None {
                assert(name =~= Seq::<char>::empty());
            }
        }
        assert(named(all[i]) && pred(all[i]));
        assert(first.contains(i));
        let j = choose|j: int| 0 <= j < first.len() && first[j] == i;
        assert(some[j] == all[first[j]]);
        assert(pred(some[j]));
        assert(second.contains(j));
        assert(at.contains(first[j]));
    }
    at
}

/// What each series has for a question, where it has something.
spec fn told(all: Seq<SeriesView>, f: spec_fn(SeriesView) -> Option<u64>) -> Seq<Point>
    decreases all.len(),
{
    if all.len() == 0 {
        seq![]
    } else {
        let before = told(all.drop_last(), f);
        match f(all.last()) {
            Some(x) => before.push((unnamed(all.last().labels), x)),
            None => before,
        }
    }
}

proof fn lemma_told_places(all: Seq<SeriesView>, f: spec_fn(SeriesView) -> Option<u64>) -> (at: Seq<
    int,
>)
    ensures
        in_order(at, all.len() as int),
        at.len() == told(all, f).len(),
        forall|k: int|
            0 <= k < at.len() ==> told(all, f)[k].0 == unnamed(all[#[trigger] at[k]].labels) && f(
                all[at[k]],
            ) == Some(told(all, f)[k].1),
        forall|i: int| 0 <= i < all.len() && f(#[trigger] all[i]) is Some ==> at.contains(i),
    decreases all.len(),
{
    if all.len() == 0 {
        seq![]
    } else {
        let init = all.drop_last();
        let n = all.len() - 1;
        let before = lemma_told_places(init, f);
        let at = if f(all.last()) is Some {
            before.push(n)
        } else {
            before
        };
        let out = told(all, f);
        assert forall|k: int| 0 <= k < at.len() implies out[k].0 == unnamed(
            all[#[trigger] at[k]].labels,
        ) && f(all[at[k]]) == Some(out[k].1) by {
            if k < before.len() {
                assert(before[k] == at[k]);
                assert(init[before[k]] == all[at[k]]);
            }
        }
        assert forall|j: int, k: int| 0 <= j < k < at.len() implies (#[trigger] at[j]) < (
        #[trigger] at[k]) by {
            assert(before[j] == at[j]);
            if k < before.len() {
                assert(before[k] == at[k]);
            }
        }
        assert forall|i: int| 0 <= i < all.len() && f(#[trigger] all[i]) is Some implies at.contains(
            i,
        ) by {
            if i < n {
                assert(init[i] == all[i]);
                let k = choose|k: int| 0 <= k < before.len() && before[k] == i;
                assert(at[k] == i);
            } else {
                assert(at[at.len() - 1] == i);
            }
        }
        at
    }
}

proof fn lemma_instants_told(all: Seq<SeriesView>, t: i64)
    ensures
        instant_points(all, t) == told(
            all,
            |s: SeriesView| series::answer(series::all_samples(s), t, LOOKBACK),
        ),
    decreases all.len(),
{
    if all.len() > 0 {
        lemma_instants_told(all.drop_last(), t);
    }
}

proof fn lemma_rates_told(all: Seq<SeriesView>, t: i64, window: i64)
    ensures
        rate_points(all, t, window) == told(
            all,
            |s: SeriesView| rate_over(series::within(series::all_samples(s), t, window)),
        ),
    decreases all.len(),
{
    if all.len() > 0 {
        lemma_rates_told(all.drop_last(), t, window);
    }
}

proof fn lemma_unnamed(labels: Seq<Entry>)
    requires
        textmap::ordered(labels),
    ensures
        nameless(labels, unnamed(labels)),
{
    assert forall|k: Seq<char>| #[trigger]
        textmap::lookup(unnamed(labels), k) == (if k == "__name__"@ {
            None
        } else {
            textmap::lookup(labels, k)
        }) by {
        textmap::law_removed_entry_is_gone(labels, "__name__"@, k);
    }
    textmap::law_removed_entry_is_gone(labels, "__name__"@, "__name__"@);
}

/// A selector answers with the series that it picks and that have a fresh
/// sample, each once, in the order of the store: under the labels of the
/// series without its name, the newest number. The places where the series
/// stand come back.
pub proof fn law_selector_answers(v: StoreView, selector: SelectorView, t: i64) -> (at: Seq<int>)
    requires
        store::store_wf(v),
        listing::indexed(v),
    ensures
        evaluated(v, ExprView::Selector(selector), t) matches ValueView::Vector(out) && {
            &&& in_order(at, v.series.len() as int)
            &&& at.len() == out.len()
            &&& forall|k: int|
                0 <= k < at.len() ==> {
                    let s = v.series[#[trigger] at[k]].1;
                    &&& picks(selector, s.labels)
                    &&& nameless(s.labels, out[k].0)
                    &&& newest_is(series::all_samples(s), t, out[k].1)
                }
            &&& forall|i: int|
                0 <= i < v.series.len() && picks(selector, (#[trigger] v.series[i]).1.labels)
                    && is_fresh(series::all_samples(v.series[i].1), t) ==> at.contains(i)
        },
{
    let all = selected(v, selector);
    let f = |s: SeriesView| series::answer(series::all_samples(s), t, LOOKBACK);
    let out = instant_points(all, t);
    lemma_instants_told(all, t);
    let first = law_selector_takes_what_it_picks(v, selector);
    let second = lemma_told_places(all, f);
    let at = lemma_places_compose(first, second, v.series.len() as int);
    assert forall|k: int| 0 <= k < at.len() implies {
        let s = v.series[#[trigger] at[k]].1;
        &&& picks(selector, s.labels)
        &&& nameless(s.labels, out[k].0)
        &&& newest_is(series::all_samples(s), t, out[k].1)
    } by {
        let s = v.series[at[k]].1;
        assert(all[second[k]] == v.series[first[second[k]]].1);
        assert(f(all[second[k]]) == Some(out[k].1));
        assert(series::series_wf(v.series[at[k]].1));
        series::law_samples_ascend(s);
        law_newest_sample_answers(series::all_samples(s), t);
        lemma_unnamed(s.labels);
    }
    assert forall|i: int|
        0 <= i < v.series.len() && picks(selector, (#[trigger] v.series[i]).1.labels) && is_fresh(
            series::all_samples(v.series[i].1),
            t,
        ) implies at.contains(i) by {
        let s = v.series[i].1;
        assert(series::series_wf(v.series[i].1));
        series::law_samples_ascend(s);
        law_newest_sample_answers(series::all_samples(s), t);
        let j = choose|j: int| 0 <= j < first.len() && first[j] == i;
        assert(all[j] == v.series[first[j]].1);
        assert(f(all[j]) is Some);
        assert(second.contains(j));
        assert(at.contains(first[j]));
    }
    at
}

/// A rate answers with the series that the selector picks and that have two
/// samples in the window, each once, in the order of the store: under the
/// labels of the series without its name, the rate over the window. The
/// places where the series stand come back.
pub proof fn law_rate_answers(v: StoreView, selector: SelectorView, window: i64, t: i64) -> (at: Seq<
    int,
>)
    requires
        store::store_wf(v),
        listing::indexed(v),
    ensures
        evaluated(v, ExprView::Rate(selector, window), t) matches ValueView::Vector(out) && {
            &&& in_order(at, v.series.len() as int)
            &&& at.len() == out.len()
            &&& forall|k: int|
                0 <= k < at.len() ==> {
                    let s = v.series[#[trigger] at[k]].1;
                    &&& picks(selector, s.labels)
                    &&& nameless(s.labels, out[k].0)
                    &&& exists|w: Seq<Sample>| #[trigger]
                        window_of(w, series::all_samples(s), t, window) && w.len() >= 2 && rate_over(w)
                            == Some(out[k].1)
                }
            &&& forall|i: int, w: Seq<Sample>|
                0 <= i < v.series.len() && picks(selector, (#[trigger] v.series[i]).1.labels)
                    && #[trigger] window_of(w, series::all_samples(v.series[i].1), t, window) && w.len()
                    >= 2 ==> at.contains(i)
        },
{
    let all = selected(v, selector);
    let f = |s: SeriesView| rate_over(series::within(series::all_samples(s), t, window));
    let out = rate_points(all, t, window);
    lemma_rates_told(all, t, window);
    let first = law_selector_takes_what_it_picks(v, selector);
    let second = lemma_told_places(all, f);
    let at = lemma_places_compose(first, second, v.series.len() as int);
    assert forall|k: int| 0 <= k < at.len() implies {
        let s = v.series[#[trigger] at[k]].1;
        &&& picks(selector, s.labels)
        &&& nameless(s.labels, out[k].0)
        &&& exists|w: Seq<Sample>| #[trigger]
            window_of(w, series::all_samples(s), t, window) && w.len() >= 2 && rate_over(w) == Some(
                out[k].1,
            )
    } by {
        let s = v.series[at[k]].1;
        assert(all[second[k]] == v.series[first[second[k]]].1);
        assert(f(all[second[k]]) == Some(out[k].1));
        assert(series::series_wf(v.series[at[k]].1));
        series::law_samples_ascend(s);
        law_window_is_half_open(series::all_samples(s), t, window);
        let w = series::within(series::all_samples(s), t, window);
        law_rate_takes_two_samples(w);
        assert(window_of(w, series::all_samples(s), t, window));
        lemma_unnamed(s.labels);
    }
    assert forall|i: int, w: Seq<Sample>|
        0 <= i < v.series.len() && picks(selector, (#[trigger] v.series[i]).1.labels)
            && #[trigger] window_of(w, series::all_samples(v.series[i].1), t, window) && w.len()
            >= 2 implies at.contains(i) by {
        let s = v.series[i].1;
        let own = series::within(series::all_samples(s), t, window);
        assert(series::series_wf(v.series[i].1));
        series::law_samples_ascend(s);
        law_window_is_half_open(series::all_samples(s), t, window);
        assert(w.contains(w[0]) && w.contains(w[1]));
        assert(w[0].t < w[1].t);
        assert(own.contains(w[0]) && own.contains(w[1]));
        law_rate_takes_two_samples(own);
        let j = choose|j: int| 0 <= j < first.len() && first[j] == i;
        assert(all[j] == v.series[first[j]].1);
        assert(f(all[j]) is Some);
        assert(second.contains(j));
        assert(at.contains(first[j]));
    }
    at
}

/// A number comes to itself, and arithmetic to what its operator makes of
/// its left side and its right side, each at the same instant.
pub proof fn law_sides_are_evaluated_first(
    v: StoreView,
    op: BinOp,
    lhs: ExprView,
    rhs: ExprView,
    n: u64,
    t: i64,
)
    ensures
        evaluated(v, ExprView::Number(n), t) == ValueView::Scalar(n),
        ({
            let whole = evaluated(v, ExprView::Binary(op, Box::new(lhs), Box::new(rhs)), t);
            let a = evaluated(v, lhs, t);
            let b = evaluated(v, rhs, t);
            &&& whole == combined(op, a, b)
            &&& a is Scalar && b is Scalar ==> whole is Scalar && comes_to(op, a->Scalar_0, b->Scalar_0, whole->Scalar_0)
            &&& a is Vector || b is Vector ==> whole is Vector
        }),
{
    reveal_with_fuel(evaluated, 2);
}

/// Whether a number is shown for labels at an instant.
pub open spec fn is_shown(ranges: Seq<RangeView>, t: i64, labels: Seq<Entry>, x: u64) -> bool {
    exists|i: int, j: int|
        0 <= i < ranges.len() && 0 <= j < ranges[i].values.len() && ranges[i].labels == labels
            && #[trigger] ranges[i].values[j] == (t, x)
}

/// A range query shows, at its start and every step on from there up to its
/// end, each finite number that the expression then answers with, and shows
/// nothing else. Each label set has one range, in the order of time.
pub proof fn law_range_answers_at_every_step(
    v: StoreView,
    e: ExprView,
    start: i64,
    end: i64,
    step: i64,
    t: i64,
    labels: Seq<Entry>,
    x: u64,
)
    requires
        store::plain_store(v),
        step >= 1,
    ensures
        ({
            let out = ranged(v, e, start, end, step);
            let now = evaluated(v, e, t);
            &&& is_shown(out, t, labels, x) <==> start <= t <= end && (t - start) % (step as int) == 0
                && double::finite(x) && (now matches ValueView::Vector(points) && points.contains(
                (labels, x),
            ))
            &&& forall|i: int, j: int|
                0 <= i < j < out.len() ==> (#[trigger] out[i]).labels != (#[trigger] out[j]).labels
            &&& forall|i: int, j: int, k: int|
                0 <= i < out.len() && 0 <= j < k < out[i].values.len() ==> (
                #[trigger] out[i].values[j]).0 <= (#[trigger] out[i].values[k]).0
            &&& forall|i: int| 0 <= i < out.len() ==> (#[trigger] out[i]).values.len() > 0
        }),
{
    let out = ranged(v, e, start, end, step);
    law_range_shows_every_answer(v, e, start, end, step);
    assert(shown(out, t, labels, x) <==> asked(t, start as int, end, whole_step(step)) && answers(
        v,
        e,
        t,
        labels,
        x,
    ));
    if shown(out, t, labels, x) {
        let i = choose|i: int| 0 <= i < out.len() && shows(#[trigger] out[i], t, labels, x);
        let j = choose|j: int| 0 <= j < out[i].values.len() && out[i].values[j] == (t, x);
        assert(out[i].values[j] == (t, x));
    }
    if is_shown(out, t, labels, x) {
        let (i, j) = choose|i: int, j: int|
            0 <= i < out.len() && 0 <= j < out[i].values.len() && out[i].labels == labels
                && #[trigger] out[i].values[j] == (t, x);
        assert(out[i].values.contains(out[i].values[j]));
        assert(shows(out[i], t, labels, x));
    }
    assert forall|i: int, j: int, k: int|
        0 <= i < out.len() && 0 <= j < k < out[i].values.len() implies (
    #[trigger] out[i].values[j]).0 <= (#[trigger] out[i].values[k]).0 by {
        assert(in_time(out[i]));
    }
    assert forall|i: int| 0 <= i < out.len() implies (#[trigger] out[i]).values.len() > 0 by {
        assert(in_time(out[i]));
    }
}

proof fn lemma_first_places(points: Seq<Point>, by: Option<Seq<Seq<char>>>) -> (at: Seq<int>)
    ensures
        in_order(at, points.len() as int),
        at.len() == groups(points, by).len(),
        forall|k: int|
            0 <= k < at.len() ==> {
                let group = group_of(points[#[trigger] at[k]].0, by);
                groups(points, by)[k].0 == store::key_of(group) && groups(points, by)[k].1.0 == group
            },
    decreases points.len(),
{
    if points.len() == 0 {
        seq![]
    } else {
        let init = points.drop_last();
        let n = points.len() - 1;
        let before = groups(init, by);
        let all = groups(points, by);
        let was = lemma_first_places(init, by);
        let key = store::key_of(group_of(points.last().0, by));
        keyed::lemma_place(before, key);
        let at = if keyed::holds(before, key) {
            was
        } else {
            was.push(n)
        };
        assert forall|k: int| 0 <= k < at.len() implies {
            let group = group_of(points[#[trigger] at[k]].0, by);
            all[k].0 == store::key_of(group) && all[k].1.0 == group
        } by {
            if k < was.len() {
                assert(at[k] == was[k]);
                assert(init[was[k]] == points[was[k]]);
            }
        }
        assert forall|k: int| 0 <= k < at.len() implies 0 <= (#[trigger] at[k]) < points.len() by {
            if k < was.len() {
                assert(at[k] == was[k]);
            }
        }
        assert forall|j: int, k: int| 0 <= j < k < at.len() implies (#[trigger] at[j]) < (
        #[trigger] at[k]) by {
            assert(at[j] == was[j]);
            if k < was.len() {
                assert(at[k] == was[k]);
            }
        }
        at
    }
}

/// The groups of a sum stand in the order in which a point of each came
/// first. The places of points that stand for them come back.
pub proof fn law_groups_keep_the_order_of_points(
    v: StoreView,
    inner: ExprView,
    by: Option<Seq<Seq<char>>>,
    t: i64,
) -> (at: Seq<int>)
    ensures
        ({
            let points = points_of(evaluated(v, inner, t));
            &&& in_order(at, points.len() as int)
            &&& evaluated(v, ExprView::Sum(Box::new(inner), by), t) matches ValueView::Vector(out)
                && out.len() == at.len() && forall|k: int|
                0 <= k < at.len() ==> is_group(points[at[k]].0, by, (#[trigger] out[k]).0)
        }),
{
    reveal_with_fuel(evaluated, 2);
    let points = points_of(evaluated(v, inner, t));
    let at = lemma_first_places(points, by);
    let out = without_keys(groups(points, by));
    assert(evaluated(v, ExprView::Sum(Box::new(inner), by), t) == ValueView::Vector(out));
    assert forall|k: int| 0 <= k < at.len() implies is_group(
        points[at[k]].0,
        by,
        (#[trigger] out[k]).0,
    ) by {
        lemma_group(points[at[k]].0, by, out[k].0);
    }
    at
}

} // verus!
