//! The list of names that a store keeps is only ever a shortcut: it lists
//! each series once, under its own name, in the order of the store. So what
//! a query comes to depends on the series alone.

use crate::keyed;
use crate::promql::eval;
use crate::promql::{ExprView, SelectorView};
use crate::series;
use crate::snapshot;
use crate::store;
use crate::store::{Sample, SeriesView, StoreView};
use crate::textmap::Entry;
use vstd::prelude::*;

verus! {

/// The keys of the series with a name, in the order in which they stand.
pub open spec fn listing(series: Seq<(Seq<char>, SeriesView)>, name: Seq<char>) -> Seq<Seq<char>>
    decreases series.len(),
{
    if series.len() == 0 {
        seq![]
    } else {
        let before = listing(series.drop_last(), name);
        if store::name_of(series.last().1.labels) == name {
            before.push(series.last().0)
        } else {
            before
        }
    }
}

/// Whether every name lists the series that have it, and no others.
pub open spec fn indexed(v: StoreView) -> bool {
    forall|name: Seq<char>| #[trigger]
        store::keys_under(v.names, name) == listing(v.series, name)
}

/// A store with nothing in it lists nothing.
pub proof fn law_new_store_is_indexed(retention: i64)
    ensures
        indexed(StoreView { series: seq![], names: seq![], retention }),
{
    let v = StoreView { series: seq![], names: seq![], retention };
    assert forall|name: Seq<char>| #[trigger] store::keys_under(v.names, name) == listing(
        v.series,
        name,
    ) by {
        keyed::lemma_place(v.names, name);
    }
}

/// Keys and names alone decide what is listed.
proof fn lemma_listing_by_labels(
    a: Seq<(Seq<char>, SeriesView)>,
    b: Seq<(Seq<char>, SeriesView)>,
    name: Seq<char>,
)
    requires
        a.len() == b.len(),
        forall|i: int|
            0 <= i < a.len() ==> (#[trigger] a[i]).0 == b[i].0 && a[i].1.labels == b[i].1.labels,
    ensures
        listing(a, name) == listing(b, name),
    decreases a.len(),
{
    if a.len() > 0 {
        assert(a[a.len() - 1].0 == b[a.len() - 1].0);
        assert forall|i: int| 0 <= i < a.len() - 1 implies (#[trigger] a.drop_last()[i]).0
            == b.drop_last()[i].0 && a.drop_last()[i].1.labels == b.drop_last()[i].1.labels by {
            assert(a[i].0 == b[i].0);
        }
        lemma_listing_by_labels(a.drop_last(), b.drop_last(), name);
    }
}

/// What is listed stands in the series.
proof fn lemma_listed_stands(
    series: Seq<(Seq<char>, SeriesView)>,
    name: Seq<char>,
    key: Seq<char>,
)
    requires
        listing(series, name).contains(key),
    ensures
        exists|i: int|
            0 <= i < series.len() && (#[trigger] series[i]).0 == key && store::name_of(
                series[i].1.labels,
            ) == name,
    decreases series.len(),
{
    if series.len() > 0 {
        let init = series.drop_last();
        let before = listing(init, name);
        let out = listing(series, name);
        let x = choose|x: int| 0 <= x < out.len() && out[x] == key;
        if x < before.len() {
            assert(before[x] == key);
            lemma_listed_stands(init, name, key);
            let i = choose|i: int|
                0 <= i < init.len() && (#[trigger] init[i]).0 == key && store::name_of(
                    init[i].1.labels,
                ) == name;
            assert(series[i] == init[i]);
        } else {
            assert(series[series.len() - 1].0 == key);
        }
    }
}

/// Putting in a series whose key is new keeps the list right.
pub proof fn law_new_series_keeps_index(v: StoreView, s: SeriesView)
    requires
        store::store_wf(v),
        indexed(v),
        !keyed::holds(v.series, store::key_of(s.labels)),
    ensures
        indexed(store::with_series(v, s)),
{
    let out = store::with_series(v, s);
    let key = store::key_of(s.labels);
    let under = store::name_of(s.labels);
    let keys = store::keys_under(v.names, under).push(key);
    assert forall|name: Seq<char>| #[trigger] store::keys_under(out.names, name) == listing(
        out.series,
        name,
    ) by {
        keyed::law_put_is_found(v.names, under, keys, name);
        assert(store::keys_under(v.names, name) == listing(v.series, name));
        assert(out.series.drop_last() =~= v.series);
    }
}

/// A sample that comes in keeps the list right.
pub proof fn law_append_keeps_index(v: StoreView, labels: Seq<Entry>, sample: Sample)
    requires
        store::store_wf(v),
        indexed(v),
    ensures
        indexed(store::appended(v, labels, sample)),
{
    let key = store::key_of(labels);
    let out = store::appended(v, labels, sample);
    match keyed::found(v.series, key) {
        Some(s) => {
            keyed::lemma_place(v.series, key);
            assert forall|name: Seq<char>| #[trigger] store::keys_under(out.names, name) == listing(
                out.series,
                name,
            ) by {
                assert(store::keys_under(v.names, name) == listing(v.series, name));
                lemma_listing_by_labels(v.series, out.series, name);
            }
        },
        None => {
            law_new_series_keeps_index(
                v,
                series::pushed(series::empty_series(labels), sample, v.retention),
            );
        },
    }
}

/// Whether a key is that of a series which holds nothing.
pub open spec fn gone(series: Seq<(Seq<char>, SeriesView)>, key: Seq<char>) -> bool {
    exists|i: int|
        0 <= i < series.len() && (#[trigger] series[i]).0 == key && series::series_empty(series[i].1)
}

/// Keys without those of series which hold nothing.
pub open spec fn left_of(keys: Seq<Seq<char>>, series: Seq<(Seq<char>, SeriesView)>) -> Seq<Seq<char>> {
    keys.filter(|k: Seq<char>| !gone(series, k))
}

proof fn lemma_gone_grows(series: Seq<(Seq<char>, SeriesView)>, key: Seq<char>)
    requires
        series.len() > 0,
    ensures
        gone(series, key) <==> gone(series.drop_last(), key) || (series.last().0 == key
            && series::series_empty(series.last().1)),
{
    let init = series.drop_last();
    if gone(init, key) {
        let i = choose|i: int|
            0 <= i < init.len() && (#[trigger] init[i]).0 == key && series::series_empty(init[i].1);
        assert(series[i] == init[i]);
    }
    if gone(series, key) {
        let i = choose|i: int|
            0 <= i < series.len() && (#[trigger] series[i]).0 == key && series::series_empty(
                series[i].1,
            );
        if i < init.len() {
            assert(init[i] == series[i]);
        }
    }
    if series.last().0 == key && series::series_empty(series.last().1) {
        assert(series[series.len() - 1].0 == key);
    }
}

/// Taking off what is gone so far and then the last one is taking off all
/// that is gone.
proof fn lemma_left_goes_on(keys: Seq<Seq<char>>, series: Seq<(Seq<char>, SeriesView)>)
    requires
        series.len() > 0,
        series::series_empty(series.last().1),
    ensures
        store::without_key(left_of(keys, series.drop_last()), series.last().0) == left_of(
            keys,
            series,
        ),
    decreases keys.len(),
{
    reveal(Seq::filter);
    if keys.len() > 0 {
        lemma_left_goes_on(keys.drop_last(), series);
        lemma_gone_grows(series, keys.last());
        let kept = left_of(keys, series.drop_last());
        if !gone(series.drop_last(), keys.last()) {
            assert(kept.drop_last() =~= left_of(keys.drop_last(), series.drop_last()));
        }
        assert(store::without_key(kept, series.last().0) =~= left_of(keys, series));
    } else {
        assert(left_of(keys, series.drop_last()) =~= seq![]);
        assert(store::without_key(seq![], series.last().0) =~= seq![]);
        assert(left_of(keys, series) =~= seq![]);
    }
}

/// What is gone does not matter where it is not among the keys.
proof fn lemma_left_without(keys: Seq<Seq<char>>, series: Seq<(Seq<char>, SeriesView)>)
    requires
        series.len() > 0,
        !series::series_empty(series.last().1) || !keys.contains(series.last().0),
    ensures
        left_of(keys, series.drop_last()) == left_of(keys, series),
    decreases keys.len(),
{
    reveal(Seq::filter);
    if keys.len() > 0 {
        let init = keys.drop_last();
        if init.contains(series.last().0) {
            let i = choose|i: int| 0 <= i < init.len() && init[i] == series.last().0;
            assert(keys[i] == series.last().0);
        }
        lemma_left_without(init, series);
        lemma_gone_grows(series, keys.last());
        if keys.last() == series.last().0 {
            assert(keys[keys.len() - 1] == series.last().0);
        }
    }
}

/// What a name lists once the series that hold nothing were taken off.
proof fn lemma_names_left(
    names: Seq<(Seq<char>, Seq<Seq<char>>)>,
    all: Seq<(Seq<char>, SeriesView)>,
    n: nat,
    name: Seq<char>,
)
    requires
        keyed::distinct(names),
        keyed::distinct(all),
        n <= all.len(),
        forall|name: Seq<char>| #[trigger] store::keys_under(names, name) == listing(all, name),
    ensures
        keyed::distinct(store::names_of_rest(names, all.take(n as int))),
        store::keys_under(store::names_of_rest(names, all.take(n as int)), name) == left_of(
            store::keys_under(names, name),
            all.take(n as int),
        ),
    decreases n,
{
    let some = all.take(n as int);
    let keys = store::keys_under(names, name);
    if n == 0 {
        lemma_nothing_gone(keys, some);
    } else {
        let k = (n - 1) as nat;
        let e = all[k as int];
        let under = store::name_of(e.1.labels);
        lemma_names_left(names, all, k, name);
        lemma_names_left(names, all, k, under);
        assert(some.drop_last() =~= all.take(k as int));
        assert(some.last() == e);
        let before = store::names_of_rest(names, all.take(k as int));
        if series::series_empty(e.1) {
            keyed::lemma_place(before, under);
            if name == under {
                lemma_left_goes_on(keys, some);
            } else {
                if keys.contains(e.0) {
                    lemma_listed_stands(all, name, e.0);
                    let i = choose|i: int|
                        0 <= i < all.len() && (#[trigger] all[i]).0 == e.0 && store::name_of(
                            all[i].1.labels,
                        ) == name;
                    if i < k {
                        assert(all[i].0 != all[k as int].0);
                    } else if i > k {
                        assert(all[k as int].0 != all[i].0);
                    }
                }
                lemma_left_without(keys, some);
            }
            match keyed::found(before, under) {
                None => {
                    if name == under {
                        assert(left_of(keys, all.take(k as int)) =~= seq![]);
                        reveal(Seq::filter);
                        assert(store::without_key(seq![], e.0) =~= seq![]);
                    }
                },
                Some(listed) => {
                    let left = store::without_key(listed, e.0);
                    keyed::lemma_put_distinct(before, under, left);
                    keyed::law_put_is_found(before, under, left, name);
                    keyed::law_remove_keeps_others(
                        before,
                        keyed::place(before, under) as int,
                        name,
                    );
                    if left.len() == 0 {
                        assert(left =~= seq![]);
                    }
                },
            }
        } else {
            lemma_left_without(keys, some);
        }
    }
}

proof fn lemma_nothing_gone(keys: Seq<Seq<char>>, series: Seq<(Seq<char>, SeriesView)>)
    requires
        series.len() == 0,
    ensures
        left_of(keys, series) == keys,
    decreases keys.len(),
{
    reveal(Seq::filter);
    if keys.len() > 0 {
        lemma_nothing_gone(keys.drop_last(), series);
        assert(!gone(series, keys.last()));
        assert(left_of(keys, series) =~= keys);
    } else {
        assert(left_of(keys, series) =~= keys);
    }
}

/// The series that hold something are listed as what is left.
proof fn lemma_listing_left(all: Seq<(Seq<char>, SeriesView)>, n: nat, name: Seq<char>)
    requires
        keyed::distinct(all),
        n <= all.len(),
    ensures
        left_of(listing(all.take(n as int), name), all) == listing(
            store::nonempty(all.take(n as int)),
            name,
        ),
    decreases n,
{
    reveal(Seq::filter);
    let some = all.take(n as int);
    if n == 0 {
        assert(listing(some, name) =~= seq![]);
        assert(left_of(seq![], all) =~= seq![]);
        assert(store::nonempty(some) =~= seq![]);
    } else {
        let k = (n - 1) as nat;
        let e = all[k as int];
        lemma_listing_left(all, k, name);
        assert(some.drop_last() =~= all.take(k as int));
        assert(some.last() == e);
        let before = listing(all.take(k as int), name);
        let rest = store::nonempty(all.take(k as int));
        if gone(all, e.0) {
            let i = choose|i: int|
                0 <= i < all.len() && (#[trigger] all[i]).0 == e.0 && series::series_empty(all[i].1);
            if i < k {
                assert(all[i].0 != all[k as int].0);
            } else if i > k {
                assert(all[k as int].0 != all[i].0);
            }
        }
        if !series::series_empty(e.1) {
            assert(store::nonempty(some) =~= rest.push(e));
            assert(rest.push(e).drop_last() =~= rest);
        } else {
            assert(gone(all, e.0));
            assert(store::nonempty(some) =~= rest);
        }
        if store::name_of(e.1.labels) == name {
            assert(listing(some, name).drop_last() =~= before);
            if series::series_empty(e.1) {
                assert(left_of(listing(some, name), all) =~= left_of(before, all));
            } else {
                assert(left_of(listing(some, name), all) =~= left_of(before, all).push(e.0));
            }
        }
    }
}

/// Pruning keeps the list right.
pub proof fn law_prune_keeps_index(v: StoreView, now: i64)
    requires
        store::store_wf(v),
        indexed(v),
    ensures
        indexed(store::store_pruned(v, now)),
{
    let aged = store::all_pruned(v.series, now - v.retention);
    let out = store::store_pruned(v, now);
    assert forall|i: int, j: int| 0 <= i < j < aged.len() implies (#[trigger] aged[i]).0 != (
    #[trigger] aged[j]).0 by {
        assert(v.series[i].0 != v.series[j].0);
    }
    assert(aged.take(aged.len() as int) =~= aged);
    assert forall|name: Seq<char>| #[trigger] store::keys_under(v.names, name) == listing(
        aged,
        name,
    ) by {
        lemma_listing_by_labels(v.series, aged, name);
    }
    assert forall|name: Seq<char>| #[trigger] store::keys_under(out.names, name) == listing(
        out.series,
        name,
    ) by {
        lemma_names_left(v.names, aged, aged.len(), name);
        lemma_listing_left(aged, aged.len(), name);
        assert(store::keys_under(v.names, name) == listing(aged, name));
    }
}

/// The series under the keys that a name lists are the series with that
/// name.
proof fn lemma_under_listing(all: Seq<(Seq<char>, SeriesView)>, n: nat, name: Seq<char>)
    requires
        keyed::distinct(all),
        n <= all.len(),
    ensures
        store::series_under(all, listing(all.take(n as int), name)) == all.take(n as int).map_values(
            |e: (Seq<char>, SeriesView)| e.1,
        ).filter(|s: SeriesView| store::name_of(s.labels) == name),
    decreases n,
{
    reveal(Seq::filter);
    let some = all.take(n as int);
    let bare = |e: (Seq<char>, SeriesView)| e.1;
    let named = |s: SeriesView| store::name_of(s.labels) == name;
    if n == 0 {
        assert(some.map_values(bare) =~= seq![]);
        assert(some.map_values(bare).filter(named) =~= seq![]);
        assert(listing(some, name) =~= seq![]);
    } else {
        let k = (n - 1) as nat;
        let e = all[k as int];
        lemma_under_listing(all, k, name);
        assert(some.drop_last() =~= all.take(k as int));
        assert(some.last() == e);
        assert(some.map_values(bare).drop_last() =~= all.take(k as int).map_values(bare));
        assert(some.map_values(bare).last() == e.1);
        if store::name_of(e.1.labels) == name {
            keyed::lemma_place_is(all, e.0, k as int);
            assert(listing(some, name).drop_last() =~= listing(all.take(k as int), name));
        }
    }
}

/// Going by the list finds the series with a name that a walk through the
/// whole store would find, in the same order.
pub proof fn law_list_finds_what_a_walk_finds(v: StoreView, name: Seq<char>)
    requires
        store::store_wf(v),
        indexed(v),
    ensures
        store::candidates_of(v, Some(name)) == store::candidates_of(v, None).filter(
            |s: SeriesView| store::name_of(s.labels) == name,
        ),
{
    assert(v.series.take(v.series.len() as int) =~= v.series);
    lemma_under_listing(v.series, v.series.len(), name);
    assert(store::keys_under(v.names, name) == listing(v.series, name));
}

proof fn lemma_selected_alike(a: StoreView, b: StoreView, selector: SelectorView)
    requires
        indexed(a),
        indexed(b),
        a.series == b.series,
    ensures
        eval::selected(a, selector) == eval::selected(b, selector),
{
    if let Some(name) = selector.name {
        assert(store::keys_under(a.names, name) == store::keys_under(b.names, name));
    }
}

/// Two stores with the same series answer every query alike.
pub proof fn law_same_series_answer_alike(a: StoreView, b: StoreView, e: ExprView, t: i64)
    requires
        indexed(a),
        indexed(b),
        a.series == b.series,
    ensures
        eval::evaluated(a, e, t) == eval::evaluated(b, e, t),
    decreases e,
{
    match e {
        ExprView::Number(_) => {},
        ExprView::Selector(selector) => lemma_selected_alike(a, b, selector),
        ExprView::Rate(selector, _) => lemma_selected_alike(a, b, selector),
        ExprView::Sum(inner, _) => law_same_series_answer_alike(a, b, *inner, t),
        ExprView::Binary(_, lhs, rhs) => {
            law_same_series_answer_alike(a, b, *lhs, t);
            law_same_series_answer_alike(a, b, *rhs, t);
        },
    }
}

/// A store that is restored from its snapshot answers every query as the
/// store itself would have, had it gone on and dropped what has aged out
/// meanwhile.
pub proof fn law_restored_store_answers_alike(v: StoreView, now: i64, e: ExprView, t: i64)
    requires
        store::store_wf(v),
        indexed(v),
        snapshot::store_storable(v),
    ensures
        snapshot::loaded(snapshot::saved(v), v.retention, now) matches Ok(out) && eval::evaluated(
            out,
            e,
            t,
        ) == eval::evaluated(store::store_pruned(v, now), e, t),
{
    snapshot::law_snapshot_round_trips(v, v.retention, now);
    law_prune_keeps_index(v, now);
    match snapshot::loaded(snapshot::saved(v), v.retention, now) {
        Ok(out) => law_same_series_answer_alike(out, store::store_pruned(v, now), e, t),
        Err(_) => {},
    }
}

} // verus!
