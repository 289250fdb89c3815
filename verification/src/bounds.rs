//! How much a store can hold: what retention keeps, and what it cannot drop
//! yet because chunks go whole.

use crate::chunk;
use crate::chunk::ChunkView;
use crate::keyed;
use crate::series;
use crate::series::{Sample, SeriesView, MAX_CHUNK_SAMPLES};
use crate::store;
use crate::store::StoreView;
use crate::textmap::Entry;
use vstd::prelude::*;

verus! {

/// Whether samples were sealed as soon as they were to be: without the last
/// of them there were too few, and they did not reach far enough.
pub open spec fn tight(samples: Seq<Sample>, retention: i64) -> bool {
    samples.len() > 0 && !series::seals(samples.drop_last(), retention)
}

/// Whether a series holds no more in a chunk, or in its head, than it has
/// to.
pub open spec fn compact(s: SeriesView, retention: i64) -> bool {
    &&& !series::seals(s.head, retention)
    &&& forall|i: int|
        0 <= i < s.chunks.len() ==> tight(chunk::decoded(#[trigger] s.chunks[i]).0, retention)
}

/// Whether every series of a store is compact.
pub open spec fn all_compact(v: StoreView) -> bool {
    forall|i: int| 0 <= i < v.series.len() ==> compact((#[trigger] v.series[i]).1, v.retention)
}

/// A chunk of a compact series has at most so many samples, and all but the
/// last of them lie within a fraction of the retention.
pub proof fn law_chunks_are_short(s: SeriesView, retention: i64, i: int)
    requires
        series::series_wf(s),
        compact(s, retention),
        0 <= i < s.chunks.len(),
    ensures
        s.chunks[i].count <= MAX_CHUNK_SAMPLES,
        s.chunks[i].count > 2 ==> chunk::decoded(s.chunks[i]).0[s.chunks[i].count - 2].t
            - s.chunks[i].first_t < retention as int / (series::MAX_CHUNK_SPAN_FRACTION as int),
{
    assert(series::sound(s.chunks[i]));
    series::lemma_sound(s.chunks[i]);
    assert(tight(chunk::decoded(s.chunks[i]).0, retention));
}

/// A sample that is pushed keeps a series compact.
pub proof fn law_push_keeps_compact(s: SeriesView, sample: Sample, retention: i64)
    requires
        series::series_wf(s),
        series::last_time(s) matches Some(last) ==> last < sample.t,
        series::reaches(s.head, sample.t),
        compact(s, retention),
    ensures
        compact(series::pushed(s, sample, retention), retention),
{
    let longer = s.head.push(sample);
    let out = series::pushed(s, sample, retention);
    assert(longer.drop_last() =~= s.head);
    if series::seals(longer, retention) {
        series::lemma_longer_encodable(s.head, sample);
        chunk::law_chunk_is_lossless(longer);
        assert forall|i: int| 0 <= i < out.chunks.len() implies tight(
            chunk::decoded(#[trigger] out.chunks[i]).0,
            retention,
        ) by {
            if i < s.chunks.len() {
                assert(tight(chunk::decoded(s.chunks[i]).0, retention));
            }
        }
    }
}

/// Pruning keeps a series compact.
pub proof fn law_prune_keeps_compact(s: SeriesView, cutoff: int, retention: i64)
    requires
        series::series_wf(s),
        compact(s, retention),
    ensures
        compact(series::pruned(s, cutoff), retention),
{
    let p = series::pruned(s, cutoff);
    let keep_chunk = |c: ChunkView| c.last_t >= cutoff;
    let keep_sample = |x: Sample| x.t >= cutoff;
    assert forall|i: int| 0 <= i < p.chunks.len() implies tight(
        chunk::decoded(#[trigger] p.chunks[i]).0,
        retention,
    ) by {
        s.chunks.lemma_filter_contains_rev(keep_chunk, p.chunks[i]);
        let j = choose|j: int| 0 <= j < s.chunks.len() && s.chunks[j] == p.chunks[i];
        assert(tight(chunk::decoded(s.chunks[j]).0, retention));
    }
    s.head.lemma_filter_len(keep_sample);
    if p.head.len() > 1 {
        s.head.lemma_filter_contains_rev(keep_sample, p.head[0]);
        s.head.lemma_filter_contains_rev(keep_sample, p.head.last());
        let a = choose|a: int| 0 <= a < s.head.len() && s.head[a] == p.head[0];
        let b = choose|b: int| 0 <= b < s.head.len() && s.head[b] == p.head.last();
        if a > 0 {
            assert(s.head[0].t < s.head[a].t);
        }
        if b < s.head.len() - 1 {
            assert(s.head[b].t < s.head[s.head.len() - 1].t);
        }
    }
}

/// Only the oldest chunk that pruning leaves can hold samples older than
/// the cutoff, and its last sample is not.
pub proof fn law_prune_leaves_one_overhang(s: SeriesView, cutoff: int)
    requires
        series::series_wf(s),
    ensures
        forall|i: int|
            0 <= i < series::all_samples(series::pruned(s, cutoff)).len() && (series::pruned(
                s,
                cutoff,
            ).chunks.len() > 0 ==> i >= series::pruned(s, cutoff).chunks[0].count - 1) ==> (
            #[trigger] series::all_samples(series::pruned(s, cutoff))[i]).t >= cutoff,
{
    let p = series::pruned(s, cutoff);
    let all = series::all_samples(p);
    series::law_prune_drops_old_samples(s, cutoff);
    series::law_samples_ascend(p);
    if p.chunks.len() > 0 {
        s.chunks.lemma_filter_pred(|c: ChunkView| c.last_t >= cutoff, 0);
        let first = p.chunks[0];
        assert(series::sound(first));
        series::lemma_sound(first);
        let at = series::lemma_within_chunk(p, 0, first.count - 1);
        assert(p.chunks.take(0) =~= seq![]);
        assert(at == first.count - 1);
        assert forall|i: int| 0 <= i < all.len() && i >= first.count - 1 implies (
        #[trigger] all[i]).t >= cutoff by {
            if i > at {
                assert(all[at].t < all[i].t);
            }
        }
    } else if p.head.len() > 0 {
        s.head.lemma_filter_pred(|x: Sample| x.t >= cutoff, 0);
        assert(all =~= p.head);
        assert forall|i: int| 0 <= i < all.len() implies (#[trigger] all[i]).t >= cutoff by {
            if i > 0 {
                assert(all[0].t < all[i].t);
            }
        }
    }
}

/// A sample that comes in keeps every series compact.
pub proof fn law_append_keeps_compact(v: StoreView, labels: Seq<Entry>, sample: Sample)
    requires
        store::store_wf(v),
        store::takes(v, labels, sample.t),
        all_compact(v),
    ensures
        all_compact(store::appended(v, labels, sample)),
{
    let key = store::key_of(labels);
    let out = store::appended(v, labels, sample);
    keyed::lemma_place(v.series, key);
    match keyed::found(v.series, key) {
        Some(s) => {
            let at = keyed::place(v.series, key) as int;
            assert(series::series_wf(v.series[at].1));
            assert(compact(v.series[at].1, v.retention));
            if !(series::last_time(s) matches Some(last) && sample.t <= last) {
                law_push_keeps_compact(s, sample, v.retention);
            }
        },
        None => {
            let none = series::empty_series(labels);
            law_push_keeps_compact(none, sample, v.retention);
        },
    }
    assert forall|i: int| 0 <= i < out.series.len() implies compact(
        (#[trigger] out.series[i]).1,
        out.retention,
    ) by {
        if i < v.series.len() {
            assert(compact(v.series[i].1, v.retention));
        }
    }
}

/// However long a store runs, once it is pruned a series holds at most one
/// chunk's worth of samples older than the retention, less one.
pub proof fn law_store_is_bounded_by_retention(v: StoreView, now: i64)
    requires
        store::store_wf(v),
        all_compact(v),
    ensures
        all_compact(store::store_pruned(v, now)),
        forall|k: int, i: int|
            0 <= k < store::store_pruned(v, now).series.len() && MAX_CHUNK_SAMPLES - 1 <= i
                < series::all_samples(
                (#[trigger] store::store_pruned(v, now).series[k]).1,
            ).len() ==> (#[trigger] series::all_samples(
                store::store_pruned(v, now).series[k].1,
            )[i]).t >= now - v.retention,
{
    let cutoff = now - v.retention;
    let aged = store::all_pruned(v.series, cutoff);
    let out = store::store_pruned(v, now);
    let keep = |e: (Seq<char>, SeriesView)| !series::series_empty(e.1);
    assert forall|k: int| 0 <= k < out.series.len() implies compact(
        (#[trigger] out.series[k]).1,
        out.retention,
    ) && forall|i: int|
        MAX_CHUNK_SAMPLES - 1 <= i < series::all_samples(out.series[k].1).len() ==> (
        #[trigger] series::all_samples(out.series[k].1)[i]).t >= cutoff by {
        aged.lemma_filter_contains_rev(keep, out.series[k]);
        let j = choose|j: int| 0 <= j < aged.len() && aged[j] == out.series[k];
        let s = v.series[j].1;
        assert(compact(s, v.retention));
        assert(series::series_wf(s));
        law_prune_keeps_compact(s, cutoff, v.retention);
        law_prune_leaves_one_overhang(s, cutoff);
        series::law_prune_drops_old_samples(s, cutoff);
        if out.series[k].1.chunks.len() > 0 {
            law_chunks_are_short(out.series[k].1, v.retention, 0);
        }
    }
}

} // verus!
