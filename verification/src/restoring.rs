//! What a snapshot has to be like, and what is left of a store that is
//! restored from one.

use crate::bytes;
use crate::chunk::ChunkView;
use crate::keyed;
use crate::series;
use crate::series::SeriesView;
use crate::snapshot;
use crate::snapshot::SnapshotError;
use crate::store;
use crate::store::{Sample, StoreView};
use crate::textmap;
use crate::textmap::Entry;
use vstd::prelude::*;
use vstd::utf8;

verus! {

/// The number that two bytes make, the lower first.
pub open spec fn two(s: Seq<u8>, at: int) -> int {
    s[at] + 256 * s[at + 1]
}

/// The number that four bytes make, the lowest first.
pub open spec fn four(s: Seq<u8>, at: int) -> int {
    s[at] + 256 * s[at + 1] + 65536 * s[at + 2] + 16777216 * s[at + 3]
}

proof fn lemma_two(s: Seq<u8>)
    requires
        s.len() >= 2,
    ensures
        bytes::number(s.take(2)) == two(s, 0),
{
    reveal_with_fuel(bytes::number, 3);
    let t = s.take(2);
    assert(t.skip(1) =~= seq![s[1]]);
    assert(t.skip(1).skip(1) =~= seq![]);
}

proof fn lemma_four(s: Seq<u8>)
    requires
        s.len() >= 4,
    ensures
        bytes::number(s.take(4)) == four(s, 0),
{
    reveal_with_fuel(bytes::number, 5);
    let t = s.take(4);
    assert(t.skip(1) =~= seq![s[1], s[2], s[3]]);
    assert(seq![s[1], s[2], s[3]].skip(1) =~= seq![s[2], s[3]]);
    assert(seq![s[2], s[3]].skip(1) =~= seq![s[3]]);
    assert(seq![s[3]].skip(1) =~= seq![]);
    assert(bytes::number(seq![s[3]]) == s[3]);
    assert(bytes::number(seq![s[2], s[3]]) == s[2] + 256 * s[3]);
    assert(bytes::number(seq![s[1], s[2], s[3]]) == s[1] + 256 * s[2] + 65536 * s[3]);
}

/// A snapshot starts with `LMD1`, the version of its layout, which is one or
/// two, and the number of its series, at most a million. Anything else is
/// refused.
pub proof fn law_strange_headers_are_refused(s: Seq<u8>, retention: i64, now: i64)
    ensures
        s.len() < 4 ==> snapshot::loaded(s, retention, now) == Err::<StoreView, SnapshotError>(
            SnapshotError::NoHeader,
        ),
        s.len() >= 4 && !(s[0] == 0x4c && s[1] == 0x4d && s[2] == 0x44 && s[3] == 0x31)
            ==> snapshot::loaded(s, retention, now) == Err::<StoreView, SnapshotError>(
            SnapshotError::NotASnapshot,
        ),
        s.len() >= 4 && s[0] == 0x4c && s[1] == 0x4d && s[2] == 0x44 && s[3] == 0x31 ==> {
            &&& s.len() < 6 ==> snapshot::loaded(s, retention, now) == Err::<
                StoreView,
                SnapshotError,
            >(SnapshotError::UnexpectedEnd)
            &&& s.len() >= 6 && two(s, 4) != 1 && two(s, 4) != 2 ==> snapshot::loaded(
                s,
                retention,
                now,
            ) == Err::<StoreView, SnapshotError>(
                SnapshotError::UnsupportedVersion(two(s, 4) as u16),
            )
            &&& 6 <= s.len() < 10 && (two(s, 4) == 1 || two(s, 4) == 2) ==> snapshot::loaded(
                s,
                retention,
                now,
            ) == Err::<StoreView, SnapshotError>(SnapshotError::UnexpectedEnd)
            &&& s.len() >= 10 && (two(s, 4) == 1 || two(s, 4) == 2) && four(s, 6) > 1_000_000
                ==> snapshot::loaded(s, retention, now) == Err::<StoreView, SnapshotError>(
                SnapshotError::SeriesCount(four(s, 6) as u32),
            )
            &&& s.len() >= 10 && (two(s, 4) == 1 || two(s, 4) == 2) && four(s, 6) == 0
                ==> snapshot::loaded(s, retention, now) == Ok::<StoreView, SnapshotError>(
                StoreView { series: seq![], names: seq![], retention },
            )
        },
{
    if s.len() >= 4 {
        let m = s.take(4);
        assert(m[0] == s[0] && m[1] == s[1] && m[2] == s[2] && m[3] == s[3]);
        let magic = seq![0x4cu8, 0x4d, 0x44, 0x31];
        assert(magic[0] == 0x4c && magic[1] == 0x4d && magic[2] == 0x44 && magic[3] == 0x31);
        if s[0] == 0x4c && s[1] == 0x4d && s[2] == 0x44 && s[3] == 0x31 {
            assert(m =~= snapshot::magic());
        }
        let after = s.skip(4);
        if s.len() >= 6 {
            lemma_two(after);
            assert(after[0] == s[4] && after[1] == s[5]);
            let rest = after.skip(2);
            if s.len() >= 10 {
                lemma_four(rest);
                assert(rest[0] == s[6] && rest[1] == s[7] && rest[2] == s[8] && rest[3] == s[9]);
            }
        }
    }
}

proof fn lemma_taken(n: nat, width: nat, rest: Seq<u8>)
    requires
        n < bytes::span(width),
    ensures
        snapshot::take_number(bytes::little(n, width) + rest, width) == Ok::<
            (nat, Seq<u8>),
            SnapshotError,
        >((n, rest)),
{
    bytes::law_little_reads_back(n, width);
    let s = bytes::little(n, width) + rest;
    assert(s.take(width as int) =~= bytes::little(n, width));
    assert(s.skip(width as int) =~= rest);
}

/// Texts of up to 4096 bytes are read, longer ones refused.
pub proof fn law_texts_have_a_limit(s: Seq<char>, rest: Seq<u8>)
    ensures
        utf8::encode_utf8(s).len() <= 4096 ==> snapshot::take_text(snapshot::text_bytes(s) + rest)
            == Ok::<(Seq<char>, Seq<u8>), SnapshotError>((s, rest)),
        4096 < utf8::encode_utf8(s).len() <= 65535 ==> snapshot::take_text(
            snapshot::text_bytes(s) + rest,
        ) == Err::<(Seq<char>, Seq<u8>), SnapshotError>(
            SnapshotError::StringLength(utf8::encode_utf8(s).len() as u16),
        ),
{
    if utf8::encode_utf8(s).len() <= 4096 {
        snapshot::law_text_reads_back(s, rest);
    } else {
        snapshot::law_long_text_is_refused(s, rest);
    }
}

/// Counts that are implausible are refused before anything is read for
/// them: more than 256 labels, ten million samples, or a hundred thousand
/// chunks in a series.
pub proof fn law_implausible_counts_are_refused(
    n: nat,
    rest: Seq<u8>,
    labels: Seq<Entry>,
    raw: bool,
    cutoff: int,
    v: StoreView,
)
    ensures
        256 < n <= 65535 ==> snapshot::take_series(bytes::little(n, 2) + rest, raw, cutoff, v) == Err::<
            (StoreView, Seq<u8>),
            SnapshotError,
        >(SnapshotError::LabelCount(n as u16)),
        10_000_000 < n <= u32::MAX ==> snapshot::take_raw_series(
            bytes::little(n, 4) + rest,
            labels,
            cutoff,
            v,
        ) == Err::<(StoreView, Seq<u8>), SnapshotError>(SnapshotError::SampleCount(n as u32)),
        100_000 < n <= u32::MAX ==> snapshot::take_chunked_series(
            bytes::little(n, 4) + rest,
            labels,
            cutoff,
            v,
        ) == Err::<(StoreView, Seq<u8>), SnapshotError>(SnapshotError::ChunkCount(n as u32)),
{
    bytes::lemma_span();
    if n <= 65535 {
        lemma_taken(n, 2, rest);
    }
    if n <= u32::MAX {
        lemma_taken(n, 4, rest);
    }
}

/// A chunk is refused that claims no sample or more than 65536, that ends
/// before it starts, or that has more than sixteen megabytes.
pub proof fn law_implausible_chunks_are_refused(
    first: i64,
    last: i64,
    count: u32,
    size: u32,
    rest: Seq<u8>,
)
    ensures
        ({
            let s = bytes::little(bytes::bits_of(first) as nat, 8) + (bytes::little(
                bytes::bits_of(last) as nat,
                8,
            ) + (bytes::little(count as nat, 4) + (bytes::little(size as nat, 4) + rest)));
            let got = snapshot::take_chunk(s);
            &&& count == 0 || count > 65_536 ==> got == Err::<
                (ChunkView, Seq<u8>),
                SnapshotError,
            >(SnapshotError::ChunkSampleCount(count))
            &&& 0 < count <= 65_536 && last < first ==> got == Err::<
                (ChunkView, Seq<u8>),
                SnapshotError,
            >(SnapshotError::ChunkEndsFirst)
            &&& 0 < count <= 65_536 && first <= last && size > 16_777_216 ==> got == Err::<
                (ChunkView, Seq<u8>),
                SnapshotError,
            >(SnapshotError::ChunkLength(size))
            &&& 0 < count <= 65_536 && first <= last && size <= 16_777_216 && rest.len() < size
                ==> got == Err::<(ChunkView, Seq<u8>), SnapshotError>(
                SnapshotError::UnexpectedEnd,
            )
        }),
{
    bytes::lemma_span();
    bytes::law_bits_invert(first);
    bytes::law_bits_invert(last);
    let s3 = bytes::little(size as nat, 4) + rest;
    let s2 = bytes::little(count as nat, 4) + s3;
    let s1 = bytes::little(bytes::bits_of(last) as nat, 8) + s2;
    lemma_taken(bytes::bits_of(first) as nat, 8, s1);
    lemma_taken(bytes::bits_of(last) as nat, 8, s2);
    lemma_taken(count as nat, 4, s3);
    lemma_taken(size as nat, 4, rest);
}

/// Whether a series is what is left of another: its labels, and its samples
/// without some of its oldest, all of them from before the cutoff.
pub open spec fn is_rest_of(out: SeriesView, was: SeriesView, cutoff: int) -> bool {
    &&& out.labels == was.labels
    &&& exists|n: int|
        0 <= n < series::all_samples(was).len() && series::all_samples(out)
            == #[trigger] series::all_samples(was).skip(n) && forall|i: int|
            0 <= i < n ==> (#[trigger] series::all_samples(was)[i]).t < cutoff
}

proof fn lemma_rest(v: StoreView, now: i64, key: Seq<char>)
    requires
        store::store_wf(v),
    ensures
        match keyed::found(store::store_pruned(v, now).series, key) {
            Some(out) => keyed::found(v.series, key) matches Some(was) && is_rest_of(
                out,
                was,
                now - v.retention,
            ),
            None => keyed::found(v.series, key) matches Some(was) ==> forall|i: int|
                0 <= i < series::all_samples(was).len() ==> (#[trigger] series::all_samples(was)[i]).t
                    < now - v.retention,
        },
{
    store::law_prune_is_series_by_series(v, now, key);
    if let Some(was) = keyed::found(v.series, key) {
        let cutoff = now - v.retention;
        let out = series::pruned(was, cutoff);
        assert(series::series_wf(was)) by {
            lemma_found_is_sound(v, key);
        }
        series::law_prune_drops_old_samples(was, cutoff);
        series::law_samples_ascend(was);
        series::law_samples_ascend(out);
        let n = choose|n: int|
            0 <= n <= series::all_samples(was).len() && series::all_samples(out)
                == #[trigger] series::all_samples(was).skip(n) && forall|i: int|
                0 <= i < n ==> (#[trigger] series::all_samples(was)[i]).t < cutoff;
        if series::series_empty(out) {
            assert(series::all_samples(was).skip(n).len() == 0);
        } else {
            assert(n < series::all_samples(was).len());
            assert(series::all_samples(out) == series::all_samples(was).skip(n));
        }
    }
}

proof fn lemma_found_is_sound(v: StoreView, key: Seq<char>)
    requires
        store::store_wf(v),
        keyed::found(v.series, key) is Some,
    ensures
        series::series_wf(keyed::found(v.series, key)->0),
{
    keyed::lemma_place(v.series, key);
    let i = keyed::place(v.series, key) as int;
    assert(series::series_wf(v.series[i].1));
}

/// Pruning leaves of every series what is not older than the retention, and
/// at most some older samples in front of it, and takes a series out of
/// which nothing is left.
pub proof fn law_pruning_leaves_the_young(v: StoreView, now: i64, key: Seq<char>)
    requires
        store::store_wf(v),
    ensures
        match keyed::found(store::store_pruned(v, now).series, key) {
            Some(out) => keyed::found(v.series, key) matches Some(was) && is_rest_of(
                out,
                was,
                now - v.retention,
            ),
            None => keyed::found(v.series, key) matches Some(was) ==> forall|i: int|
                0 <= i < series::all_samples(was).len() ==> (#[trigger] series::all_samples(was)[i]).t
                    < now - v.retention,
        },
        store::store_pruned(v, now).retention == v.retention,
{
    lemma_rest(v, now, key);
}

/// What a store is restored to from its snapshot: every series with the
/// samples that are not older than the retention, and at most some older
/// ones in front of them.
pub proof fn law_restoring_leaves_the_young(v: StoreView, retention: i64, now: i64, key: Seq<char>)
    requires
        store::store_wf(v),
        snapshot::store_storable(v),
    ensures
        snapshot::loaded(snapshot::saved(v), retention, now) matches Ok(got) && got.retention
            == retention && (match keyed::found(got.series, key) {
            Some(out) => keyed::found(v.series, key) matches Some(was) && is_rest_of(
                out,
                was,
                now - retention,
            ),
            None => keyed::found(v.series, key) matches Some(was) ==> forall|i: int|
                0 <= i < series::all_samples(was).len() ==> (#[trigger] series::all_samples(was)[i]).t
                    < now - retention,
        }),
{
    snapshot::law_snapshot_round_trips(v, retention, now);
    let same = StoreView { series: v.series, names: v.names, retention };
    assert(store::store_wf(same));
    lemma_rest(same, now, key);
}

/// A text stands behind its length in two bytes.
pub proof fn law_texts_stand_behind_their_length(s: Seq<char>, rest: Seq<u8>)
    requires
        utf8::encode_utf8(s).len() <= 4096,
    ensures
        snapshot::take_text(bytes::little(utf8::encode_utf8(s).len(), 2) + utf8::encode_utf8(s) + rest)
            == Ok::<(Seq<char>, Seq<u8>), SnapshotError>((s, rest)),
        snapshot::text_bytes(s) == bytes::little(utf8::encode_utf8(s).len(), 2)
            + utf8::encode_utf8(s),
{
    let all = utf8::encode_utf8(s);
    assert(all.take(all.len() as int) =~= all);
    snapshot::law_text_reads_back(s, rest);
}

/// Labels stand name first, each with its value behind it.
pub proof fn law_labels_stand_name_first(
    name: Seq<char>,
    value: Seq<char>,
    rest: Seq<u8>,
    n: nat,
    out: Seq<Entry>,
)
    requires
        utf8::encode_utf8(name).len() <= 4096,
        utf8::encode_utf8(value).len() <= 4096,
    ensures
        snapshot::take_labels(
            snapshot::text_bytes(name) + (snapshot::text_bytes(value) + rest),
            n + 1,
            out,
        ) == snapshot::take_labels(rest, n, textmap::with_entry(out, name, value)),
        snapshot::take_labels(rest, 0, out) == Ok::<(Seq<Entry>, Seq<u8>), SnapshotError>((out, rest)),
{
    snapshot::law_text_reads_back(name, snapshot::text_bytes(value) + rest);
    snapshot::law_text_reads_back(value, rest);
}

/// Raw samples stand time first, in eight bytes each. One that has aged out,
/// or that is not later than those before it, is dropped.
pub proof fn law_raw_samples_stand_time_first(
    sample: Sample,
    rest: Seq<u8>,
    n: nat,
    cutoff: int,
    out: Seq<Sample>,
)
    ensures
        snapshot::take_samples(
            bytes::little(bytes::bits_of(sample.t) as nat, 8) + (bytes::little(sample.v as nat, 8)
                + rest),
            n + 1,
            cutoff,
            out,
        ) == snapshot::take_samples(
            rest,
            n,
            cutoff,
            if sample.t >= cutoff && (out.len() == 0 || out[out.len() - 1].t < sample.t) {
                out.push(sample)
            } else {
                out
            },
        ),
        snapshot::take_samples(rest, 0, cutoff, out) == Ok::<(Seq<Sample>, Seq<u8>), SnapshotError>(
            (out, rest),
        ),
{
    bytes::lemma_span();
    bytes::law_bits_invert(sample.t);
    lemma_taken(
        bytes::bits_of(sample.t) as nat,
        8,
        bytes::little(sample.v as nat, 8) + rest,
    );
    lemma_taken(sample.v as nat, 8, rest);
}

} // verus!
