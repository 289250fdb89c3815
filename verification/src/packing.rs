//! How samples are packed: how many bytes streams and chunks take, and when
//! a chunk is sealed.

use crate::bytes;
use crate::chunk;
use crate::chunk::{
    deltas, dods, ints_at, plain, run_bytes, run_length, runs_of, stream, uvarint, zigzagged, ChunkError, ChunkView,
};
use crate::double;
use crate::series;
use crate::series::{Sample, SeriesView};
use crate::store;
use vstd::arithmetic::power;
use vstd::arithmetic::power2;
use vstd::prelude::*;

verus! {

/// The lowest seven bits of a number come first, and all bytes but the last
/// have their top bit set.
pub proof fn law_low_bits_come_first(n: nat)
    ensures
        n < 128 ==> uvarint(n) == seq![n as u8],
        n >= 128 ==> uvarint(n) == seq![(128 + n % 128) as u8] + uvarint(n / 128),
{
}

/// The lowest byte of a number comes first.
pub proof fn law_low_byte_comes_first(a: u8, rest: Seq<u8>)
    ensures
        bytes::number(seq![a]) == a,
        bytes::number(seq![a] + rest) == a + 256 * bytes::number(rest),
{
    reveal_with_fuel(bytes::number, 2);
    assert((seq![a] + rest).skip(1) =~= rest);
    assert(seq![a].skip(1) =~= seq![]);
}

/// A signed number is kept as what it leaves of 2^64.
pub proof fn law_signed_numbers_wrap(n: i64)
    ensures
        bytes::bits_of(n) as int == n as int % 0x1_0000_0000_0000_0000,
{
}

proof fn lemma_one_byte_each(values: Seq<i64>)
    requires
        forall|i: int| 0 <= i < values.len() ==> -64 <= (#[trigger] values[i]) < 64,
    ensures
        plain(values).len() == values.len(),
    decreases values.len(),
{
    if values.len() > 0 {
        let tail = values.skip(1);
        assert forall|i: int| 0 <= i < tail.len() implies -64 <= (#[trigger] tail[i]) < 64 by {
            assert(tail[i] == values[i + 1]);
        }
        lemma_one_byte_each(tail);
        assert(-64 <= values[0] < 64);
        assert(zigzagged(values[0]) < 128);
    }
}

proof fn lemma_one_run(values: Seq<i64>)
    requires
        values.len() > 0,
        forall|i: int| 0 <= i < values.len() ==> #[trigger] values[i] == values[0],
    ensures
        runs_of(values) == seq![(values[0], values.len())],
    decreases values.len(),
{
    lemma_whole_run(values);
    assert(values.skip(values.len() as int) =~= seq![]);
    reveal_with_fuel(runs_of, 2);
    assert(runs_of(values) =~= seq![(values[0], values.len())]);
}

proof fn lemma_whole_run(values: Seq<i64>)
    requires
        values.len() > 0,
        forall|i: int| 0 <= i < values.len() ==> #[trigger] values[i] == values[0],
    ensures
        run_length(values) == values.len(),
    decreases values.len(),
{
    if values.len() > 1 {
        let tail = values.skip(1);
        assert(values[1] == values[0]);
        assert forall|i: int| 0 <= i < tail.len() implies #[trigger] tail[i] == tail[0] by {
            assert(tail[i] == values[i + 1]);
        }
        lemma_whole_run(tail);
    }
}

proof fn lemma_run_bytes_short(runs: Seq<(i64, nat)>)
    requires
        forall|i: int| 0 <= i < runs.len() ==> (#[trigger] runs[i]).1 <= u64::MAX,
    ensures
        run_bytes(runs).len() <= 20 * runs.len(),
    decreases runs.len(),
{
    if runs.len() > 0 {
        let tail = runs.skip(1);
        assert forall|i: int| 0 <= i < tail.len() implies (#[trigger] tail[i]).1 <= u64::MAX by {
            assert(tail[i] == runs[i + 1]);
        }
        lemma_run_bytes_short(tail);
        assert(runs[0].1 <= u64::MAX);
        chunk::law_zigzag_inverts(runs[0].0);
        chunk::law_uvarint_is_short(zigzagged(runs[0].0) as u64, 1);
        chunk::law_uvarint_is_short(runs[0].1 as u64, 1);
    }
}

proof fn lemma_runs_short(values: Seq<i64>, n: nat)
    requires
        runs_of(values).len() <= n < 128,
        forall|i: int| 0 <= i < runs_of(values).len() ==> (#[trigger] runs_of(values)[i]).1 <= u64::MAX,
    ensures
        stream(values).len() <= 20 * n + 2,
{
    lemma_run_bytes_short(runs_of(values));
    assert(uvarint(runs_of(values).len()).len() == 1);
}

/// A stream takes no more than a byte for each value that is small, beside
/// the one it starts with, and few bytes where the values are all the same,
/// however many they are.
pub proof fn law_streams_are_short(values: Seq<i64>)
    requires
        values.len() <= u64::MAX,
    ensures
        (forall|i: int| 0 <= i < values.len() ==> -64 <= (#[trigger] values[i]) < 64) ==> stream(
            values,
        ).len() <= values.len() + 1,
        (forall|i: int| 0 <= i < values.len() ==> #[trigger] values[i] == values[0]) ==> stream(
            values,
        ).len() <= 22,
{
    if forall|i: int| 0 <= i < values.len() ==> -64 <= (#[trigger] values[i]) < 64 {
        lemma_one_byte_each(values);
    }
    if forall|i: int| 0 <= i < values.len() ==> #[trigger] values[i] == values[0] {
        if values.len() == 0 {
            assert(runs_of(values).len() == 0);
        } else {
            lemma_one_run(values);
        }
        lemma_runs_short(values, 1);
    }
}

/// A whole number is held as itself.
proof fn lemma_whole_survives(k: int)
    requires
        0 <= k <= 0x20_0000_0000_0000,
    ensures
        chunk::recovered(double::of_int(k), 0) == k,
        chunk::survives(double::of_int(k), 0),
{
    power::lemma_pow0(10);
    let v = double::of_int(k);
    let one = double::one();
    power2::lemma_pow2_pos(1074);
    assert(k * 1 == k);
    double::law_small_integers_multiply(k, 1);
    double::law_small_integers_are_exact(k);
    let u = double::units(double::magnitude(v));
    assert(!double::negative(v));
    assert(u == k * one);
    assert(2 * (k * one) + one == (2 * k + 1) * one) by (nonlinear_arith);
    let top = (2 * u + one) as int;
    let bottom = (2 * one) as int;
    assert(k * bottom + one == top) by (nonlinear_arith)
        requires
            top == 2 * (k * one) + one,
            bottom == 2 * one,
    ;
    vstd::arithmetic::div_mod::lemma_fundamental_div_mod_converse(top, bottom, k, one as int);
    assert(top / bottom == k);
    assert(u < 9_000_000_000_000_000_000 * one) by (nonlinear_arith)
        requires
            u == k * one,
            k <= 0x20_0000_0000_0000,
            one > 0,
    ;
}

proof fn lemma_none_lossy(samples: Seq<Sample>, ks: Seq<int>, i: nat)
    requires
        samples.len() == ks.len(),
        i <= samples.len(),
        forall|j: int|
            0 <= j < ks.len() ==> 0 <= (#[trigger] ks[j]) <= 0x20_0000_0000_0000 && samples[j].v
                == double::of_int(ks[j]),
    ensures
        chunk::first_lossy(samples, 0, i) == samples.len(),
    decreases samples.len() - i,
{
    if i < samples.len() {
        assert(0 <= ks[i as int] <= 0x20_0000_0000_0000);
        lemma_whole_survives(ks[i as int]);
        lemma_none_lossy(samples, ks, i + 1);
    }
}

/// Samples that come at even intervals and grow by the same whole number
/// each time take at most so many bytes, however many they are.
pub proof fn law_steady_samples_pack_small(samples: Seq<Sample>, t: int, step: int, k: int, g: int)
    requires
        0 < samples.len() <= u32::MAX,
        0 < step <= i64::MAX,
        forall|i: int|
            0 <= i < samples.len() ==> (#[trigger] samples[i]).t == t + i * step && 0 <= k + i * g
                <= 0x20_0000_0000_0000 && samples[i].v == double::of_int(k + i * g),
    ensures
        chunk::encoded(samples).len() <= 80,
{
    let n = samples.len();
    let ks = Seq::new(n, |i: int| k + i * g);
    assert forall|j: int| 0 <= j < ks.len() implies 0 <= (#[trigger] ks[j]) <= 0x20_0000_0000_0000
        && samples[j].v == double::of_int(ks[j]) by {
        assert(samples[j].v == double::of_int(k + j * g));
    }
    lemma_none_lossy(samples, ks, 0);
    assert(chunk::scale_from(samples, 0) == Some(0nat));
    let ints = ints_at(samples, 0);
    assert forall|j: int| 0 <= j < n implies (#[trigger] ints[j]) == k + j * g && 0 <= ints[j]
        <= 0x20_0000_0000_0000 by {
        assert(ks[j] == k + j * g);
        lemma_whole_survives(ks[j]);
        assert(samples[j].v == double::of_int(ks[j]));
    }
    assert forall|j: int| 0 <= j < n - 1 implies #[trigger] chunk::growth(ints, j) == g by {
        assert(ints[j + 1] == k + (j + 1) * g);
        assert(ints[j] == k + j * g);
        assert((j + 1) * g == j * g + g) by (nonlinear_arith);
    }
    assert(chunk::steady(ints)) by {
        assert forall|i: int| 0 <= i < ints.len() - 1 implies chunk::fits(
            #[trigger] chunk::growth(ints, i),
        ) && chunk::fits(chunk::growth(ints, i) - chunk::growth(ints, i - 1)) by {
            assert(0 <= ints[i] <= 0x20_0000_0000_0000 && 0 <= ints[i + 1] <= 0x20_0000_0000_0000);
            if i > 0 {
                assert(chunk::growth(ints, i - 1) == g);
            }
        }
    }
    assert(chunk::int_scale(samples) == Some(0nat));
    let ds = deltas(samples);
    assert forall|i: int| 0 <= i < ds.len() implies #[trigger] ds[i] == ds[0] by {
        assert(samples[i + 1].t == t + (i + 1) * step && samples[i].t == t + i * step);
        assert((i + 1) * step == i * step + step) by (nonlinear_arith);
        assert(samples[1].t == t + 1 * step && samples[0].t == t + 0 * step);
    }
    law_streams_are_short(ds);
    let values = dods(ints);
    assert forall|i: int| 0 < i < values.len() implies #[trigger] values[i] == 0 by {
        assert(chunk::growth(ints, i) == g && chunk::growth(ints, i - 1) == g);
    }
    lemma_two_runs(values);
    chunk::law_zigzag_inverts(ints[0]);
    chunk::law_uvarint_is_short(zigzagged(ints[0]) as u64, 1);
}

proof fn lemma_two_runs(values: Seq<i64>)
    requires
        values.len() <= u64::MAX,
        forall|i: int| 0 < i < values.len() ==> #[trigger] values[i] == 0,
    ensures
        stream(values).len() <= 42,
{
    if values.len() == 0 {
        assert(runs_of(values).len() == 0);
    } else if values.len() == 1 || values[0] == 0 {
        assert forall|i: int| 0 <= i < values.len() implies #[trigger] values[i] == values[0] by {
        }
        lemma_one_run(values);
    } else {
        assert(values[1] == 0);
        assert(run_length(values) == 1);
        let tail = values.skip(1);
        assert forall|i: int| 0 <= i < tail.len() implies #[trigger] tail[i] == tail[0] by {
            assert(tail[i] == values[i + 1]);
        }
        lemma_one_run(tail);
        assert(runs_of(values) =~= seq![(values[0], 1nat), (tail[0], tail.len())]);
    }
    lemma_runs_short(values, 2);
}

/// A chunk says when its first and its last sample were and how many it
/// holds.
pub proof fn law_chunks_say_what_they_hold(samples: Seq<Sample>)
    requires
        0 < samples.len() <= u32::MAX,
    ensures
        chunk::chunk_of(samples).first_t == samples[0].t,
        chunk::chunk_of(samples).last_t == samples[samples.len() - 1].t,
        chunk::chunk_of(samples).count == samples.len(),
{
}

/// A chunk is sealed with its 120th sample, or with the second or a later
/// one that makes it reach over an eighth of the retention. Until then
/// samples are held as they are.
pub proof fn law_chunks_are_sealed_in_time(s: SeriesView, sample: Sample, retention: i64)
    ensures
        ({
            let head = s.head.push(sample);
            let full = head.len() >= 120 || (head.len() >= 2 && sample.t - s.head[0].t >= retention as int
                / 8);
            let out = series::pushed(s, sample, retention);
            &&& out.labels == s.labels
            &&& full ==> out.head.len() == 0 && out.chunks == s.chunks.push(chunk::chunk_of(head))
            &&& !full ==> out.head == head && out.chunks == s.chunks
        }),
{
    let head = s.head.push(sample);
    assert(head.last() == sample);
    if s.head.len() > 0 {
        assert(head[0] == s.head[0]);
    }
}

proof fn lemma_chunks_counted(chunks: Seq<ChunkView>)
    requires
        forall|i: int| 0 <= i < chunks.len() ==> series::sound(#[trigger] chunks[i]),
    ensures
        series::chunk_samples(chunks).len() == series::chunk_total(chunks),
    decreases chunks.len(),
{
    if chunks.len() > 0 {
        let init = chunks.drop_last();
        let last = chunks.last();
        assert forall|i: int| 0 <= i < init.len() implies series::sound(#[trigger] init[i]) by {
            assert(init[i] == chunks[i]);
        }
        lemma_chunks_counted(init);
        assert(series::sound(chunks[chunks.len() - 1]));
        series::lemma_sound(last);
        assert(seq![last].drop_first() =~= seq![]);
        reveal_with_fuel(series::chunk_samples, 2);
        assert(series::chunk_samples(seq![last]) =~= chunk::decoded(last).0);
        series::lemma_chunk_samples_add(init, seq![last]);
        assert(chunks =~= init + seq![last]);
    }
}

/// A series has as many samples as it counts.
pub proof fn law_length_counts_every_sample(s: SeriesView)
    requires
        series::series_wf(s),
    ensures
        series::series_len(s) == series::all_samples(s).len(),
{
    lemma_chunks_counted(s.chunks);
}

/// A store counts the samples of all its series.
pub proof fn law_total_counts_every_series(all: Seq<(Seq<char>, SeriesView)>, one: (Seq<char>, SeriesView))
    requires
        series::series_wf(one.1),
    ensures
        store::sample_total(Seq::<(Seq<char>, SeriesView)>::empty()) == 0,
        store::sample_total(all.push(one)) == store::sample_total(all) + series::all_samples(
            one.1,
        ).len(),
{
    law_length_counts_every_sample(one.1);
    assert(all.push(one).drop_last() =~= all);
}

/// What a series takes up is the room for its chunks and its head and the
/// bytes of every chunk, and what a store takes up is that of all its
/// series.
pub proof fn law_sizes_add_up(
    s: SeriesView,
    c: ChunkView,
    slots: (usize, usize),
    all: Seq<(Seq<char>, SeriesView)>,
    rooms: Seq<(usize, usize)>,
    key: Seq<char>,
)
    ensures
        s.chunks.len() == 0 ==> series::series_size(s, slots) == slots.0 * vstd::layout::size_of::<
            chunk::Chunk,
        >() + slots.1 * vstd::layout::size_of::<Sample>(),
        series::series_size(
            SeriesView { labels: s.labels, chunks: s.chunks.push(c), head: s.head },
            slots,
        ) == series::series_size(s, slots) + c.bytes.len(),
        store::size_total(Seq::<(Seq<char>, SeriesView)>::empty(), Seq::<(usize, usize)>::empty()) == 0,
        store::size_total(all.push((key, s)), rooms.push(slots)) == store::size_total(all, rooms)
            + series::series_size(s, slots),
{
    assert(s.chunks.push(c).drop_last() =~= s.chunks);
    assert(all.push((key, s)).drop_last() =~= all);
    assert(rooms.push(slots).drop_last() =~= rooms);
}

/// Counts go no further than a `usize` does.
pub proof fn law_counts_are_capped(n: int)
    requires
        n >= 0,
    ensures
        n <= usize::MAX ==> series::capped(n) == n,
        n > usize::MAX ==> series::capped(n) == usize::MAX,
{
}

/// A stream starts with a byte that is nought or one, and a chunk's values
/// do too. Integers are held with at most nine decimal places. Anything else
/// is refused.
pub proof fn law_strange_chunks_are_refused(
    ds: Seq<i64>,
    mode: u8,
    scale: u8,
    rest: Seq<u8>,
    first_t: i64,
    last_t: i64,
)
    requires
        ds.len() < u32::MAX,
        chunk::times_from(ds, seq![first_t]) is Some,
    ensures
        mode > 1 ==> chunk::take_stream(seq![mode] + rest, ds.len()) == Err::<
            (Seq<i64>, Seq<u8>),
            ChunkError,
        >(ChunkError::UnknownStream(mode)),
        chunk::take_stream(Seq::<u8>::empty(), ds.len()) == Err::<(Seq<i64>, Seq<u8>), ChunkError>(
            ChunkError::EndedEarly,
        ),
        mode > 1 ==> chunk::decoded(
            ChunkView {
                first_t,
                last_t,
                count: (ds.len() + 1) as u32,
                bytes: stream(ds) + (seq![mode] + rest),
            },
        ) == (Seq::<Sample>::empty(), Some(ChunkError::UnknownValues(mode))),
        scale > 9 ==> chunk::decoded(
            ChunkView {
                first_t,
                last_t,
                count: (ds.len() + 1) as u32,
                bytes: stream(ds) + (seq![0u8, scale] + rest),
            },
        ) == (Seq::<Sample>::empty(), Some(ChunkError::ScaleOutOfRange(scale))),
{
    let one = seq![mode] + rest;
    let two = seq![0u8, scale] + rest;
    assert(one[0] == mode);
    assert(two[0] == 0 && two[1] == scale);
    chunk::law_stream_reads_back(ds, one);
    chunk::law_stream_reads_back(ds, two);
}

} // verus!
