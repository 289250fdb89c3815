//! A series: a small uncompressed head of samples and a run of compressed
//! chunks behind it.
//!
//! Only the newest samples are held raw, so appends stay cheap and instant
//! queries, which want the latest point, never decompress anything.

use crate::chunk;
use crate::chunk::{Chunk, ChunkView};
use crate::room;
use crate::textmap::{Entry, TextMap};
use vstd::prelude::*;
use vstd::slice::slice_subrange;

verus! {

/// Label set of a series, including its name. Ordered so that the canonical
/// key is stable.
pub type Labels = TextMap;

/// How many samples accumulate before the head is sealed into a chunk. At
/// a 30s scrape that is an hour, which is long enough for the delta streams
/// to pay for the per-chunk header several times over.
pub const MAX_CHUNK_SAMPLES: usize = 120;

/// Retention is enforced at chunk granularity, so a sealed chunk holds its
/// samples until the newest of them ages out. Capping a chunk's span at
/// this fraction of the retention window bounds that overhang.
pub const MAX_CHUNK_SPAN_FRACTION: i64 = 8;

/// One point of a series: when, and the bits of the double it held.
#[derive(Clone, Copy, Debug, PartialEq, Eq, Structural)]
pub struct Sample {
    pub t: i64,
    pub v: u64,
}

/// A series: what it is called, its sealed chunks and its newest samples.
#[verifier::ext_equal]
pub struct SeriesView {
    pub labels: Seq<Entry>,
    pub chunks: Seq<ChunkView>,
    pub head: Seq<Sample>,
}

/// The samples of chunks, oldest first.
pub open spec fn chunk_samples(chunks: Seq<ChunkView>) -> Seq<Sample>
    decreases chunks.len(),
{
    if chunks.len() == 0 {
        seq![]
    } else {
        chunk::decoded(chunks[0]).0 + chunk_samples(chunks.drop_first())
    }
}

/// Every sample of a series, oldest first.
pub open spec fn all_samples(s: SeriesView) -> Seq<Sample> {
    chunk_samples(s.chunks) + s.head
}

/// Whether a chunk expands to what it says of itself.
#[verifier::opaque]
pub open spec fn sound(c: ChunkView) -> bool {
    let samples = chunk::decoded(c).0;
    &&& chunk::decoded(c).1 is None
    &&& 0 < samples.len() == c.count
    &&& samples[0].t == c.first_t
    &&& samples.last().t == c.last_t
    &&& chunk::ascending(samples)
}

/// What it is for a chunk to be sound.
pub proof fn lemma_sound(c: ChunkView)
    requires
        sound(c),
    ensures
        chunk::decoded(c).1 is None,
        0 < chunk::decoded(c).0.len() == c.count,
        chunk::decoded(c).0[0].t == c.first_t,
        chunk::decoded(c).0.last().t == c.last_t,
        chunk::ascending(chunk::decoded(c).0),
        c.first_t <= c.last_t,
{
    reveal(sound);
    let samples = chunk::decoded(c).0;
    if samples.len() > 1 {
        assert(samples[0].t < samples[samples.len() - 1].t);
    }
}

/// Whether chunks are sound, each later than the one before.
pub open spec fn chunks_wf(chunks: Seq<ChunkView>) -> bool {
    &&& forall|i: int| 0 <= i < chunks.len() ==> sound(#[trigger] chunks[i])
    &&& forall|i: int, j: int|
        0 <= i < j < chunks.len() ==> (#[trigger] chunks[i]).last_t < (#[trigger] chunks[j]).first_t
}

/// Whether a series is in order: its chunks sound and ascending, all older
/// than its head, and its head ascending and small enough for a chunk.
pub open spec fn series_wf(s: SeriesView) -> bool {
    &&& chunks_wf(s.chunks)
    &&& chunk::ascending(s.head)
    &&& s.head.len() < u32::MAX
    &&& s.chunks.len() > 0 && s.head.len() > 0 ==> s.chunks.last().last_t < s.head[0].t
}

/// The last of ascending samples that is not later than `t`.
pub open spec fn latest(samples: Seq<Sample>, t: int) -> Option<Sample>
    decreases samples.len(),
{
    if samples.len() == 0 {
        None
    } else if samples.last().t <= t {
        Some(samples.last())
    } else {
        latest(samples.drop_last(), t)
    }
}

/// The value that answers for `t`: the latest one, if it is not staler than
/// `lookback`.
pub open spec fn answer(samples: Seq<Sample>, t: i64, lookback: i64) -> Option<u64> {
    match latest(samples, t as int) {
        Some(s) => if t - s.t <= lookback {
            Some(s.v)
        } else {
            None
        },
        None => None,
    }
}

/// The samples later than `t - window` and not later than `t`.
pub open spec fn within(samples: Seq<Sample>, t: i64, window: i64) -> Seq<Sample> {
    samples.filter(|s: Sample| t - window < s.t <= t)
}

/// Whether one of some samples lies from `low` to `high`.
pub open spec fn inside(samples: Seq<Sample>, low: i64, high: i64) -> bool {
    exists|i: int| 0 <= i < samples.len() && low <= (#[trigger] samples[i]).t <= high
}

/// A series that is called something and holds nothing.
pub open spec fn empty_series(labels: Seq<Entry>) -> SeriesView {
    SeriesView { labels, chunks: seq![], head: seq![] }
}

/// Whether a head is long enough, or reaches far enough, to be sealed.
pub open spec fn seals(head: Seq<Sample>, retention: i64) -> bool {
    ||| head.len() >= MAX_CHUNK_SAMPLES
    ||| head.len() > 1 && head.last().t - head[0].t >= retention as int
        / (MAX_CHUNK_SPAN_FRACTION as int)
}

/// A series with its head packed into a chunk.
pub open spec fn sealed(s: SeriesView) -> SeriesView {
    if s.head.len() == 0 {
        s
    } else {
        SeriesView { labels: s.labels, chunks: s.chunks.push(chunk::chunk_of(s.head)), head: seq![] }
    }
}

/// A series with one more sample.
pub open spec fn pushed(s: SeriesView, sample: Sample, retention: i64) -> SeriesView {
    let longer = SeriesView { labels: s.labels, chunks: s.chunks, head: s.head.push(sample) };
    if seals(longer.head, retention) {
        sealed(longer)
    } else {
        longer
    }
}

/// A series without what is older than `cutoff`: chunks go whole once the
/// newest of their samples is, the head is trimmed exactly.
pub open spec fn pruned(s: SeriesView, cutoff: int) -> SeriesView {
    SeriesView {
        labels: s.labels,
        chunks: s.chunks.filter(|c: ChunkView| c.last_t >= cutoff),
        head: s.head.filter(|x: Sample| x.t >= cutoff),
    }
}

pub open spec fn series_empty(s: SeriesView) -> bool {
    s.chunks.len() == 0 && s.head.len() == 0
}

/// When a series last got a sample.
pub open spec fn last_time(s: SeriesView) -> Option<i64> {
    if s.head.len() > 0 {
        Some(s.head.last().t)
    } else if s.chunks.len() > 0 {
        Some(s.chunks.last().last_t)
    } else {
        None
    }
}

/// When a series got its first sample.
pub open spec fn first_time(s: SeriesView) -> Option<i64> {
    if s.chunks.len() > 0 {
        Some(s.chunks[0].first_t)
    } else if s.head.len() > 0 {
        Some(s.head[0].t)
    } else {
        None
    }
}

/// A number as far as a `usize` reaches.
pub open spec fn capped(n: int) -> usize {
    if n <= usize::MAX {
        n as usize
    } else {
        usize::MAX
    }
}

/// How many samples chunks say they hold.
pub open spec fn chunk_total(chunks: Seq<ChunkView>) -> nat
    decreases chunks.len(),
{
    if chunks.len() == 0 {
        0
    } else {
        chunk_total(chunks.drop_last()) + chunks.last().count as nat
    }
}

/// How many bytes chunks hold.
pub open spec fn byte_total(chunks: Seq<ChunkView>) -> nat
    decreases chunks.len(),
{
    if chunks.len() == 0 {
        0
    } else {
        byte_total(chunks.drop_last()) + chunks.last().bytes.len()
    }
}

/// How many samples a series holds.
pub open spec fn series_len(s: SeriesView) -> nat {
    chunk_total(s.chunks) + s.head.len()
}

/// How many bytes a series' samples take up, with room for so many chunks
/// and for so many samples in the head.
pub open spec fn series_size(s: SeriesView, slots: (usize, usize)) -> nat {
    slots.0 as nat * vstd::layout::size_of::<Chunk>() + byte_total(s.chunks) + slots.1 as nat
        * vstd::layout::size_of::<Sample>()
}

/// Whether there is room for what a series holds.
pub open spec fn roomy(s: SeriesView, slots: (usize, usize)) -> bool {
    s.chunks.len() <= slots.0 && s.head.len() <= slots.1
}

pub(crate) proof fn lemma_chunk_samples_add(a: Seq<ChunkView>, b: Seq<ChunkView>)
    ensures
        chunk_samples(a + b) == chunk_samples(a) + chunk_samples(b),
    decreases a.len(),
{
    if a.len() == 0 {
        assert(a + b =~= b);
        assert(chunk_samples(a) + chunk_samples(b) =~= chunk_samples(b));
    } else {
        assert((a + b).drop_first() =~= a.drop_first() + b);
        lemma_chunk_samples_add(a.drop_first(), b);
        assert(chunk_samples(a + b) =~= chunk_samples(a) + chunk_samples(b));
    }
}

proof fn lemma_one_chunk(c: ChunkView)
    ensures
        chunk_samples(seq![c]) == chunk::decoded(c).0,
{
    reveal_with_fuel(chunk_samples, 2);
    assert(seq![c].drop_first() =~= seq![]);
    assert(chunk_samples(seq![c]) =~= chunk::decoded(c).0);
}

/// The samples of chunks lie between the first chunk's first time and the
/// last chunk's last, and ascend.
proof fn lemma_chunks_ascend(chunks: Seq<ChunkView>)
    requires
        chunks_wf(chunks),
    ensures
        chunk::ascending(chunk_samples(chunks)),
        chunks.len() > 0 ==> {
            &&& chunk_samples(chunks).len() > 0
            &&& chunk_samples(chunks)[0].t == chunks[0].first_t
            &&& chunk_samples(chunks).last().t == chunks.last().last_t
        },
    decreases chunks.len(),
{
    if chunks.len() > 0 {
        let rest = chunks.drop_first();
        let a = chunk::decoded(chunks[0]).0;
        let b = chunk_samples(rest);
        lemma_sound(chunks[0]);
        lemma_rest_wf(chunks);
        lemma_chunks_ascend(rest);
        if rest.len() > 0 {
            assert(chunks[0].last_t < chunks[1].first_t);
            lemma_joined_ascend(a, b);
            assert((a + b)[0] == a[0]);
            assert((a + b).last() == b.last());
        } else {
            assert(a + b =~= a);
        }
    }
}

/// Chunks in order stay so without the first.
pub proof fn lemma_rest_wf(chunks: Seq<ChunkView>)
    requires
        chunks_wf(chunks),
        chunks.len() > 0,
    ensures
        chunks_wf(chunks.drop_first()),
{
    let rest = chunks.drop_first();
    assert forall|i: int| 0 <= i < rest.len() implies sound(#[trigger] rest[i]) by {
        assert(sound(chunks[i + 1]));
    }
    assert forall|i: int, j: int| 0 <= i < j < rest.len() implies (#[trigger] rest[i]).last_t < (
    #[trigger] rest[j]).first_t by {
        assert(chunks[i + 1].last_t < chunks[j + 1].first_t);
    }
}

proof fn lemma_joined_ascend(a: Seq<Sample>, b: Seq<Sample>)
    requires
        chunk::ascending(a),
        chunk::ascending(b),
        a.len() > 0 && b.len() > 0 ==> a.last().t < b[0].t,
    ensures
        chunk::ascending(a + b),
{
    let s = a + b;
    assert forall|i: int, j: int| 0 <= i < j < s.len() implies s[i].t < s[j].t by {
        if i < a.len() && j >= a.len() {
            assert(a[i].t <= a.last().t);
            assert(b[0].t <= b[j - a.len()].t);
        }
    }
}

/// The samples of a series in order ascend, from its first time to its
/// last.
pub proof fn law_samples_ascend(s: SeriesView)
    requires
        series_wf(s),
    ensures
        chunk::ascending(all_samples(s)),
        all_samples(s).len() == 0 <==> series_empty(s),
        !series_empty(s) ==> first_time(s) == Some(all_samples(s)[0].t) && last_time(s) == Some(
            all_samples(s).last().t,
        ),
        series_empty(s) ==> first_time(s) is None && last_time(s) is None,
{
    lemma_chunks_ascend(s.chunks);
    lemma_joined_ascend(chunk_samples(s.chunks), s.head);
}

/// Where the latest sample stands.
proof fn lemma_latest(samples: Seq<Sample>, t: int, at: int)
    requires
        chunk::ascending(samples),
        -1 <= at < samples.len(),
        at >= 0 ==> samples[at].t <= t,
        at + 1 < samples.len() ==> samples[at + 1].t > t,
    ensures
        latest(samples, t) == (if at < 0 {
            None
        } else {
            Some(samples[at])
        }),
    decreases samples.len(),
{
    if samples.len() > 0 && at + 1 < samples.len() {
        let n = samples.len() - 1;
        assert(samples[n].t >= samples[at + 1].t);
        if at + 1 < n {
            assert(samples.drop_last()[at + 1] == samples[at + 1]);
        }
        if at >= 0 {
            assert(samples.drop_last()[at] == samples[at]);
        }
        lemma_latest(samples.drop_last(), t, at);
    }
}

/// Sealing changes how samples are held and not what they are.
pub proof fn law_sealing_keeps_samples(s: SeriesView)
    requires
        s.head.len() > 0 ==> chunk::encodable(s.head),
    ensures
        all_samples(sealed(s)) == all_samples(s),
{
    if s.head.len() > 0 {
        let c = chunk::chunk_of(s.head);
        chunk::law_chunk_is_lossless(s.head);
        assert(s.chunks.push(c) =~= s.chunks + seq![c]);
        lemma_chunk_samples_add(s.chunks, seq![c]);
        lemma_one_chunk(c);
        assert(all_samples(sealed(s)) =~= all_samples(s));
    }
}

proof fn lemma_sealed_wf(s: SeriesView)
    requires
        chunks_wf(s.chunks),
        s.chunks.len() > 0 && s.head.len() > 0 ==> s.chunks.last().last_t < s.head[0].t,
        s.head.len() > 0 ==> chunk::encodable(s.head),
    ensures
        series_wf(sealed(s)),
{
    if s.head.len() > 0 {
        chunk::law_chunk_is_lossless(s.head);
        reveal(sound);
        lemma_chunk_behind(s.chunks, chunk::chunk_of(s.head));
    }
}

/// A sound chunk behind chunks in order keeps them in order.
pub proof fn lemma_chunk_behind(chunks: Seq<ChunkView>, c: ChunkView)
    requires
        chunks_wf(chunks),
        sound(c),
        chunks.len() > 0 ==> chunks.last().last_t < c.first_t,
    ensures
        chunks_wf(chunks.push(c)),
{
    let out = chunks.push(c);
    assert forall|i: int, j: int| 0 <= i < j < out.len() implies (#[trigger] out[i]).last_t < (
    #[trigger] out[j]).first_t by {
        if j == chunks.len() && i < chunks.len() - 1 {
            assert(chunks[i].last_t < chunks.last().first_t);
            assert(sound(chunks.last()));
            lemma_sound(chunks.last());
        }
    }
    assert forall|i: int| 0 <= i < out.len() implies sound(#[trigger] out[i]) by {
        if i < chunks.len() {
            assert(sound(chunks[i]));
        }
    }
}

/// Whether a sample at `t` can be put behind a head without the head's span
/// leaving the range of an `i64`.
pub open spec fn reaches(head: Seq<Sample>, t: i64) -> bool {
    head.len() > 0 ==> t - head[0].t <= i64::MAX
}

pub(crate) proof fn lemma_longer_encodable(head: Seq<Sample>, sample: Sample)
    requires
        chunk::ascending(head),
        head.len() > 0 ==> head.last().t < sample.t,
        reaches(head, sample.t),
        head.len() < u32::MAX,
    ensures
        chunk::encodable(head.push(sample)),
{
    let out = head.push(sample);
    assert forall|i: int, j: int| 0 <= i < j < out.len() implies out[i].t < out[j].t by {
        if j == head.len() && i < head.len() - 1 {
            assert(head[i].t < head.last().t);
        }
    }
    assert forall|i: int| 0 <= i < out.len() - 1 implies (#[trigger] out[i + 1]).t - out[i].t
        <= i64::MAX by {
        assert(out[0].t <= out[i].t);
        assert(out[i + 1].t <= out.last().t);
    }
}

/// A sample later than all others goes to the end of a series, whether or
/// not a chunk is sealed on the way.
pub proof fn law_push_appends(s: SeriesView, sample: Sample, retention: i64)
    requires
        series_wf(s),
        last_time(s) matches Some(last) ==> last < sample.t,
        reaches(s.head, sample.t),
    ensures
        series_wf(pushed(s, sample, retention)),
        all_samples(pushed(s, sample, retention)) == all_samples(s).push(sample),
        !series_empty(pushed(s, sample, retention)),
{
    let longer = SeriesView { labels: s.labels, chunks: s.chunks, head: s.head.push(sample) };
    lemma_longer_encodable(s.head, sample);
    assert(all_samples(longer) =~= all_samples(s).push(sample));
    law_sealing_keeps_samples(longer);
    lemma_sealed_wf(longer);
}

/// How many of ascending samples are not later than `t`.
fn count_upto(samples: &[Sample], t: i64) -> (n: usize)
    requires
        chunk::ascending(samples@),
    ensures
        n <= samples@.len(),
        forall|i: int| 0 <= i < n ==> (#[trigger] samples@[i]).t <= t,
        forall|i: int| n <= i < samples@.len() ==> (#[trigger] samples@[i]).t > t,
{
    let mut low: usize = 0;
    let mut high: usize = samples.len();
    while low < high
        invariant
            chunk::ascending(samples@),
            low <= high <= samples@.len(),
            forall|i: int| 0 <= i < low ==> (#[trigger] samples@[i]).t <= t,
            forall|i: int| high <= i < samples@.len() ==> (#[trigger] samples@[i]).t > t,
        decreases high - low,
    {
        let mid = low + (high - low) / 2;
        if samples[mid].t <= t {
            assert forall|i: int| 0 <= i < mid + 1 implies (#[trigger] samples@[i]).t <= t by {
                if i < mid {
                    assert(samples@[i].t < samples@[mid as int].t);
                }
            }
            low = mid + 1;
        } else {
            assert forall|i: int| mid <= i < samples@.len() implies (#[trigger] samples@[i]).t > t by {
                if mid < i {
                    assert(samples@[mid as int].t < samples@[i].t);
                }
            }
            high = mid;
        }
    }
    low
}

proof fn lemma_inside_either(a: Seq<Sample>, b: Seq<Sample>, low: i64, high: i64)
    ensures
        inside(a + b, low, high) == (inside(a, low, high) || inside(b, low, high)),
{
    let all = a + b;
    if inside(a, low, high) {
        let i = choose|i: int| 0 <= i < a.len() && low <= (#[trigger] a[i]).t <= high;
        assert(all[i] == a[i]);
    }
    if inside(b, low, high) {
        let i = choose|i: int| 0 <= i < b.len() && low <= (#[trigger] b[i]).t <= high;
        assert(all[a.len() + i] == b[i]);
    }
    if inside(all, low, high) {
        let i = choose|i: int| 0 <= i < all.len() && low <= (#[trigger] all[i]).t <= high;
        if i < a.len() {
            assert(a[i] == all[i]);
        } else {
            assert(b[i - a.len()] == all[i]);
        }
    }
}

/// What the first chunks hold between two times, the last of them apart,
/// and what all of them do once one of them does.
proof fn lemma_split_chunks(chunks: Seq<ChunkView>, i: int, low: i64, high: i64)
    requires
        0 <= i < chunks.len(),
    ensures
        inside(chunk_samples(chunks.take(i + 1)), low, high) == (inside(
            chunk_samples(chunks.take(i)),
            low,
            high,
        ) || inside(chunk::decoded(chunks[i]).0, low, high)),
        inside(chunk::decoded(chunks[i]).0, low, high) ==> inside(chunk_samples(chunks), low, high),
{
    let one = seq![chunks[i]];
    lemma_one_chunk(chunks[i]);
    assert(chunks.take(i + 1) =~= chunks.take(i) + one);
    lemma_chunk_samples_add(chunks.take(i), one);
    lemma_inside_either(chunk_samples(chunks.take(i)), chunk_samples(one), low, high);
    assert(chunks =~= chunks.take(i + 1) + chunks.skip(i + 1));
    lemma_chunk_samples_add(chunks.take(i + 1), chunks.skip(i + 1));
    lemma_inside_either(
        chunk_samples(chunks.take(i + 1)),
        chunk_samples(chunks.skip(i + 1)),
        low,
        high,
    );
}

fn any_inside(samples: &[Sample], low: i64, high: i64) -> (r: bool)
    ensures
        r == inside(samples@, low, high),
{
    let mut i: usize = 0;
    while i < samples.len()
        invariant
            i <= samples@.len(),
            forall|j: int| 0 <= j < i ==> !(low <= (#[trigger] samples@[j]).t <= high),
        decreases samples@.len() - i,
    {
        let t = samples[i].t;
        if low <= t && t <= high {
            return true;
        }
        i += 1;
    }
    false
}

/// Whether a sample of a sound chunk lies from `low` to `high`.
fn chunk_has_sample_in(chunk: &Chunk, low: i64, high: i64) -> (r: bool)
    requires
        sound(chunk@),
    ensures
        r == inside(chunk::decoded(chunk@).0, low, high),
{
    let ghost held = chunk::decoded(chunk@).0;
    proof {
        lemma_sound(chunk@);
    }
    let first = chunk.first_t();
    let last = chunk.last_t();
    if last < low || high < first {
        proof {
            assert forall|j: int| 0 <= j < held.len() implies !(low <= (#[trigger] held[j]).t <= high) by {
                if j > 0 {
                    assert(held[0].t < held[j].t);
                }
                if j < held.len() - 1 {
                    assert(held[j].t < held[held.len() - 1].t);
                }
            }
        }
        return false;
    }
    if low <= first || last <= high {
        proof {
            if low <= first {
                assert(low <= held[0].t <= high);
            } else {
                assert(low <= held[held.len() - 1].t <= high);
            }
        }
        return true;
    }
    let mut buffer: Vec<Sample> = Vec::new();
    let _ = chunk::decode_into(chunk, &mut buffer);
    proof {
        assert(buffer@ =~= held);
    }
    any_inside(buffer.as_slice(), low, high)
}

pub(crate) fn capped_sum(a: usize, b: usize) -> (r: usize)
    ensures
        r == capped(a + b),
{
    if b > usize::MAX - a {
        usize::MAX
    } else {
        a + b
    }
}

fn capped_product(a: usize, b: usize) -> (r: usize)
    ensures
        r == capped(a * b),
{
    proof {
        assert(0 <= a * b <= u128::MAX) by (nonlinear_arith)
            requires
                0 <= a <= 0xffff_ffff_ffff_ffff,
                0 <= b <= 0xffff_ffff_ffff_ffff,
        ;
    }
    let product: u128 = a as u128 * b as u128;
    if product > usize::MAX as u128 {
        usize::MAX
    } else {
        product as usize
    }
}

/// Chunks as what they say of themselves.
pub open spec fn chunk_views(chunks: Seq<Chunk>) -> Seq<ChunkView> {
    chunks.map_values(|c: Chunk| c@)
}

pub struct Series {
    pub labels: Labels,
    /// Sealed and immutable, ascending by time, all older than the head.
    chunks: Vec<Chunk>,
    /// The newest samples, still raw. Ascending.
    head: Vec<Sample>,
}

impl View for Series {
    type V = SeriesView;

    closed spec fn view(&self) -> SeriesView {
        SeriesView {
            labels: self.labels@,
            chunks: chunk_views(self.chunks@),
            head: self.head@,
        }
    }
}

impl Series {
    /// Whether the series is in order.
    pub open spec fn wf(&self) -> bool {
        series_wf(self@)
    }

    pub(crate) fn new(labels: Labels) -> (series: Series)
        ensures
            series.wf(),
            series@ == empty_series(labels@),
    {
        let series = Series { labels, chunks: Vec::new(), head: Vec::new() };
        proof {
            assert(series@ =~= empty_series(labels@));
        }
        series
    }

    /// A series of chunks that are already compressed, and the samples
    /// behind them.
    pub(crate) fn from_parts(labels: Labels, chunks: Vec<Chunk>, head: Vec<Sample>) -> (series:
        Series)
        ensures
            series@ == (SeriesView {
                labels: labels@,
                chunks: chunk_views(chunks@),
                head: head@,
            }),
    {
        Series { labels, chunks, head }
    }

    /// What the series is called.
    pub fn labels(&self) -> (labels: &Labels)
        ensures
            labels@ == self@.labels,
    {
        &self.labels
    }

    /// The most recent sample at or before `t`, provided it is not staler
    /// than `lookback`. It is why a chart flatlines rather than
    /// interpolating across a gap.
    pub fn value_at(&self, t: i64, lookback: i64) -> (r: Option<u64>)
        requires
            self.wf(),
        ensures
            r == answer(all_samples(self@), t, lookback),
    {
        let ghost all = all_samples(self@);
        let ghost older = chunk_samples(self@.chunks);
        proof {
            law_samples_ascend(self@);
            lemma_chunks_ascend(self@.chunks);
        }
        // The head first: an instant query asks for now, which is the one
        // place that never costs a decode.
        let n = count_upto(self.head.as_slice(), t);
        if n > 0 {
            let sample = self.head[n - 1];
            proof {
                let at = older.len() + n - 1;
                assert(all[at] == sample);
                if at + 1 < all.len() {
                    assert(all[at + 1] == self.head@[n as int]);
                }
                lemma_latest(all, t as int, at);
            }
            return fresh(sample, t, lookback);
        }
        // Otherwise exactly one sealed chunk can hold it: the last one
        // that starts at or before `t`.
        let mut i: usize = self.chunks.len();
        while i > 0
            invariant
                self.wf(),
                i <= self.chunks@.len(),
                all == all_samples(self@),
                chunk::ascending(all),
                forall|j: int| i <= j < self@.chunks.len() ==> (#[trigger] self@.chunks[j]).first_t > t,
                forall|j: int| 0 <= j < self.head@.len() ==> (#[trigger] self.head@[j]).t > t,
            decreases i,
        {
            i -= 1;
            let chunk = &self.chunks[i];
            assert(self@.chunks[i as int] == chunk@);
            if chunk.first_t() <= t {
                return self.sealed_value(i, t, lookback);
            }
        }
        proof {
            if all.len() > 0 {
                if self@.chunks.len() > 0 {
                    assert(self@.chunks[0].first_t > t);
                } else {
                    assert(all[0] == self.head@[0]);
                }
            }
            lemma_latest(all, t as int, -1);
        }
        None
    }

    /// The value that a sealed chunk has for `t`, the last one that starts
    /// at or before it.
    fn sealed_value(&self, i: usize, t: i64, lookback: i64) -> (r: Option<u64>)
        requires
            self.wf(),
            i < self@.chunks.len(),
            self@.chunks[i as int].first_t <= t,
            forall|j: int| i < j < self@.chunks.len() ==> (#[trigger] self@.chunks[j]).first_t > t,
            forall|j: int| 0 <= j < self@.head.len() ==> (#[trigger] self@.head[j]).t > t,
        ensures
            r == answer(all_samples(self@), t, lookback),
    {
        let chunk = &self.chunks[i];
        assert(self@.chunks[i as int] == chunk@);
        proof {
            lemma_sound(chunk@);
        }
        let mut buffer: Vec<Sample> = Vec::new();
        let _ = chunk::decode_into(chunk, &mut buffer);
        let ghost held = chunk::decoded(chunk@).0;
        proof {
            assert(buffer@ =~= held);
        }
        let k = count_upto(buffer.as_slice(), t);
        proof {
            assert(held[0].t <= t);
        }
        let sample = buffer[k - 1];
        proof {
            let at = lemma_within_chunk(self@, i as int, k - 1);
            if k == held.len() {
                lemma_after_chunk(self@, i as int, t, at);
            } else {
                let next = lemma_within_chunk(self@, i as int, k as int);
            }
            law_samples_ascend(self@);
            lemma_latest(all_samples(self@), t as int, at);
        }
        fresh(sample, t, lookback)
    }

    /// Samples in the half-open range `(t - window, t]`. Chunks that fall
    /// entirely outside it are skipped without decoding.
    pub fn range_at(&self, t: i64, window: i64) -> (out: Vec<Sample>)
        requires
            self.wf(),
        ensures
            out@ == within(all_samples(self@), t, window),
    {
        let start: i128 = t as i128 - window as i128;
        let ghost inside = |s: Sample| t - window < s.t <= t;
        let mut out: Vec<Sample> = Vec::new();
        let mut i: usize = 0;
        proof {
            reveal(Seq::filter);
            assert(chunk_samples(self@.chunks.take(0)) =~= seq![]);
            assert(out@ =~= chunk_samples(self@.chunks.take(0)).filter(inside));
        }
        while i < self.chunks.len()
            invariant
                self.wf(),
                i <= self.chunks@.len(),
                start == t - window,
                inside == (|s: Sample| t - window < s.t <= t),
                out@ == chunk_samples(self@.chunks.take(i as int)).filter(inside),
            decreases self.chunks@.len() - i,
        {
            let chunk = &self.chunks[i];
            let ghost held = chunk::decoded(chunk@).0;
            proof {
                assert(self@.chunks[i as int] == chunk@);
                lemma_sound(chunk@);
                assert(self@.chunks.take(i + 1) =~= self@.chunks.take(i as int) + seq![chunk@]);
                lemma_chunk_samples_add(self@.chunks.take(i as int), seq![chunk@]);
                lemma_one_chunk(chunk@);
                Seq::filter_distributes_over_add(
                    chunk_samples(self@.chunks.take(i as int)),
                    held,
                    inside,
                );
            }
            if chunk.last_t() as i128 <= start || chunk.first_t() > t {
                proof {
                    lemma_none_kept(held, inside);
                    assert(out@ + Seq::<Sample>::empty() =~= out@);
                }
            } else {
                let mut buffer: Vec<Sample> = Vec::new();
                let _ = chunk::decode_into(chunk, &mut buffer);
                proof {
                    assert(buffer@ =~= held);
                }
                keep_within(&mut out, buffer.as_slice(), start, t, Ghost(window));
            }
            i += 1;
        }
        proof {
            assert(self@.chunks.take(i as int) =~= self@.chunks);
            Seq::filter_distributes_over_add(chunk_samples(self@.chunks), self.head@, inside);
        }
        keep_within(&mut out, self.head.as_slice(), start, t, Ghost(window));
        out
    }

    pub fn first_t(&self) -> (r: Option<i64>)
        ensures
            r == first_time(self@),
    {
        if self.chunks.len() > 0 {
            Some(self.chunks[0].first_t())
        } else if self.head.len() > 0 {
            Some(self.head[0].t)
        } else {
            None
        }
    }

    pub fn last_t(&self) -> (r: Option<i64>)
        ensures
            r == last_time(self@),
    {
        if self.head.len() > 0 {
            Some(self.head[self.head.len() - 1].t)
        } else if self.chunks.len() > 0 {
            Some(self.chunks[self.chunks.len() - 1].last_t())
        } else {
            None
        }
    }

    /// How many samples there are, as far as a `usize` reaches.
    pub fn len(&self) -> (n: usize)
        ensures
            n == capped(series_len(self@) as int),
    {
        let mut n: usize = 0;
        let mut i: usize = 0;
        while i < self.chunks.len()
            invariant
                i <= self.chunks@.len(),
                n == capped(chunk_total(self@.chunks.take(i as int)) as int),
            decreases self.chunks@.len() - i,
        {
            proof {
                assert(self@.chunks.take(i + 1).drop_last() =~= self@.chunks.take(i as int));
                assert(self@.chunks.take(i + 1).last() == self.chunks@[i as int]@);
            }
            n = capped_sum(n, self.chunks[i].len());
            i += 1;
        }
        proof {
            assert(self@.chunks.take(i as int) =~= self@.chunks);
        }
        capped_sum(n, self.head.len())
    }

    pub fn is_empty(&self) -> (r: bool)
        ensures
            r == series_empty(self@),
    {
        self.chunks.len() == 0 && self.head.len() == 0
    }

    /// Every sample, oldest first.
    pub fn samples(&self) -> (out: Vec<Sample>)
        requires
            self.wf(),
        ensures
            out@ == all_samples(self@),
    {
        let mut out: Vec<Sample> = Vec::new();
        let mut i: usize = 0;
        proof {
            assert(chunk_samples(self@.chunks.take(0)) =~= seq![]);
            assert(out@ =~= chunk_samples(self@.chunks.take(0)));
        }
        while i < self.chunks.len()
            invariant
                i <= self.chunks@.len(),
                out@ == chunk_samples(self@.chunks.take(i as int)),
            decreases self.chunks@.len() - i,
        {
            let chunk = &self.chunks[i];
            proof {
                assert(self@.chunks[i as int] == chunk@);
                assert(self@.chunks.take(i + 1) =~= self@.chunks.take(i as int) + seq![chunk@]);
                lemma_chunk_samples_add(self@.chunks.take(i as int), seq![chunk@]);
                lemma_one_chunk(chunk@);
            }
            let _ = chunk::decode_into(chunk, &mut out);
            i += 1;
        }
        proof {
            assert(self@.chunks.take(i as int) =~= self@.chunks);
        }
        copy_samples(&mut out, self.head.as_slice());
        out
    }

    /// Bytes held on the heap by the samples themselves, as far as a `usize`
    /// reaches: the chunks, what they hold, and the head, with the room that
    /// is allocated for them. Labels are not counted.
    ///
    /// How much room there is to spare is up to the allocator.
    pub fn heap_size(&self) -> (n: usize)
        ensures
            exists|slots: (usize, usize)| #[trigger]
                roomy(self@, slots) && n == capped(series_size(self@, slots) as int),
    {
        let chunks = room::capacity(&self.chunks);
        let head = room::capacity(&self.head);
        proof {
            assert(roomy(self@, (chunks, head)));
        }
        self.heap_size_with(chunks, head)
    }

    /// Bytes held on the heap by the samples themselves, as far as a `usize`
    /// reaches, with room for so many chunks and for so many samples in the
    /// head.
    pub fn heap_size_with(&self, chunks: usize, head: usize) -> (n: usize)
        ensures
            n == capped(series_size(self@, (chunks, head)) as int),
    {
        let mut n: usize = 0;
        let mut i: usize = 0;
        while i < self.chunks.len()
            invariant
                i <= self.chunks@.len(),
                n == capped(byte_total(self@.chunks.take(i as int)) as int),
            decreases self.chunks@.len() - i,
        {
            proof {
                assert(self@.chunks.take(i + 1).drop_last() =~= self@.chunks.take(i as int));
                assert(self@.chunks.take(i + 1).last() == self.chunks@[i as int]@);
            }
            n = capped_sum(n, self.chunks[i].heap_size());
            i += 1;
        }
        proof {
            assert(self@.chunks.take(i as int) =~= self@.chunks);
        }
        capped_sum(
            capped_sum(capped_product(chunks, core::mem::size_of::<Chunk>()), n),
            capped_product(head, core::mem::size_of::<Sample>()),
        )
    }

    /// Whether a sample of the series lies from `low` to `high`.
    ///
    /// Only a chunk that starts before them and ends behind them has to be
    /// expanded to tell.
    pub fn has_sample_in(&self, low: i64, high: i64) -> (r: bool)
        requires
            self.wf(),
        ensures
            r == inside(all_samples(self@), low, high),
    {
        let ghost chunks = self@.chunks;
        proof {
            lemma_inside_either(chunk_samples(chunks), self@.head, low, high);
            assert(chunks.take(0) =~= seq![]);
        }
        let mut i: usize = 0;
        while i < self.chunks.len()
            invariant
                self.wf(),
                chunks == self@.chunks,
                i <= self.chunks@.len(),
                inside(all_samples(self@), low, high) == (inside(chunk_samples(chunks), low, high)
                    || inside(self@.head, low, high)),
                !inside(chunk_samples(chunks.take(i as int)), low, high),
            decreases self.chunks@.len() - i,
        {
            let chunk = &self.chunks[i];
            proof {
                assert(chunks[i as int] == chunk@);
                lemma_split_chunks(chunks, i as int, low, high);
            }
            if chunk_has_sample_in(chunk, low, high) {
                return true;
            }
            i += 1;
        }
        proof {
            assert(chunks.take(i as int) =~= chunks);
        }
        any_inside(self.head.as_slice(), low, high)
    }

    pub fn sealed_chunks(&self) -> (chunks: &[Chunk])
        ensures
            chunk_views(chunks@) == self@.chunks,
    {
        self.chunks.as_slice()
    }

    pub fn head(&self) -> (head: &[Sample])
        ensures
            head@ == self@.head,
    {
        self.head.as_slice()
    }

    pub(crate) fn push(&mut self, t: i64, v: u64, retention: i64)
        requires
            old(self).wf(),
            last_time(old(self)@) matches Some(last) ==> last < t,
            reaches(old(self)@.head, t),
        ensures
            final(self).wf(),
            final(self)@ == pushed(old(self)@, Sample { t, v }, retention),
    {
        let ghost was = self@;
        proof {
            law_push_appends(was, Sample { t, v }, retention);
            lemma_longer_encodable(was.head, Sample { t, v });
        }
        self.head.push(Sample { t, v });
        proof {
            assert(self@ =~= SeriesView {
                labels: was.labels,
                chunks: was.chunks,
                head: was.head.push(Sample { t, v }),
            });
        }
        if self.should_seal(retention) {
            self.seal();
        }
    }

    fn should_seal(&self, retention: i64) -> (r: bool)
        requires
            chunk::ascending(self@.head),
        ensures
            r == seals(self@.head, retention),
    {
        let n = self.head.len();
        if n >= MAX_CHUNK_SAMPLES {
            return true;
        }
        if n < 2 {
            return false;
        }
        let first = self.head[0].t;
        let last = self.head[n - 1].t;
        proof {
            assert(self.head@[0].t < self.head@[n - 1].t);
        }
        retention < 0 || last as i128 - first as i128 >= (retention / MAX_CHUNK_SPAN_FRACTION) as i128
    }

    fn seal(&mut self)
        requires
            old(self)@.head.len() > 0 ==> chunk::encodable(old(self)@.head),
        ensures
            final(self)@ == sealed(old(self)@),
    {
        if self.head.len() == 0 {
            return;
        }
        let ghost was = self@;
        let filled = self.head.len();
        let chunk = chunk::encode(self.head.as_slice());

        // Pushing alone would double the capacity. A series holds a
        // predictable number of chunks -- retention divided by a chunk's
        // span -- so the spare half is pure waste, and growing by exactly
        // one costs one allocation an hour.
        room::make_room(&mut self.chunks, 1);
        self.chunks.push(chunk);

        // Clearing keeps the allocation, so that the next window reuses it
        // instead of growing from nothing. But the head doubled its way up
        // to the seal point and so holds the next power of two. Trim it to
        // what the window actually reached. Done here rather than up front
        // because a churning pod reports a handful of times and never seals
        // at all.
        self.head.clear();
        if room::capacity(&self.head) > filled {
            room::shrink_to_fit(&mut self.head);
            room::make_room(&mut self.head, filled);
        }
        proof {
            assert(self@ =~= sealed(was));
        }
    }

    /// Drops everything older than `cutoff`.
    pub(crate) fn prune(&mut self, cutoff: i128)
        requires
            old(self).wf(),
        ensures
            final(self).wf(),
            final(self)@ == pruned(old(self)@, cutoff as int),
    {
        let ghost was = self@;
        let mut aged: usize = 0;
        while aged < self.chunks.len() && (self.chunks[aged].last_t() as i128) < cutoff
            invariant
                self@ == was,
                aged <= self.chunks@.len(),
                forall|i: int| 0 <= i < aged ==> (#[trigger] was.chunks[i]).last_t < cutoff,
            decreases self.chunks@.len() - aged,
        {
            assert(was.chunks[aged as int] == self.chunks@[aged as int]@);
            aged += 1;
        }
        let mut old_samples: usize = 0;
        while old_samples < self.head.len() && (self.head[old_samples].t as i128) < cutoff
            invariant
                self@ == was,
                old_samples <= self.head@.len(),
                forall|i: int| 0 <= i < old_samples ==> (#[trigger] was.head[i]).t < cutoff,
            decreases self.head@.len() - old_samples,
        {
            old_samples += 1;
        }
        proof {
            if aged < was.chunks.len() {
                assert(was.chunks[aged as int] == self.chunks@[aged as int]@);
            }
            lemma_pruned(was, cutoff as int, aged as int, old_samples as int);
        }
        // What is kept goes back to where it was, so that the allocation
        // stays.
        if aged > 0 {
            let mut kept = self.chunks.split_off(aged);
            self.chunks.clear();
            self.chunks.append(&mut kept);
        }
        if old_samples > 0 {
            let mut kept = self.head.split_off(old_samples);
            self.head.clear();
            self.head.append(&mut kept);
        }
        proof {
            assert(self@ =~= SeriesView {
                labels: was.labels,
                chunks: was.chunks.skip(aged as int),
                head: was.head.skip(old_samples as int),
            });
        }
    }
}

/// A sample's value, if it is not staler than `lookback`.
fn fresh(sample: Sample, t: i64, lookback: i64) -> (r: Option<u64>)
    ensures
        r == (if t - sample.t <= lookback {
            Some(sample.v)
        } else {
            None
        }),
{
    if t as i128 - sample.t as i128 <= lookback as i128 {
        Some(sample.v)
    } else {
        None
    }
}

/// Copies samples to the end of others.
fn copy_samples(out: &mut Vec<Sample>, samples: &[Sample])
    ensures
        final(out)@ == old(out)@ + samples@,
{
    out.reserve(samples.len());
    let mut i: usize = 0;
    proof {
        assert(out@ =~= old(out)@ + samples@.take(0));
    }
    while i < samples.len()
        invariant
            i <= samples@.len(),
            out@ == old(out)@ + samples@.take(i as int),
        decreases samples@.len() - i,
    {
        out.push(samples[i]);
        i += 1;
        proof {
            assert(out@ =~= old(out)@ + samples@.take(i as int));
        }
    }
    proof {
        assert(samples@.take(i as int) =~= samples@);
    }
}

/// Copies the samples of a range to the end of others.
fn keep_within(
    out: &mut Vec<Sample>,
    samples: &[Sample],
    start: i128,
    t: i64,
    Ghost(window): Ghost<i64>,
)
    requires
        start == t - window,
    ensures
        final(out)@ == old(out)@ + within(samples@, t, window),
{
    let ghost inside = |s: Sample| t - window < s.t <= t;
    let mut i: usize = 0;
    proof {
        reveal(Seq::filter);
        assert(out@ =~= old(out)@ + samples@.take(0).filter(inside));
    }
    while i < samples.len()
        invariant
            i <= samples@.len(),
            start == t - window,
            inside == (|s: Sample| t - window < s.t <= t),
            out@ == old(out)@ + samples@.take(i as int).filter(inside),
        decreases samples@.len() - i,
    {
        let sample = samples[i];
        let ghost was = out@;
        proof {
            reveal(Seq::filter);
            assert(samples@.take(i + 1).drop_last() =~= samples@.take(i as int));
        }
        if start < sample.t as i128 && sample.t <= t {
            out.push(sample);
        }
        proof {
            assert(out@ =~= old(out)@ + samples@.take(i + 1).filter(inside));
        }
        i += 1;
    }
    proof {
        assert(samples@.take(i as int) =~= samples@);
    }
}

proof fn lemma_none_kept<A>(s: Seq<A>, pred: spec_fn(A) -> bool)
    requires
        forall|i: int| 0 <= i < s.len() ==> !pred(#[trigger] s[i]),
    ensures
        s.filter(pred) == Seq::<A>::empty(),
    decreases s.len(),
{
    reveal(Seq::filter);
    if s.len() > 0 {
        lemma_none_kept(s.drop_last(), pred);
        assert(!pred(s[s.len() - 1]));
    }
}

pub(crate) proof fn lemma_all_kept<A>(s: Seq<A>, pred: spec_fn(A) -> bool)
    requires
        forall|i: int| 0 <= i < s.len() ==> pred(#[trigger] s[i]),
    ensures
        s.filter(pred) == s,
    decreases s.len(),
{
    reveal(Seq::filter);
    if s.len() > 0 {
        lemma_all_kept(s.drop_last(), pred);
        assert(pred(s[s.len() - 1]));
        assert(s.drop_last().push(s.last()) =~= s);
    }
}

/// One item is kept or not.
pub proof fn lemma_one_kept<A>(x: A, pred: spec_fn(A) -> bool)
    ensures
        seq![x].filter(pred) == (if pred(x) {
            seq![x]
        } else {
            seq![]
        }),
{
    if pred(x) {
        lemma_all_kept(seq![x], pred);
    } else {
        lemma_none_kept(seq![x], pred);
    }
}

/// Where a chunk's sample stands among all samples of a series.
pub(crate) proof fn lemma_within_chunk(s: SeriesView, i: int, k: int) -> (at: int)
    requires
        0 <= i < s.chunks.len(),
        0 <= k < chunk::decoded(s.chunks[i]).0.len(),
    ensures
        at == chunk_samples(s.chunks.take(i)).len() + k,
        0 <= at < all_samples(s).len(),
        all_samples(s)[at] == chunk::decoded(s.chunks[i]).0[k],
{
    let before = s.chunks.take(i);
    let after = s.chunks.skip(i + 1);
    assert(s.chunks =~= before + (seq![s.chunks[i]] + after));
    lemma_chunk_samples_add(before, seq![s.chunks[i]] + after);
    lemma_chunk_samples_add(seq![s.chunks[i]], after);
    lemma_one_chunk(s.chunks[i]);
    chunk_samples(before).len() + k
}

/// What follows a chunk's last sample is later than `t`, if the chunks and
/// the head behind it are.
#[verifier::rlimit(40)]
proof fn lemma_after_chunk(s: SeriesView, i: int, t: i64, at: int)
    requires
        series_wf(s),
        0 <= i < s.chunks.len(),
        at == chunk_samples(s.chunks.take(i)).len() + chunk::decoded(s.chunks[i]).0.len() - 1,
        forall|j: int| i < j < s.chunks.len() ==> (#[trigger] s.chunks[j]).first_t > t,
        forall|j: int| 0 <= j < s.head.len() ==> (#[trigger] s.head[j]).t > t,
    ensures
        at + 1 < all_samples(s).len() ==> all_samples(s)[at + 1].t > t,
{
    if i + 1 < s.chunks.len() {
        let next = s.chunks[i + 1];
        lemma_sound(next);
        assert(s.chunks.take(i + 1) =~= s.chunks.take(i) + seq![s.chunks[i]]);
        lemma_chunk_samples_add(s.chunks.take(i), seq![s.chunks[i]]);
        lemma_one_chunk(s.chunks[i]);
        let n = lemma_within_chunk(s, i + 1, 0);
        assert(n == at + 1);
    } else {
        assert(s.chunks =~= s.chunks.take(i) + seq![s.chunks[i]]);
        lemma_chunk_samples_add(s.chunks.take(i), seq![s.chunks[i]]);
        lemma_one_chunk(s.chunks[i]);
        if s.head.len() > 0 {
            assert(all_samples(s)[at + 1] == s.head[0]);
        }
    }
}

/// What ages out of a series in order is what stands in front.
proof fn lemma_pruned(s: SeriesView, cutoff: int, aged: int, old_samples: int)
    requires
        series_wf(s),
        0 <= aged <= s.chunks.len(),
        forall|i: int| 0 <= i < aged ==> (#[trigger] s.chunks[i]).last_t < cutoff,
        aged < s.chunks.len() ==> s.chunks[aged].last_t >= cutoff,
        0 <= old_samples <= s.head.len(),
        forall|i: int| 0 <= i < old_samples ==> (#[trigger] s.head[i]).t < cutoff,
        old_samples < s.head.len() ==> s.head[old_samples].t >= cutoff,
    ensures
        pruned(s, cutoff) == (SeriesView {
            labels: s.labels,
            chunks: s.chunks.skip(aged),
            head: s.head.skip(old_samples),
        }),
        series_wf(pruned(s, cutoff)),
{
    let chunks = s.chunks.skip(aged);
    let head = s.head.skip(old_samples);
    assert forall|i: int| aged <= i < s.chunks.len() implies (#[trigger] s.chunks[i]).last_t
        >= cutoff by {
        assert(sound(s.chunks[i]));
        lemma_sound(s.chunks[i]);
        if aged < i {
            assert(s.chunks[aged].last_t < s.chunks[i].first_t);
        }
    }
    assert forall|i: int| old_samples <= i < s.head.len() implies (#[trigger] s.head[i]).t
        >= cutoff by {
        if old_samples < i {
            assert(s.head[old_samples].t < s.head[i].t);
        }
    }
    lemma_suffix_kept(s.chunks, aged, |c: ChunkView| c.last_t >= cutoff);
    lemma_suffix_kept(s.head, old_samples, |x: Sample| x.t >= cutoff);
    lemma_suffix_wf(s, aged, old_samples);
}

proof fn lemma_suffix_kept<A>(s: Seq<A>, n: int, pred: spec_fn(A) -> bool)
    requires
        0 <= n <= s.len(),
        forall|i: int| 0 <= i < n ==> !pred(#[trigger] s[i]),
        forall|i: int| n <= i < s.len() ==> pred(#[trigger] s[i]),
    ensures
        s.filter(pred) == s.skip(n),
{
    assert(s =~= s.take(n) + s.skip(n));
    Seq::filter_distributes_over_add(s.take(n), s.skip(n), pred);
    lemma_none_kept(s.take(n), pred);
    lemma_all_kept(s.skip(n), pred);
    assert(Seq::<A>::empty() + s.skip(n) =~= s.skip(n));
}

proof fn lemma_suffix_wf(s: SeriesView, aged: int, old_samples: int)
    requires
        series_wf(s),
        0 <= aged <= s.chunks.len(),
        0 <= old_samples <= s.head.len(),
    ensures
        series_wf(
            SeriesView {
                labels: s.labels,
                chunks: s.chunks.skip(aged),
                head: s.head.skip(old_samples),
            },
        ),
{
    let chunks = s.chunks.skip(aged);
    let head = s.head.skip(old_samples);
    assert forall|i: int| 0 <= i < chunks.len() implies sound(#[trigger] chunks[i]) by {
        assert(sound(s.chunks[aged + i]));
    }
    assert forall|i: int, j: int| 0 <= i < j < chunks.len() implies (#[trigger] chunks[i]).last_t < (
    #[trigger] chunks[j]).first_t by {
        assert(s.chunks[aged + i].last_t < s.chunks[aged + j].first_t);
    }
    if head.len() > 0 && old_samples > 0 {
        assert(s.head[0].t < s.head[old_samples].t);
    }
}

proof fn lemma_prefix_old(s: SeriesView, aged: int, cutoff: int)
    requires
        series_wf(s),
        0 <= aged <= s.chunks.len(),
        forall|i: int| 0 <= i < aged ==> (#[trigger] s.chunks[i]).last_t < cutoff,
    ensures
        forall|i: int|
            0 <= i < chunk_samples(s.chunks.take(aged)).len() ==> (#[trigger] chunk_samples(
                s.chunks.take(aged),
            )[i]).t < cutoff,
{
    let before = s.chunks.take(aged);
    let a = chunk_samples(before);
    assert forall|i: int, j: int| 0 <= i < j < before.len() implies (#[trigger] before[i]).last_t < (
    #[trigger] before[j]).first_t by {
        assert(s.chunks[i].last_t < s.chunks[j].first_t);
    }
    assert forall|i: int| 0 <= i < before.len() implies sound(#[trigger] before[i]) by {
        assert(sound(s.chunks[i]));
    }
    lemma_chunks_ascend(before);
    assert forall|i: int| 0 <= i < a.len() implies (#[trigger] a[i]).t < cutoff by {
        assert(a[i].t <= a.last().t);
        assert(before.last() == s.chunks[aged - 1]);
    }
}

/// A chunk that stays keeps the head behind it whole.
proof fn lemma_head_stays(s: SeriesView, aged: int, cutoff: int)
    requires
        series_wf(s),
        0 <= aged < s.chunks.len(),
        s.chunks[aged].last_t >= cutoff,
        s.head.len() > 0,
    ensures
        s.head[0].t >= cutoff,
{
    assert(sound(s.chunks.last()));
    lemma_sound(s.chunks.last());
    if aged < s.chunks.len() - 1 {
        assert(s.chunks[aged].last_t < s.chunks.last().first_t);
    }
}

/// Pruning a series takes samples off its front, all of them older than the
/// cutoff, and what is left is in order.
pub proof fn law_prune_drops_old_samples(s: SeriesView, cutoff: int)
    requires
        series_wf(s),
    ensures
        series_wf(pruned(s, cutoff)),
        exists|n: int|
            0 <= n <= all_samples(s).len() && all_samples(pruned(s, cutoff)) == #[trigger] all_samples(
                s,
            ).skip(n) && forall|i: int| 0 <= i < n ==> (#[trigger] all_samples(s)[i]).t < cutoff,
        last_time(pruned(s, cutoff)) matches Some(last) ==> last >= cutoff,
{
    let aged = count_old_chunks(s.chunks, cutoff, 0);
    let old_samples = count_old(s.head, cutoff, 0);
    lemma_old_chunks(s.chunks, cutoff, 0);
    lemma_old(s.head, cutoff, 0);
    lemma_pruned(s, cutoff, aged, old_samples);
    lemma_prefix_old(s, aged, cutoff);
    if aged < s.chunks.len() && s.head.len() > 0 {
        lemma_head_stays(s, aged, cutoff);
    }
    lemma_pruned_samples(s, cutoff, aged, old_samples);
    lemma_left_is_fresh(s, cutoff);
}

#[verifier::rlimit(40)]
proof fn lemma_pruned_samples(s: SeriesView, cutoff: int, aged: int, old_samples: int)
    requires
        0 <= aged <= s.chunks.len(),
        0 <= old_samples <= s.head.len(),
        aged < s.chunks.len() ==> old_samples == 0,
        pruned(s, cutoff) == (SeriesView {
            labels: s.labels,
            chunks: s.chunks.skip(aged),
            head: s.head.skip(old_samples),
        }),
        forall|i: int|
            0 <= i < chunk_samples(s.chunks.take(aged)).len() ==> (#[trigger] chunk_samples(
                s.chunks.take(aged),
            )[i]).t < cutoff,
        forall|i: int| 0 <= i < old_samples ==> (#[trigger] s.head[i]).t < cutoff,
    ensures
        exists|n: int|
            0 <= n <= all_samples(s).len() && all_samples(pruned(s, cutoff)) == #[trigger] all_samples(
                s,
            ).skip(n) && forall|i: int| 0 <= i < n ==> (#[trigger] all_samples(s)[i]).t < cutoff,
{
    let before = s.chunks.take(aged);
    let after = s.chunks.skip(aged);
    assert(s.chunks =~= before + after);
    lemma_chunk_samples_add(before, after);
    let a = chunk_samples(before);
    let b = chunk_samples(after);
    assert(all_samples(s) =~= a + (b + s.head));
    lemma_front_dropped(a, b, s.head, old_samples, cutoff);
}

proof fn lemma_front_dropped(
    a: Seq<Sample>,
    b: Seq<Sample>,
    head: Seq<Sample>,
    k: int,
    cutoff: int,
)
    requires
        0 <= k <= head.len(),
        b.len() > 0 ==> k == 0,
        forall|i: int| 0 <= i < a.len() ==> (#[trigger] a[i]).t < cutoff,
        forall|i: int| 0 <= i < k ==> (#[trigger] head[i]).t < cutoff,
    ensures
        ({
            let all = a + (b + head);
            exists|n: int|
                0 <= n <= all.len() && b + head.skip(k) == #[trigger] all.skip(n) && forall|i: int|
                    0 <= i < n ==> (#[trigger] all[i]).t < cutoff
        }),
{
    let all = a + (b + head);
    let n: int = a.len() + k;
    assert(b + head.skip(k) =~= all.skip(n));
    assert forall|i: int| 0 <= i < n implies (#[trigger] all[i]).t < cutoff by {
        if i < a.len() {
            assert(all[i] == a[i]);
        } else {
            assert(all[i] == head[i - a.len()]);
        }
    }
}

/// What is left after pruning ends at or after the cutoff.
proof fn lemma_left_is_fresh(from: SeriesView, cutoff: int)
    ensures
        last_time(pruned(from, cutoff)) matches Some(last) ==> last >= cutoff,
{
    let s = pruned(from, cutoff);
    let keep_chunk = |c: ChunkView| c.last_t >= cutoff;
    let keep_sample = |x: Sample| x.t >= cutoff;
    if s.head.len() > 0 {
        from.head.lemma_filter_pred(keep_sample, s.head.len() - 1);
    } else if s.chunks.len() > 0 {
        from.chunks.lemma_filter_pred(keep_chunk, s.chunks.len() - 1);
    }
}

spec fn count_old(samples: Seq<Sample>, cutoff: int, i: int) -> int
    decreases samples.len() - i,
{
    if i >= samples.len() || samples[i].t >= cutoff {
        i
    } else {
        count_old(samples, cutoff, i + 1)
    }
}

proof fn lemma_old(samples: Seq<Sample>, cutoff: int, i: int)
    requires
        0 <= i <= samples.len(),
        forall|j: int| 0 <= j < i ==> (#[trigger] samples[j]).t < cutoff,
    ensures
        i <= count_old(samples, cutoff, i) <= samples.len(),
        forall|j: int| 0 <= j < count_old(samples, cutoff, i) ==> (#[trigger] samples[j]).t < cutoff,
        count_old(samples, cutoff, i) < samples.len() ==> samples[count_old(samples, cutoff, i)].t
            >= cutoff,
    decreases samples.len() - i,
{
    if i < samples.len() && samples[i].t < cutoff {
        lemma_old(samples, cutoff, i + 1);
    }
}

spec fn count_old_chunks(chunks: Seq<ChunkView>, cutoff: int, i: int) -> int
    decreases chunks.len() - i,
{
    if i >= chunks.len() || chunks[i].last_t >= cutoff {
        i
    } else {
        count_old_chunks(chunks, cutoff, i + 1)
    }
}

proof fn lemma_old_chunks(chunks: Seq<ChunkView>, cutoff: int, i: int)
    requires
        0 <= i <= chunks.len(),
        forall|j: int| 0 <= j < i ==> (#[trigger] chunks[j]).last_t < cutoff,
    ensures
        i <= count_old_chunks(chunks, cutoff, i) <= chunks.len(),
        forall|j: int|
            0 <= j < count_old_chunks(chunks, cutoff, i) ==> (#[trigger] chunks[j]).last_t < cutoff,
        count_old_chunks(chunks, cutoff, i) < chunks.len() ==> chunks[count_old_chunks(
            chunks,
            cutoff,
            i,
        )].last_t >= cutoff,
    decreases chunks.len() - i,
{
    if i < chunks.len() && chunks[i].last_t < cutoff {
        lemma_old_chunks(chunks, cutoff, i + 1);
    }
}

/// Whether no gap between samples leaves the range of an `i64`.
pub open spec fn gaps_fit(samples: Seq<Sample>) -> bool {
    forall|i: int|
        0 <= i < samples.len() - 1 ==> (#[trigger] samples[i + 1]).t - samples[i].t <= i64::MAX
}

/// Whether samples can be packed into chunks of the usual length: no gap
/// within a full one leaves the range of an `i64`.
pub open spec fn packable(samples: Seq<Sample>) -> bool
    decreases samples.len(),
{
    samples.len() >= MAX_CHUNK_SAMPLES ==> gaps_fit(samples.take(MAX_CHUNK_SAMPLES as int))
        && packable(samples.skip(MAX_CHUNK_SAMPLES as int))
}

/// A series with samples packed behind its chunks: as many as make full
/// chunks into those, what is left over into the head.
pub open spec fn packed_from(s: SeriesView, samples: Seq<Sample>) -> SeriesView
    decreases samples.len(),
{
    if samples.len() < MAX_CHUNK_SAMPLES {
        SeriesView { labels: s.labels, chunks: s.chunks, head: samples }
    } else {
        packed_from(
            SeriesView {
                labels: s.labels,
                chunks: s.chunks.push(
                    chunk::chunk_of(samples.take(MAX_CHUNK_SAMPLES as int)),
                ),
                head: seq![],
            },
            samples.skip(MAX_CHUNK_SAMPLES as int),
        )
    }
}

/// A series of samples packed into chunks.
pub open spec fn packed(labels: Seq<Entry>, samples: Seq<Sample>) -> SeriesView {
    packed_from(empty_series(labels), samples)
}

proof fn lemma_packable_rest(samples: Seq<Sample>)
    requires
        chunk::ascending(samples),
        packable(samples),
        samples.len() >= MAX_CHUNK_SAMPLES,
    ensures
        chunk::encodable(samples.take(MAX_CHUNK_SAMPLES as int)),
        packable(samples.skip(MAX_CHUNK_SAMPLES as int)),
{
    let full = samples.take(MAX_CHUNK_SAMPLES as int);
    assert(chunk::ascending(full));
}

proof fn lemma_packed_from(s: SeriesView, samples: Seq<Sample>)
    requires
        chunks_wf(s.chunks),
        chunk::ascending(samples),
        packable(samples),
        s.chunks.len() > 0 && samples.len() > 0 ==> s.chunks.last().last_t < samples[0].t,
    ensures
        series_wf(packed_from(s, samples)),
        all_samples(packed_from(s, samples)) == chunk_samples(s.chunks) + samples,
        packed_from(s, samples).labels == s.labels,
    decreases samples.len(),
{
    if samples.len() >= MAX_CHUNK_SAMPLES {
        let full = samples.take(MAX_CHUNK_SAMPLES as int);
        let rest = samples.skip(MAX_CHUNK_SAMPLES as int);
        lemma_packable_rest(samples);
        let head = SeriesView { labels: s.labels, chunks: s.chunks, head: full };
        lemma_sealed_wf(head);
        law_sealing_keeps_samples(head);
        let next = sealed(head);
        if rest.len() > 0 {
            assert(samples[MAX_CHUNK_SAMPLES - 1].t < samples[MAX_CHUNK_SAMPLES as int].t);
        }
        lemma_packed_from(next, rest);
        assert(chunk_samples(next.chunks) =~= chunk_samples(s.chunks) + full);
        assert(chunk_samples(next.chunks) + rest =~= chunk_samples(s.chunks) + samples);
    }
}

/// Packing samples into chunks keeps them all.
pub proof fn law_packing_keeps_samples(labels: Seq<Entry>, samples: Seq<Sample>)
    requires
        chunk::ascending(samples),
        packable(samples),
    ensures
        series_wf(packed(labels, samples)),
        all_samples(packed(labels, samples)) == samples,
        packed(labels, samples).labels == labels,
{
    lemma_packed_from(empty_series(labels), samples);
    assert(chunk_samples(Seq::<ChunkView>::empty()) + samples =~= samples);
}

/// Packs samples into a series.
pub(crate) fn pack(labels: Labels, samples: &[Sample]) -> (series: Series)
    requires
        chunk::ascending(samples@),
        packable(samples@),
    ensures
        series.wf(),
        series@ == packed(labels@, samples@),
{
    let ghost all = samples@;
    let ghost name = labels@;
    proof {
        law_packing_keeps_samples(name, all);
    }
    let mut series = Series::new(labels);
    let mut left = samples;
    while left.len() >= MAX_CHUNK_SAMPLES
        invariant
            chunk::ascending(left@),
            packable(left@),
            series@.labels == name,
            series@.head == Seq::<Sample>::empty(),
            packed(name, all) == packed_from(series@, left@),
        decreases left@.len(),
    {
        let full = slice_subrange(left, 0, MAX_CHUNK_SAMPLES);
        let rest = slice_subrange(left, MAX_CHUNK_SAMPLES, left.len());
        let ghost was = series@;
        proof {
            lemma_packable_rest(left@);
            assert(full@ =~= left@.take(MAX_CHUNK_SAMPLES as int));
            assert(rest@ =~= left@.skip(MAX_CHUNK_SAMPLES as int));
        }
        copy_samples(&mut series.head, full);
        proof {
            assert(series@ =~= SeriesView { labels: name, chunks: was.chunks, head: full@ });
        }
        series.seal();
        left = rest;
    }
    let ghost was = series@;
    copy_samples(&mut series.head, left);
    proof {
        assert(series@ =~= SeriesView { labels: name, chunks: was.chunks, head: left@ });
    }
    series
}

/// Whether samples have nothing recent for `t`: each is later, or staler
/// than `lookback`.
pub open spec fn stale(samples: Seq<Sample>, t: i64, lookback: i64) -> bool {
    forall|i: int|
        0 <= i < samples.len() ==> (#[trigger] samples[i]).t > t || t - samples[i].t > lookback
}

/// Samples that are all stale do not answer: a chart breaks rather than
/// drawing a flat line.
pub proof fn law_stale_samples_do_not_answer(samples: Seq<Sample>, t: i64, lookback: i64)
    requires
        stale(samples, t, lookback),
    ensures
        answer(samples, t, lookback) is None,
    decreases samples.len(),
{
    if samples.len() > 0 {
        let init = samples.drop_last();
        assert(samples[samples.len() - 1] == samples.last());
        assert forall|i: int| 0 <= i < init.len() implies (#[trigger] init[i]).t > t || t - init[i].t
            > lookback by {
            assert(init[i] == samples[i]);
        }
        law_stale_samples_do_not_answer(init, t, lookback);
    }
}

} // verus!
