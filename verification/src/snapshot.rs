//! Periodic snapshot of the store, so a restart does not cost a day of
//! history.
//!
//! The file holds the store's compressed chunks verbatim -- saving does not
//! re-encode anything, and loading does not expand them -- so it is about as
//! small as the store is.
//!
//! A bad snapshot is never fatal: [`load`] returns an error and the caller
//! starts empty.

use crate::bytes;
use crate::chunk;
use crate::chunk::{Chunk, ChunkError, ChunkView};
use crate::decimal;
use crate::keyed;
use crate::listing;
use crate::room;
use crate::series;
use crate::store;
use crate::store::{Labels, Sample, Series, SeriesView, Store, StoreView};
use crate::text;
use crate::textmap;
use crate::textmap::Entry;
use vstd::prelude::*;
use vstd::slice::slice_subrange;
use vstd::utf8;

verus! {

/// What a snapshot starts with. It names the format on disk, which has
/// outlived the name it was given after.
pub open spec fn magic() -> Seq<u8> {
    seq![0x4c, 0x4d, 0x44, 0x31]
}

/// The layout that is written: sealed chunks verbatim and only the head
/// raw.
pub const VERSION: u16 = 2;

/// The layout that is still read: every sample raw.
pub const VERSION_RAW_SAMPLES: u16 = 1;

/// Absurd values are refused rather than allocated for.
pub const MAX_SERIES: u32 = 1_000_000;

pub const MAX_SAMPLES_PER_SERIES: u32 = 10_000_000;

pub const MAX_LABELS: u16 = 256;

pub const MAX_STRING: u16 = 4096;

pub const MAX_CHUNKS_PER_SERIES: u32 = 100_000;

pub const MAX_CHUNK_BYTES: u32 = 16_777_216;

/// A chunk's sample count is read from the file, and a run-length stream
/// can expand a handful of bytes into as many samples as the header claims
/// -- so the header is what has to be bounded. The cap is far above what is
/// ever sealed, and far below anything that could exhaust memory.
pub const MAX_CHUNK_SAMPLES_ON_DISK: u32 = 65_536;

/// Why a snapshot could not be loaded.
#[derive(Clone, Copy, Debug, PartialEq, Eq, Structural)]
pub enum SnapshotError {
    NoHeader,
    NotASnapshot,
    UnexpectedEnd,
    UnsupportedVersion(u16),
    SeriesCount(u32),
    LabelCount(u16),
    StringLength(u16),
    LabelEndedEarly,
    LabelNotText,
    SampleCount(u32),
    GapTooWide,
    ChunkCount(u32),
    ChunkSampleCount(u32),
    ChunkEndsFirst,
    ChunkLength(u32),
    Chunk(ChunkError),
    HeaderDisagrees,
    NotAscending,
    ChunksOverlap,
    HeadOverlaps,
}

impl SnapshotError {
    /// What the error says.
    pub open spec fn said(self) -> Seq<char> {
        match self {
            SnapshotError::NoHeader => "reading the header: failed to fill whole buffer"@,
            SnapshotError::NotASnapshot => "not a kubeloupe snapshot"@,
            SnapshotError::UnexpectedEnd => "unexpected end of snapshot: failed to fill whole buffer"@,
            SnapshotError::UnsupportedVersion(n) => "snapshot version "@ + decimal::shown(n as nat) + " is not supported"@,
            SnapshotError::SeriesCount(n) => "implausible series count "@ + decimal::shown(n as nat),
            SnapshotError::LabelCount(n) => "implausible label count "@ + decimal::shown(n as nat),
            SnapshotError::StringLength(n) => "implausible string length "@ + decimal::shown(n as nat),
            SnapshotError::LabelEndedEarly => "failed to fill whole buffer"@,
            SnapshotError::LabelNotText => "a label was not valid UTF-8"@,
            SnapshotError::SampleCount(n) => "implausible sample count "@ + decimal::shown(n as nat),
            SnapshotError::GapTooWide => "a gap between samples is too wide"@,
            SnapshotError::ChunkCount(n) => "implausible chunk count "@ + decimal::shown(n as nat),
            SnapshotError::ChunkSampleCount(n) => "implausible chunk sample count "@ + decimal::shown(n as nat),
            SnapshotError::ChunkEndsFirst => "chunk ends before it starts"@,
            SnapshotError::ChunkLength(n) => "implausible chunk length "@ + decimal::shown(n as nat),
            SnapshotError::HeaderDisagrees => "a chunk's header disagrees with its contents"@,
            SnapshotError::NotAscending => "a chunk's timestamps are not ascending"@,
            SnapshotError::ChunksOverlap => "chunks overlap"@,
            SnapshotError::HeadOverlaps => "a snapshot head overlaps its chunks"@,
            SnapshotError::Chunk(e) => "a chunk failed to decode: "@ + e.said(),
        }
    }

    /// What the error says.
    pub fn message(&self) -> (s: String)
        ensures
            s@ == self.said(),
    {
        match self {
            SnapshotError::NoHeader => "reading the header: failed to fill whole buffer".to_owned(),
            SnapshotError::NotASnapshot => "not a kubeloupe snapshot".to_owned(),
            SnapshotError::UnexpectedEnd => "unexpected end of snapshot: failed to fill whole buffer".to_owned(),
            SnapshotError::UnsupportedVersion(n) => decimal::numbered("snapshot version ", *n as u64, " is not supported"),
            SnapshotError::SeriesCount(n) => decimal::counted("implausible series count ", *n as u64),
            SnapshotError::LabelCount(n) => decimal::counted("implausible label count ", *n as u64),
            SnapshotError::StringLength(n) => decimal::counted("implausible string length ", *n as u64),
            SnapshotError::LabelEndedEarly => "failed to fill whole buffer".to_owned(),
            SnapshotError::LabelNotText => "a label was not valid UTF-8".to_owned(),
            SnapshotError::SampleCount(n) => decimal::counted("implausible sample count ", *n as u64),
            SnapshotError::GapTooWide => "a gap between samples is too wide".to_owned(),
            SnapshotError::ChunkCount(n) => decimal::counted("implausible chunk count ", *n as u64),
            SnapshotError::ChunkSampleCount(n) => decimal::counted("implausible chunk sample count ", *n as u64),
            SnapshotError::ChunkEndsFirst => "chunk ends before it starts".to_owned(),
            SnapshotError::ChunkLength(n) => decimal::counted("implausible chunk length ", *n as u64),
            SnapshotError::HeaderDisagrees => "a chunk's header disagrees with its contents".to_owned(),
            SnapshotError::NotAscending => "a chunk's timestamps are not ascending".to_owned(),
            SnapshotError::ChunksOverlap => "chunks overlap".to_owned(),
            SnapshotError::HeadOverlaps => "a snapshot head overlaps its chunks".to_owned(),
            SnapshotError::Chunk(e) => {
                let mut s = "a chunk failed to decode: ".to_owned();
                s.append(e.message().as_str());
                s
            },
        }
    }
}

/// A count as far as its width reaches.
pub open spec fn capped_at(n: nat, most: nat) -> nat {
    if n <= most {
        n
    } else {
        most
    }
}

/// A text behind its length, as far as a length of two bytes reaches.
pub open spec fn text_bytes(s: Seq<char>) -> Seq<u8> {
    let n = capped_at(utf8::encode_utf8(s).len(), 0xffff);
    bytes::little(n, 2) + utf8::encode_utf8(s).take(n as int)
}

/// Labels, name and value in turn.
pub open spec fn label_bytes(labels: Seq<Entry>) -> Seq<u8>
    decreases labels.len(),
{
    if labels.len() == 0 {
        seq![]
    } else {
        text_bytes(labels[0].0) + text_bytes(labels[0].1) + label_bytes(labels.drop_first())
    }
}

/// A chunk: what it says of itself, and its bytes.
pub open spec fn chunk_bytes(c: ChunkView) -> Seq<u8> {
    bytes::little(bytes::bits_of(c.first_t) as nat, 8) + bytes::little(
        bytes::bits_of(c.last_t) as nat,
        8,
    ) + bytes::little(c.count as nat, 4) + bytes::little(capped_at(c.bytes.len(), 0xffff_ffff), 4)
        + c.bytes
}

/// Chunks, one after the other.
pub open spec fn chunks_bytes(chunks: Seq<ChunkView>) -> Seq<u8>
    decreases chunks.len(),
{
    if chunks.len() == 0 {
        seq![]
    } else {
        chunk_bytes(chunks[0]) + chunks_bytes(chunks.drop_first())
    }
}

/// A raw sample.
pub open spec fn sample_bytes(s: Sample) -> Seq<u8> {
    bytes::little(bytes::bits_of(s.t) as nat, 8) + bytes::little(s.v as nat, 8)
}

/// Raw samples, one after the other.
pub open spec fn samples_bytes(samples: Seq<Sample>) -> Seq<u8>
    decreases samples.len(),
{
    if samples.len() == 0 {
        seq![]
    } else {
        sample_bytes(samples[0]) + samples_bytes(samples.drop_first())
    }
}

/// A series: its labels, its chunks and its head, each behind its count.
pub open spec fn series_bytes(s: SeriesView) -> Seq<u8> {
    bytes::little(capped_at(s.labels.len(), 0xffff), 2) + label_bytes(s.labels) + bytes::little(
        capped_at(s.chunks.len(), 0xffff_ffff),
        4,
    ) + chunks_bytes(s.chunks) + bytes::little(capped_at(s.head.len(), 0xffff_ffff), 4)
        + samples_bytes(s.head)
}

/// What a snapshot of so many series starts with.
pub open spec fn header_bytes(count: nat) -> Seq<u8> {
    magic() + bytes::little(VERSION as nat, 2) + bytes::little(capped_at(count, 0xffff_ffff), 4)
}

/// Series, one after the other.
pub open spec fn all_bytes(series: Seq<(Seq<char>, SeriesView)>) -> Seq<u8>
    decreases series.len(),
{
    if series.len() == 0 {
        seq![]
    } else {
        series_bytes(series[0].1) + all_bytes(series.drop_first())
    }
}

/// A snapshot of a store.
pub open spec fn saved(v: StoreView) -> Seq<u8> {
    header_bytes(v.series.len()) + all_bytes(v.series)
}

fn write_count(out: &mut Vec<u8>, n: usize, most: u64, width: usize)
    ensures
        final(out)@ == old(out)@ + bytes::little(capped_at(n as nat, most as nat), width as nat),
{
    let n = n as u64;
    bytes::put_little(
        out,
        if n <= most {
            n
        } else {
            most
        },
        width,
    );
}

/// Writes a text behind its length in bytes.
pub fn write_string(out: &mut Vec<u8>, value: &str)
    ensures
        final(out)@ == old(out)@ + text_bytes(value@),
{
    let s = value.as_bytes();
    let n: usize = if s.len() <= 0xffff {
        s.len()
    } else {
        0xffff
    };
    bytes::put_little(out, n as u64, 2);
    let kept = slice_subrange(s, 0, n);
    bytes::put_bytes(out, kept);
    proof {
        assert(kept@ =~= utf8::encode_utf8(value@).take(n as int));
        assert(out@ =~= old(out)@ + text_bytes(value@));
    }
}

fn write_labels(out: &mut Vec<u8>, labels: &Labels)
    ensures
        final(out)@ == old(out)@ + label_bytes(labels@),
{
    let entries = labels.entries();
    let mut i: usize = 0;
    proof {
        assert(labels@.skip(0) =~= labels@);
    }
    while i < entries.len()
        invariant
            i <= entries@.len(),
            labels@ == textmap::entries_of(entries@),
            old(out)@ + label_bytes(labels@) == out@ + label_bytes(labels@.skip(i as int)),
        decreases entries@.len() - i,
    {
        let ghost was = out@;
        let ghost rest = labels@.skip(i as int);
        write_string(out, entries[i].0.as_str());
        write_string(out, entries[i].1.as_str());
        proof {
            assert(rest[0] == (entries@[i as int].0@, entries@[i as int].1@));
            assert(rest.drop_first() =~= labels@.skip(i + 1));
            assert(was + label_bytes(rest) =~= out@ + label_bytes(labels@.skip(i + 1)));
        }
        i += 1;
    }
    proof {
        assert(out@ =~= old(out)@ + label_bytes(labels@));
    }
}

fn write_chunk(out: &mut Vec<u8>, c: &Chunk)
    ensures
        final(out)@ == old(out)@ + chunk_bytes(c@),
{
    bytes::put_little(out, bytes::to_bits(c.first_t()), 8);
    bytes::put_little(out, bytes::to_bits(c.last_t()), 8);
    bytes::put_little(out, c.count() as u64, 4);
    let held = c.raw_bytes();
    write_count(out, held.len(), 0xffff_ffff, 4);
    bytes::put_bytes(out, held);
    proof {
        assert(out@ =~= old(out)@ + chunk_bytes(c@));
    }
}

fn write_chunks(out: &mut Vec<u8>, chunks: &[Chunk])
    ensures
        final(out)@ == old(out)@ + chunks_bytes(series::chunk_views(chunks@)),
{
    let ghost all = series::chunk_views(chunks@);
    let mut i: usize = 0;
    proof {
        assert(all.skip(0) =~= all);
    }
    while i < chunks.len()
        invariant
            i <= chunks@.len(),
            all == series::chunk_views(chunks@),
            old(out)@ + chunks_bytes(all) == out@ + chunks_bytes(all.skip(i as int)),
        decreases chunks@.len() - i,
    {
        let ghost was = out@;
        let ghost rest = all.skip(i as int);
        write_chunk(out, &chunks[i]);
        proof {
            assert(rest[0] == chunks@[i as int]@);
            assert(rest.drop_first() =~= all.skip(i + 1));
            assert(was + chunks_bytes(rest) =~= out@ + chunks_bytes(all.skip(i + 1)));
        }
        i += 1;
    }
    proof {
        assert(out@ =~= old(out)@ + chunks_bytes(all));
    }
}

fn write_samples(out: &mut Vec<u8>, samples: &[Sample])
    ensures
        final(out)@ == old(out)@ + samples_bytes(samples@),
{
    let mut i: usize = 0;
    proof {
        assert(samples@.skip(0) =~= samples@);
    }
    while i < samples.len()
        invariant
            i <= samples@.len(),
            old(out)@ + samples_bytes(samples@) == out@ + samples_bytes(samples@.skip(i as int)),
        decreases samples@.len() - i,
    {
        let ghost was = out@;
        let ghost rest = samples@.skip(i as int);
        bytes::put_little(out, bytes::to_bits(samples[i].t), 8);
        bytes::put_little(out, samples[i].v, 8);
        proof {
            assert(rest.drop_first() =~= samples@.skip(i + 1));
            assert(was + samples_bytes(rest) =~= out@ + samples_bytes(samples@.skip(i + 1)));
        }
        i += 1;
    }
    proof {
        assert(out@ =~= old(out)@ + samples_bytes(samples@));
    }
}

/// The bytes that a snapshot of so many series starts with.
pub fn header(count: usize) -> (out: Vec<u8>)
    ensures
        out@ == header_bytes(count as nat),
{
    let mut out: Vec<u8> = Vec::new();
    out.push(0x4c);
    out.push(0x4d);
    out.push(0x44);
    out.push(0x31);
    bytes::put_little(&mut out, VERSION as u64, 2);
    write_count(&mut out, count, 0xffff_ffff, 4);
    proof {
        assert(out@ =~= header_bytes(count as nat));
    }
    out
}

/// The bytes of one series. A snapshot is its header and one of these for
/// each series, so it can be written without ever being held whole.
pub fn record(series: &Series) -> (out: Vec<u8>)
    ensures
        out@ == series_bytes(series@),
{
    let mut out: Vec<u8> = Vec::new();
    write_count(&mut out, series.labels().len(), 0xffff, 2);
    write_labels(&mut out, series.labels());
    write_count(&mut out, series.sealed_chunks().len(), 0xffff_ffff, 4);
    write_chunks(&mut out, series.sealed_chunks());
    write_count(&mut out, series.head().len(), 0xffff_ffff, 4);
    write_samples(&mut out, series.head());
    proof {
        assert(out@ =~= series_bytes(series@));
    }
    out
}

/// A whole snapshot.
pub fn save(store: &Store) -> (out: Vec<u8>)
    requires
        store.wf(),
    ensures
        out@ == saved(store@),
{
    let mut out = header(store.series_count());
    let all = store.series_iter();
    let ghost front = out@;
    let ghost entries = store@.series;
    let mut i: usize = 0;
    proof {
        assert(entries.skip(0) =~= entries);
        assert(store::ref_views(all@).len() == entries.len());
        assert forall|j: int| 0 <= j < entries.len() implies (#[trigger] all@[j])@ == entries[j].1 by {
            assert(store::ref_views(all@)[j] == all@[j]@);
        }
    }
    while i < all.len()
        invariant
            i <= all@.len() == entries.len(),
            forall|j: int| 0 <= j < entries.len() ==> (#[trigger] all@[j])@ == entries[j].1,
            front + all_bytes(entries) == out@ + all_bytes(entries.skip(i as int)),
        decreases all@.len() - i,
    {
        let ghost was = out@;
        let ghost rest = entries.skip(i as int);
        let mut more = record(all[i]);
        out.append(&mut more);
        proof {
            assert(rest.drop_first() =~= entries.skip(i + 1));
            assert(was + all_bytes(rest) =~= out@ + all_bytes(entries.skip(i + 1)));
        }
        i += 1;
    }
    proof {
        assert(entries.skip(i as int) =~= seq![]);
        assert(out@ =~= saved(store@));
    }
    out
}

/// Reads a number of so many bytes.
pub open spec fn take_number(s: Seq<u8>, width: nat) -> Result<(nat, Seq<u8>), SnapshotError> {
    if s.len() < width {
        Err(SnapshotError::UnexpectedEnd)
    } else {
        Ok((bytes::number(s.take(width as int)), s.skip(width as int)))
    }
}

/// Reads a text.
pub open spec fn take_text(s: Seq<u8>) -> Result<(Seq<char>, Seq<u8>), SnapshotError> {
    match take_number(s, 2) {
        Err(e) => Err(e),
        Ok((n, rest)) => if n > MAX_STRING {
            Err(SnapshotError::StringLength(n as u16))
        } else if rest.len() < n {
            Err(SnapshotError::LabelEndedEarly)
        } else if !utf8::valid_utf8(rest.take(n as int)) {
            Err(SnapshotError::LabelNotText)
        } else {
            Ok((utf8::decode_utf8(rest.take(n as int)), rest.skip(n as int)))
        },
    }
}

/// Reads `n` more labels, each put in with those in `out`.
pub open spec fn take_labels(s: Seq<u8>, n: nat, out: Seq<Entry>) -> Result<
    (Seq<Entry>, Seq<u8>),
    SnapshotError,
>
    decreases n,
{
    if n == 0 {
        Ok((out, s))
    } else {
        match take_text(s) {
            Err(e) => Err(e),
            Ok((k, after)) => match take_text(after) {
                Err(e) => Err(e),
                Ok((v, rest)) => take_labels(rest, (n - 1) as nat, textmap::with_entry(out, k, v)),
            },
        }
    }
}

/// Whether a sample read behind others is kept: not aged out, and later
/// than them.
pub open spec fn keeps(out: Seq<Sample>, t: i64, cutoff: int) -> bool {
    t >= cutoff && (out.len() > 0 ==> out.last().t < t)
}

/// Reads `n` more raw samples behind those in `out`, dropping what has aged
/// out and what is out of order.
pub open spec fn take_samples(s: Seq<u8>, n: nat, cutoff: int, out: Seq<Sample>) -> Result<
    (Seq<Sample>, Seq<u8>),
    SnapshotError,
>
    decreases n,
{
    if n == 0 {
        Ok((out, s))
    } else {
        match take_number(s, 8) {
            Err(e) => Err(e),
            Ok((t, after)) => match take_number(after, 8) {
                Err(e) => Err(e),
                Ok((v, rest)) => {
                    let sample = Sample { t: bytes::of_bits(t as u64), v: v as u64 };
                    take_samples(
                        rest,
                        (n - 1) as nat,
                        cutoff,
                        if keeps(out, sample.t, cutoff) {
                            out.push(sample)
                        } else {
                            out
                        },
                    )
                },
            },
        }
    }
}

/// Reads raw samples behind their count.
pub open spec fn take_counted_samples(s: Seq<u8>, cutoff: int) -> Result<
    (Seq<Sample>, Seq<u8>),
    SnapshotError,
> {
    match take_number(s, 4) {
        Err(e) => Err(e),
        Ok((n, rest)) => if n > MAX_SAMPLES_PER_SERIES {
            Err(SnapshotError::SampleCount(n as u32))
        } else {
            take_samples(rest, n, cutoff, seq![])
        },
    }
}

/// What is wrong with a chunk, if anything is.
pub open spec fn chunk_fault(c: ChunkView) -> Option<SnapshotError> {
    let (samples, error) = chunk::decoded(c);
    if error is Some {
        Some(SnapshotError::Chunk(error->0))
    } else if samples.last().t != c.last_t {
        Some(SnapshotError::HeaderDisagrees)
    } else if !chunk::ascending(samples) {
        Some(SnapshotError::NotAscending)
    } else {
        None
    }
}

/// Reads a chunk.
pub open spec fn take_chunk(s: Seq<u8>) -> Result<(ChunkView, Seq<u8>), SnapshotError> {
    match take_number(s, 8) {
        Err(e) => Err(e),
        Ok((first, s1)) => match take_number(s1, 8) {
            Err(e) => Err(e),
            Ok((last, s2)) => match take_number(s2, 4) {
                Err(e) => Err(e),
                Ok((count, s3)) => {
                    let first_t = bytes::of_bits(first as u64);
                    let last_t = bytes::of_bits(last as u64);
                    if count == 0 || count > MAX_CHUNK_SAMPLES_ON_DISK {
                        Err(SnapshotError::ChunkSampleCount(count as u32))
                    } else if last_t < first_t {
                        Err(SnapshotError::ChunkEndsFirst)
                    } else {
                        match take_number(s3, 4) {
                            Err(e) => Err(e),
                            Ok((n, s4)) => if n > MAX_CHUNK_BYTES {
                                Err(SnapshotError::ChunkLength(n as u32))
                            } else if s4.len() < n {
                                Err(SnapshotError::UnexpectedEnd)
                            } else {
                                let c = ChunkView {
                                    first_t,
                                    last_t,
                                    count: count as u32,
                                    bytes: s4.take(n as int),
                                };
                                match chunk_fault(c) {
                                    Some(e) => Err(e),
                                    None => Ok((c, s4.skip(n as int))),
                                }
                            },
                        }
                    }
                },
            },
        },
    }
}

/// Reads `n` more chunks behind those in `out`, dropping those that have
/// aged out.
pub open spec fn take_chunks(s: Seq<u8>, n: nat, cutoff: int, out: Seq<ChunkView>) -> Result<
    (Seq<ChunkView>, Seq<u8>),
    SnapshotError,
>
    decreases n,
{
    if n == 0 {
        Ok((out, s))
    } else {
        match take_chunk(s) {
            Err(e) => Err(e),
            Ok((c, rest)) => if c.last_t < cutoff {
                take_chunks(rest, (n - 1) as nat, cutoff, out)
            } else if out.len() > 0 && out.last().last_t >= c.first_t {
                Err(SnapshotError::ChunksOverlap)
            } else {
                take_chunks(rest, (n - 1) as nat, cutoff, out.push(c))
            },
        }
    }
}

/// Reads a series that is held raw into a store.
pub open spec fn take_raw_series(s: Seq<u8>, labels: Seq<Entry>, cutoff: int, v: StoreView) -> Result<
    (StoreView, Seq<u8>),
    SnapshotError,
> {
    match take_counted_samples(s, cutoff) {
        Err(e) => Err(e),
        Ok((samples, rest)) => if !series::packable(samples) {
            Err(SnapshotError::GapTooWide)
        } else if samples.len() == 0 {
            Ok((v, rest))
        } else {
            Ok((store::with_series(v, series::packed(labels, samples)), rest))
        },
    }
}

/// Reads a series that is held in chunks into a store.
pub open spec fn take_chunked_series(
    s: Seq<u8>,
    labels: Seq<Entry>,
    cutoff: int,
    v: StoreView,
) -> Result<(StoreView, Seq<u8>), SnapshotError> {
    match take_number(s, 4) {
        Err(e) => Err(e),
        Ok((n, after)) => if n > MAX_CHUNKS_PER_SERIES {
            Err(SnapshotError::ChunkCount(n as u32))
        } else {
            match take_chunks(after, n, cutoff, seq![]) {
                Err(e) => Err(e),
                Ok((chunks, behind)) => match take_counted_samples(behind, cutoff) {
                    Err(e) => Err(e),
                    Ok((head, rest)) => if chunks.len() > 0 && head.len() > 0
                        && chunks.last().last_t >= head[0].t {
                        Err(SnapshotError::HeadOverlaps)
                    } else if chunks.len() == 0 && head.len() == 0 {
                        Ok((v, rest))
                    } else {
                        Ok((store::with_series(v, SeriesView { labels, chunks, head }), rest))
                    },
                },
            }
        },
    }
}

/// Reads a series into a store.
pub open spec fn take_series(s: Seq<u8>, raw: bool, cutoff: int, v: StoreView) -> Result<
    (StoreView, Seq<u8>),
    SnapshotError,
> {
    match take_number(s, 2) {
        Err(e) => Err(e),
        Ok((n, after)) => if n > MAX_LABELS {
            Err(SnapshotError::LabelCount(n as u16))
        } else {
            match take_labels(after, n, seq![]) {
                Err(e) => Err(e),
                Ok((labels, rest)) => if raw {
                    take_raw_series(rest, labels, cutoff, v)
                } else {
                    take_chunked_series(rest, labels, cutoff, v)
                },
            }
        },
    }
}

/// Reads `n` more series into a store.
pub open spec fn take_all(s: Seq<u8>, n: nat, raw: bool, cutoff: int, v: StoreView) -> Result<
    StoreView,
    SnapshotError,
>
    decreases n,
{
    if n == 0 {
        Ok(v)
    } else {
        match take_series(s, raw, cutoff, v) {
            Err(e) => Err(e),
            Ok((next, rest)) => take_all(rest, (n - 1) as nat, raw, cutoff, next),
        }
    }
}

/// A store that holds nothing.
pub open spec fn empty_store(retention: i64) -> StoreView {
    StoreView { series: seq![], names: seq![], retention }
}

/// Reads what a snapshot starts with: whether its series are held raw, and
/// how many there are.
pub open spec fn take_header(s: Seq<u8>) -> Result<((bool, nat), Seq<u8>), SnapshotError> {
    if s.len() < 4 {
        Err(SnapshotError::NoHeader)
    } else if s.take(4) != magic() {
        Err(SnapshotError::NotASnapshot)
    } else {
        match take_number(s.skip(4), 2) {
            Err(e) => Err(e),
            Ok((version, after)) => if version != VERSION && version != VERSION_RAW_SAMPLES {
                Err(SnapshotError::UnsupportedVersion(version as u16))
            } else {
                match take_number(after, 4) {
                    Err(e) => Err(e),
                    Ok((n, rest)) => if n > MAX_SERIES {
                        Err(SnapshotError::SeriesCount(n as u32))
                    } else {
                        Ok(((version == VERSION_RAW_SAMPLES, n), rest))
                    },
                }
            },
        }
    }
}

/// The store that a snapshot gives at `now`.
pub open spec fn loaded(s: Seq<u8>, retention: i64, now: i64) -> Result<StoreView, SnapshotError> {
    match take_header(s) {
        Err(e) => Err(e),
        Ok(((raw, n), rest)) => take_all(rest, n, raw, now - retention, empty_store(retention)),
    }
}

fn read_number(input: &mut &[u8], width: usize) -> (r: Result<u64, SnapshotError>)
    requires
        width <= 8,
    ensures
        match r {
            Ok(n) => take_number(old(input)@, width as nat) == Ok::<(nat, Seq<u8>), SnapshotError>(
                (n as nat, final(input)@),
            ) && n < bytes::span(width as nat),
            Err(e) => take_number(old(input)@, width as nat) == Err::<
                (nat, Seq<u8>),
                SnapshotError,
            >(e),
        },
{
    match bytes::take_bytes(input, width) {
        Some(head) => {
            proof {
                bytes::lemma_number_bound(head@);
            }
            Ok(bytes::get_little(head))
        },
        None => Err(SnapshotError::UnexpectedEnd),
    }
}

/// Reads a text that stands behind its length in bytes.
pub fn read_string(input: &mut &[u8]) -> (r: Result<String, SnapshotError>)
    ensures
        match r {
            Ok(s) => take_text(old(input)@) == Ok::<(Seq<char>, Seq<u8>), SnapshotError>(
                (s@, final(input)@),
            ),
            Err(e) => take_text(old(input)@) == Err::<(Seq<char>, Seq<u8>), SnapshotError>(e),
        },
{
    proof {
        bytes::lemma_span();
    }
    let n = match read_number(input, 2) {
        Ok(n) => n,
        Err(e) => return Err(e),
    };
    if n > MAX_STRING as u64 {
        return Err(SnapshotError::StringLength(n as u16));
    }
    let head = match bytes::take_bytes(input, n as usize) {
        Some(head) => head,
        None => return Err(SnapshotError::LabelEndedEarly),
    };
    let mut held: Vec<u8> = Vec::with_capacity(head.len());
    bytes::put_bytes(&mut held, head);
    proof {
        assert(held@ =~= head@);
    }
    match text::from_utf8(held) {
        Some(s) => {
            proof {
                utf8::encode_utf8_decode_utf8(s@);
                utf8::encode_utf8_valid_utf8(s@);
            }
            Ok(s)
        },
        None => Err(SnapshotError::LabelNotText),
    }
}

fn read_labels(input: &mut &[u8], n: u64) -> (r: Result<Labels, SnapshotError>)
    ensures
        match r {
            Ok(labels) => take_labels(old(input)@, n as nat, seq![]) == Ok::<
                (Seq<Entry>, Seq<u8>),
                SnapshotError,
            >((labels@, final(input)@)),
            Err(e) => take_labels(old(input)@, n as nat, seq![]) == Err::<
                (Seq<Entry>, Seq<u8>),
                SnapshotError,
            >(e),
        },
{
    let mut labels = Labels::new();
    let mut i: u64 = 0;
    while i < n
        invariant
            i <= n,
            take_labels(old(input)@, n as nat, seq![]) == take_labels(
                input@,
                (n - i) as nat,
                labels@,
            ),
        decreases n - i,
    {
        let key = match read_string(input) {
            Ok(key) => key,
            Err(e) => return Err(e),
        };
        let value = match read_string(input) {
            Ok(value) => value,
            Err(e) => return Err(e),
        };
        labels.insert(key, value);
        i += 1;
    }
    Ok(labels)
}

/// A run of raw samples, dropping anything already aged out and anything
/// out of order, so that a rewound clock cannot interleave them.
fn read_raw_samples(input: &mut &[u8], cutoff: i128) -> (r: Result<Vec<Sample>, SnapshotError>)
    ensures
        match r {
            Ok(samples) => {
                &&& take_counted_samples(old(input)@, cutoff as int) == Ok::<
                    (Seq<Sample>, Seq<u8>),
                    SnapshotError,
                >((samples@, final(input)@))
                &&& chunk::ascending(samples@)
                &&& samples@.len() <= MAX_SAMPLES_PER_SERIES
            },
            Err(e) => take_counted_samples(old(input)@, cutoff as int) == Err::<
                (Seq<Sample>, Seq<u8>),
                SnapshotError,
            >(e),
        },
{
    proof {
        bytes::lemma_span();
    }
    let n = match read_number(input, 4) {
        Ok(n) => n,
        Err(e) => return Err(e),
    };
    if n > MAX_SAMPLES_PER_SERIES as u64 {
        return Err(SnapshotError::SampleCount(n as u32));
    }
    let mut samples: Vec<Sample> = Vec::with_capacity(
        if n < 4096 {
            n as usize
        } else {
            4096
        },
    );
    let mut i: u64 = 0;
    while i < n
        invariant
            i <= n <= MAX_SAMPLES_PER_SERIES,
            samples@.len() <= i,
            chunk::ascending(samples@),
            take_counted_samples(old(input)@, cutoff as int) == take_samples(
                input@,
                (n - i) as nat,
                cutoff as int,
                samples@,
            ),
        decreases n - i,
    {
        let t = match read_number(input, 8) {
            Ok(n) => bytes::from_bits(n),
            Err(e) => return Err(e),
        };
        let v = match read_number(input, 8) {
            Ok(n) => n,
            Err(e) => return Err(e),
        };
        let k = samples.len();
        if t as i128 >= cutoff && (k == 0 || samples[k - 1].t < t) {
            let ghost was = samples@;
            samples.push(Sample { t, v });
            proof {
                assert forall|a: int, b: int| 0 <= a < b < samples@.len() implies samples@[a].t
                    < samples@[b].t by {
                    if b == k && a < k - 1 {
                        assert(was[a].t < was[k - 1].t);
                    }
                }
            }
        }
        i += 1;
    }
    Ok(samples)
}

/// Whether samples ascend.
fn is_ascending(samples: &[Sample]) -> (r: bool)
    ensures
        r == chunk::ascending(samples@),
{
    let mut i: usize = 1;
    while i < samples.len()
        invariant
            1 <= i,
            i <= samples@.len() || samples@.len() == 0,
            forall|a: int, b: int| 0 <= a < b < i && b < samples@.len() ==> samples@[a].t < samples@[b].t,
        decreases samples@.len() - i,
    {
        if samples[i - 1].t >= samples[i].t {
            assert(!(samples@[i - 1].t < samples@[i as int].t));
            return false;
        }
        proof {
            assert forall|a: int, b: int| 0 <= a < b < i + 1 && b < samples@.len() implies samples@[a].t
                < samples@[b].t by {
                if b == i && a < i - 1 {
                    assert(samples@[a].t < samples@[i - 1].t);
                }
            }
        }
        i += 1;
    }
    true
}

/// What is wrong with a chunk, if anything is. Expanding it once here means
/// that nothing downstream has to cope with a chunk that cannot be read.
fn fault_of(c: &Chunk) -> (r: Option<SnapshotError>)
    requires
        c@.count > 0,
    ensures
        r == chunk_fault(c@),
        r is None ==> series::sound(c@),
{
    let mut probe: Vec<Sample> = Vec::new();
    let result = chunk::decode_into(c, &mut probe);
    proof {
        assert(probe@ =~= chunk::decoded(c@).0);
    }
    match result {
        Err(e) => Some(SnapshotError::Chunk(e)),
        Ok(()) => {
            proof {
                chunk::law_header_is_right(c@);
                reveal(series::sound);
            }
            if probe[probe.len() - 1].t != c.last_t() {
                Some(SnapshotError::HeaderDisagrees)
            } else if !is_ascending(probe.as_slice()) {
                Some(SnapshotError::NotAscending)
            } else {
                None
            }
        },
    }
}

fn read_chunk(input: &mut &[u8]) -> (r: Result<Chunk, SnapshotError>)
    ensures
        match r {
            Ok(c) => take_chunk(old(input)@) == Ok::<(ChunkView, Seq<u8>), SnapshotError>(
                (c@, final(input)@),
            ) && series::sound(c@),
            Err(e) => take_chunk(old(input)@) == Err::<(ChunkView, Seq<u8>), SnapshotError>(e),
        },
{
    proof {
        bytes::lemma_span();
    }
    let first_t = match read_number(input, 8) {
        Ok(n) => bytes::from_bits(n),
        Err(e) => return Err(e),
    };
    let last_t = match read_number(input, 8) {
        Ok(n) => bytes::from_bits(n),
        Err(e) => return Err(e),
    };
    let count = match read_number(input, 4) {
        Ok(n) => n as u32,
        Err(e) => return Err(e),
    };
    if count == 0 || count > MAX_CHUNK_SAMPLES_ON_DISK {
        return Err(SnapshotError::ChunkSampleCount(count));
    }
    if last_t < first_t {
        return Err(SnapshotError::ChunkEndsFirst);
    }
    let n = match read_number(input, 4) {
        Ok(n) => n,
        Err(e) => return Err(e),
    };
    if n > MAX_CHUNK_BYTES as u64 {
        return Err(SnapshotError::ChunkLength(n as u32));
    }
    let head = match bytes::take_bytes(input, n as usize) {
        Some(head) => head,
        None => return Err(SnapshotError::UnexpectedEnd),
    };
    let mut held: Vec<u8> = Vec::with_capacity(head.len());
    bytes::put_bytes(&mut held, head);
    proof {
        assert(held@ =~= head@);
    }
    let c = Chunk::from_parts(first_t, last_t, count, room::boxed(held));
    match fault_of(&c) {
        Some(e) => Err(e),
        None => Ok(c),
    }
}

fn read_chunks(input: &mut &[u8], n: u64, cutoff: i128) -> (r: Result<Vec<Chunk>, SnapshotError>)
    requires
        n <= MAX_CHUNKS_PER_SERIES,
    ensures
        match r {
            Ok(chunks) => {
                &&& take_chunks(old(input)@, n as nat, cutoff as int, seq![]) == Ok::<
                    (Seq<ChunkView>, Seq<u8>),
                    SnapshotError,
                >((series::chunk_views(chunks@), final(input)@))
                &&& series::chunks_wf(series::chunk_views(chunks@))
            },
            Err(e) => take_chunks(old(input)@, n as nat, cutoff as int, seq![]) == Err::<
                (Seq<ChunkView>, Seq<u8>),
                SnapshotError,
            >(e),
        },
{
    let mut chunks: Vec<Chunk> = Vec::with_capacity(n as usize);
    let mut i: u64 = 0;
    proof {
        assert(series::chunk_views(chunks@) =~= seq![]);
    }
    while i < n
        invariant
            i <= n,
            series::chunks_wf(series::chunk_views(chunks@)),
            take_chunks(old(input)@, n as nat, cutoff as int, seq![]) == take_chunks(
                input@,
                (n - i) as nat,
                cutoff as int,
                series::chunk_views(chunks@),
            ),
        decreases n - i,
    {
        let ghost views = series::chunk_views(chunks@);
        let c = match read_chunk(input) {
            Ok(c) => c,
            Err(e) => return Err(e),
        };
        // Retention applies at chunk granularity, matching the store.
        if c.last_t() as i128 >= cutoff {
            let k = chunks.len();
            if k > 0 && chunks[k - 1].last_t() >= c.first_t() {
                return Err(SnapshotError::ChunksOverlap);
            }
            let ghost view = c@;
            chunks.push(c);
            proof {
                assert(series::chunk_views(chunks@) =~= views.push(view));
                series::lemma_chunk_behind(views, view);
            }
        }
        i += 1;
    }
    Ok(chunks)
}

/// Whether samples can be packed into chunks of the usual length.
fn is_packable(samples: &[Sample]) -> (r: bool)
    requires
        chunk::ascending(samples@),
    ensures
        r == series::packable(samples@),
{
    let mut left = samples;
    while left.len() >= series::MAX_CHUNK_SAMPLES
        invariant
            chunk::ascending(left@),
            series::packable(samples@) == series::packable(left@),
        decreases left@.len(),
    {
        let full = slice_subrange(left, 0, series::MAX_CHUNK_SAMPLES);
        let rest = slice_subrange(left, series::MAX_CHUNK_SAMPLES, left.len());
        proof {
            assert(full@ =~= left@.take(series::MAX_CHUNK_SAMPLES as int));
            assert(rest@ =~= left@.skip(series::MAX_CHUNK_SAMPLES as int));
        }
        if !fits_gaps(full) {
            return false;
        }
        left = rest;
    }
    true
}

fn fits_gaps(samples: &[Sample]) -> (r: bool)
    ensures
        r == series::gaps_fit(samples@),
{
    let mut i: usize = 1;
    while i < samples.len()
        invariant
            1 <= i,
            i <= samples@.len() || samples@.len() == 0,
            forall|a: int|
                0 <= a < i - 1 && a < samples@.len() - 1 ==> (#[trigger] samples@[a + 1]).t
                    - samples@[a].t <= i64::MAX,
        decreases samples@.len() - i,
    {
        if samples[i].t as i128 - samples[i - 1].t as i128 > i64::MAX as i128 {
            proof {
                assert(samples@[(i - 1) + 1].t - samples@[i - 1].t > i64::MAX);
            }
            return false;
        }
        i += 1;
    }
    true
}

fn read_raw_series(input: &mut &[u8], labels: Labels, cutoff: i128, store: &mut Store) -> (r:
    Result<(), SnapshotError>)
    requires
        old(store).wf(),
    ensures
        final(store).wf(),
        match r {
            Ok(()) => take_raw_series(old(input)@, labels@, cutoff as int, old(store)@) == Ok::<
                (StoreView, Seq<u8>),
                SnapshotError,
            >((final(store)@, final(input)@)),
            Err(e) => final(store)@ == old(store)@ && take_raw_series(old(input)@, labels@, cutoff as int, old(store)@)
                == Err::<(StoreView, Seq<u8>), SnapshotError>(e),
        },
{
    let samples = match read_raw_samples(input, cutoff) {
        Ok(samples) => samples,
        Err(e) => return Err(e),
    };
    if !is_packable(samples.as_slice()) {
        return Err(SnapshotError::GapTooWide);
    }
    store.insert_series(labels, samples);
    Ok(())
}

fn read_chunked_series(input: &mut &[u8], labels: Labels, cutoff: i128, store: &mut Store) -> (r:
    Result<(), SnapshotError>)
    requires
        old(store).wf(),
    ensures
        final(store).wf(),
        match r {
            Ok(()) => take_chunked_series(old(input)@, labels@, cutoff as int, old(store)@) == Ok::<
                (StoreView, Seq<u8>),
                SnapshotError,
            >((final(store)@, final(input)@)),
            Err(e) => final(store)@ == old(store)@ && take_chunked_series(old(input)@, labels@, cutoff as int, old(store)@)
                == Err::<(StoreView, Seq<u8>), SnapshotError>(e),
        },
{
    proof {
        bytes::lemma_span();
    }
    let n = match read_number(input, 4) {
        Ok(n) => n,
        Err(e) => return Err(e),
    };
    if n > MAX_CHUNKS_PER_SERIES as u64 {
        return Err(SnapshotError::ChunkCount(n as u32));
    }
    let chunks = match read_chunks(input, n, cutoff) {
        Ok(chunks) => chunks,
        Err(e) => return Err(e),
    };
    let head = match read_raw_samples(input, cutoff) {
        Ok(head) => head,
        Err(e) => return Err(e),
    };
    // A head that predates the newest surviving chunk would break the
    // store's ordering.
    let k = chunks.len();
    if k > 0 && head.len() > 0 && chunks[k - 1].last_t() >= head[0].t {
        return Err(SnapshotError::HeadOverlaps);
    }
    store.insert_chunked(labels, chunks, head);
    Ok(())
}

pub(crate) fn read_series(input: &mut &[u8], raw: bool, cutoff: i128, store: &mut Store) -> (r: Result<
    (),
    SnapshotError,
>)
    requires
        old(store).wf(),
    ensures
        final(store).wf(),
        match r {
            Ok(()) => take_series(old(input)@, raw, cutoff as int, old(store)@) == Ok::<
                (StoreView, Seq<u8>),
                SnapshotError,
            >((final(store)@, final(input)@)),
            Err(e) => final(store)@ == old(store)@ && take_series(old(input)@, raw, cutoff as int, old(store)@)
                == Err::<(StoreView, Seq<u8>), SnapshotError>(e),
        },
{
    proof {
        bytes::lemma_span();
    }
    let n = match read_number(input, 2) {
        Ok(n) => n,
        Err(e) => return Err(e),
    };
    if n > MAX_LABELS as u64 {
        return Err(SnapshotError::LabelCount(n as u16));
    }
    let labels = match read_labels(input, n) {
        Ok(labels) => labels,
        Err(e) => return Err(e),
    };
    if raw {
        read_raw_series(input, labels, cutoff, store)
    } else {
        read_chunked_series(input, labels, cutoff, store)
    }
}

/// Reads what a snapshot starts with.
pub(crate) fn read_header(input: &mut &[u8]) -> (r: Result<(bool, u64), SnapshotError>)
    ensures
        match r {
            Ok((raw, n)) => take_header(old(input)@) == Ok::<((bool, nat), Seq<u8>), SnapshotError>(
                ((raw, n as nat), final(input)@),
            ),
            Err(e) => take_header(old(input)@) == Err::<((bool, nat), Seq<u8>), SnapshotError>(e),
        },
{
    proof {
        bytes::lemma_span();
    }
    let front = match bytes::take_bytes(input, 4) {
        Some(front) => front,
        None => return Err(SnapshotError::NoHeader),
    };
    if front[0] != 0x4c || front[1] != 0x4d || front[2] != 0x44 || front[3] != 0x31 {
        proof {
            assert(magic()[0] == 0x4c && magic()[1] == 0x4d && magic()[2] == 0x44 && magic()[3]
                == 0x31);
        }
        return Err(SnapshotError::NotASnapshot);
    }
    proof {
        assert(front@ =~= magic());
    }
    let version = match read_number(input, 2) {
        Ok(n) => n as u16,
        Err(e) => return Err(e),
    };
    if version != VERSION && version != VERSION_RAW_SAMPLES {
        return Err(SnapshotError::UnsupportedVersion(version));
    }
    let n = match read_number(input, 4) {
        Ok(n) => n,
        Err(e) => return Err(e),
    };
    if n > MAX_SERIES as u64 {
        return Err(SnapshotError::SeriesCount(n as u32));
    }
    Ok((version == VERSION_RAW_SAMPLES, n))
}

/// Reads so many series into a store.
pub(crate) fn read_all(input: &[u8], n: u64, raw: bool, cutoff: i128, store: Store) -> (r: Result<
    Store,
    SnapshotError,
>)
    requires
        store.wf(),
    ensures
        match r {
            Ok(out) => out.wf() && take_all(input@, n as nat, raw, cutoff as int, store@) == Ok::<
                StoreView,
                SnapshotError,
            >(out@),
            Err(e) => take_all(input@, n as nat, raw, cutoff as int, store@) == Err::<
                StoreView,
                SnapshotError,
            >(e),
        },
{
    let mut left = input;
    let mut out = store;
    let mut i: u64 = 0;
    while i < n
        invariant
            i <= n,
            out.wf(),
            take_all(input@, n as nat, raw, cutoff as int, store@) == take_all(
                left@,
                (n - i) as nat,
                raw,
                cutoff as int,
                out@,
            ),
        decreases n - i,
    {
        match read_series(&mut left, raw, cutoff, &mut out) {
            Ok(()) => {},
            Err(e) => return Err(e),
        }
        i += 1;
    }
    Ok(out)
}

/// Restores a store, dropping anything already older than `retention` at
/// `now` -- a process that was down for six hours should not come back with
/// six hours of stale points.
pub fn load(input: &[u8], retention: i64, now: i64) -> (r: Result<Store, SnapshotError>)
    ensures
        match r {
            Ok(store) => store.wf() && loaded(input@, retention, now) == Ok::<
                StoreView,
                SnapshotError,
            >(store@),
            Err(e) => loaded(input@, retention, now) == Err::<StoreView, SnapshotError>(e),
        },
{
    let mut left = input;
    match read_header(&mut left) {
        Ok((raw, n)) => read_all(left, n, raw, now as i128 - retention as i128, Store::new(retention)),
        Err(e) => Err(e),
    }
}

/// Runs of bytes, one after the other, are the first of them and what
/// follows.
proof fn lemma_regroup(
    a: Seq<u8>,
    b: Seq<u8>,
    c: Seq<u8>,
    d: Seq<u8>,
    e: Seq<u8>,
    f: Seq<u8>,
    rest: Seq<u8>,
)
    ensures
        a + b + c + rest == a + (b + (c + rest)),
        a + b + c + d + e + rest == a + (b + (c + (d + (e + rest)))),
        a + b + c + d + e + f + rest == a + (b + (c + (d + (e + (f + rest))))),
{
    assert(a + b + c + rest =~= a + (b + (c + rest)));
    assert(a + b + c + d + e + rest =~= a + (b + (c + (d + (e + rest)))));
    assert(a + b + c + d + e + f + rest =~= a + (b + (c + (d + (e + (f + rest))))));
}

/// Whether a series is within what a snapshot is read back with.
pub open spec fn storable(s: SeriesView) -> bool {
    &&& s.labels.len() <= MAX_LABELS
    &&& forall|i: int|
        0 <= i < s.labels.len() ==> utf8::encode_utf8((#[trigger] s.labels[i]).0).len() <= MAX_STRING
            && utf8::encode_utf8(s.labels[i].1).len() <= MAX_STRING
    &&& s.chunks.len() <= MAX_CHUNKS_PER_SERIES
    &&& forall|i: int|
        0 <= i < s.chunks.len() ==> (#[trigger] s.chunks[i]).count <= MAX_CHUNK_SAMPLES_ON_DISK
            && s.chunks[i].bytes.len() <= MAX_CHUNK_BYTES
    &&& s.head.len() <= MAX_SAMPLES_PER_SERIES
}

/// Whether a store is within what a snapshot is read back with.
pub open spec fn store_storable(v: StoreView) -> bool {
    &&& v.series.len() <= MAX_SERIES
    &&& forall|i: int| 0 <= i < v.series.len() ==> storable((#[trigger] v.series[i]).1)
}

proof fn lemma_number_back(n: nat, width: nat, rest: Seq<u8>)
    requires
        n < bytes::span(width),
    ensures
        take_number(bytes::little(n, width) + rest, width) == Ok::<(nat, Seq<u8>), SnapshotError>(
            (n, rest),
        ),
{
    let s = bytes::little(n, width) + rest;
    bytes::law_little_reads_back(n, width);
    assert(s.take(width as int) =~= bytes::little(n, width));
    assert(s.skip(width as int) =~= rest);
}

proof fn lemma_text_back(s: Seq<char>, rest: Seq<u8>)
    requires
        utf8::encode_utf8(s).len() <= MAX_STRING,
    ensures
        take_text(text_bytes(s) + rest) == Ok::<(Seq<char>, Seq<u8>), SnapshotError>((s, rest)),
{
    let b = utf8::encode_utf8(s);
    bytes::lemma_span();
    assert(b.take(b.len() as int) =~= b);
    assert(text_bytes(s) + rest =~= bytes::little(b.len(), 2) + (b + rest));
    lemma_number_back(b.len(), 2, b + rest);
    assert((b + rest).take(b.len() as int) =~= b);
    assert((b + rest).skip(b.len() as int) =~= rest);
    utf8::encode_utf8_valid_utf8(s);
    utf8::encode_utf8_decode_utf8(s);
}

/// A text of at most so many bytes reads back, and what was written after
/// it is what follows.
pub proof fn law_text_reads_back(s: Seq<char>, rest: Seq<u8>)
    requires
        utf8::encode_utf8(s).len() <= MAX_STRING,
    ensures
        take_text(text_bytes(s) + rest) == Ok::<(Seq<char>, Seq<u8>), SnapshotError>((s, rest)),
{
    lemma_text_back(s, rest);
}

/// A longer text is written, and refused when it is read.
pub proof fn law_long_text_is_refused(s: Seq<char>, rest: Seq<u8>)
    requires
        utf8::encode_utf8(s).len() > MAX_STRING,
    ensures
        take_text(text_bytes(s) + rest) == Err::<(Seq<char>, Seq<u8>), SnapshotError>(
            SnapshotError::StringLength(capped_at(utf8::encode_utf8(s).len(), 0xffff) as u16),
        ),
{
    let b = utf8::encode_utf8(s);
    let n = capped_at(b.len(), 0xffff);
    bytes::lemma_span();
    assert(text_bytes(s) + rest =~= bytes::little(n, 2) + (b.take(n as int) + rest));
    lemma_number_back(n, 2, b.take(n as int) + rest);
}

proof fn lemma_labels_back(labels: Seq<Entry>, rest: Seq<u8>, out: Seq<Entry>)
    requires
        textmap::ordered(out + labels),
        forall|i: int|
            0 <= i < labels.len() ==> utf8::encode_utf8((#[trigger] labels[i]).0).len() <= MAX_STRING
                && utf8::encode_utf8(labels[i].1).len() <= MAX_STRING,
    ensures
        take_labels(label_bytes(labels) + rest, labels.len(), out) == Ok::<
            (Seq<Entry>, Seq<u8>),
            SnapshotError,
        >((out + labels, rest)),
    decreases labels.len(),
{
    if labels.len() == 0 {
        assert(label_bytes(labels) + rest =~= rest);
        assert(out + labels =~= out);
    } else {
        let (k, v) = labels[0];
        let tail = labels.drop_first();
        let more = label_bytes(tail) + rest;
        lemma_regroup(
            text_bytes(k),
            text_bytes(v),
            label_bytes(tail),
            seq![],
            seq![],
            seq![],
            rest,
        );
        lemma_text_back(k, text_bytes(v) + more);
        lemma_text_back(v, more);
        let all = out + labels;
        assert forall|i: int| 0 <= i < out.len() implies text::before((#[trigger] out[i]).0, k) by {
            assert(text::before(all[i].0, all[out.len() as int].0));
        }
        textmap::lemma_entry_behind(out, k, v);
        assert(out.push((k, v)) + tail =~= all);
        assert forall|i: int| 0 <= i < tail.len() implies utf8::encode_utf8(
            (#[trigger] tail[i]).0,
        ).len() <= MAX_STRING && utf8::encode_utf8(tail[i].1).len() <= MAX_STRING by {
            assert(tail[i] == labels[i + 1]);
        }
        lemma_labels_back(tail, rest, out.push((k, v)));
    }
}

/// Samples that have not aged out.
pub open spec fn young(samples: Seq<Sample>, cutoff: int) -> Seq<Sample> {
    samples.filter(|x: Sample| x.t >= cutoff)
}

/// A sample that was written is the next one that is read.
proof fn lemma_sample_back(x: Sample, more: Seq<u8>, n: nat, cutoff: int, out: Seq<Sample>)
    requires
        n > 0,
    ensures
        take_samples(sample_bytes(x) + more, n, cutoff, out) == take_samples(
            more,
            (n - 1) as nat,
            cutoff,
            if keeps(out, x.t, cutoff) {
                out.push(x)
            } else {
                out
            },
        ),
{
    let t = bytes::little(bytes::bits_of(x.t) as nat, 8);
    let v = bytes::little(x.v as nat, 8);
    assert(sample_bytes(x) + more =~= t + (v + more));
    bytes::lemma_span();
    bytes::law_bits_invert(x.t);
    lemma_number_back(bytes::bits_of(x.t) as nat, 8, v + more);
    lemma_number_back(x.v as nat, 8, more);
}

/// The young ones among samples, the first of them apart.
proof fn lemma_young_front(samples: Seq<Sample>, cutoff: int)
    requires
        samples.len() > 0,
    ensures
        young(samples, cutoff) == (if samples[0].t >= cutoff {
            seq![samples[0]] + young(samples.drop_first(), cutoff)
        } else {
            young(samples.drop_first(), cutoff)
        }),
{
    let keep = |x: Sample| x.t >= cutoff;
    let first = samples[0];
    let tail = samples.drop_first();
    assert(samples =~= seq![first] + tail);
    Seq::filter_distributes_over_add(seq![first], tail, keep);
    series::lemma_one_kept(first, keep);
    if !keep(first) {
        assert(Seq::<Sample>::empty() + young(tail, cutoff) =~= young(tail, cutoff));
    }
}

proof fn lemma_samples_back(samples: Seq<Sample>, rest: Seq<u8>, cutoff: int, out: Seq<Sample>)
    requires
        chunk::ascending(samples),
        out.len() > 0 && samples.len() > 0 ==> out.last().t < samples[0].t,
    ensures
        take_samples(samples_bytes(samples) + rest, samples.len(), cutoff, out) == Ok::<
            (Seq<Sample>, Seq<u8>),
            SnapshotError,
        >((out + young(samples, cutoff), rest)),
    decreases samples.len(),
{
    if samples.len() == 0 {
        reveal(Seq::filter);
        assert(samples_bytes(samples) + rest =~= rest);
        assert(out + young(samples, cutoff) =~= out);
    } else {
        let first = samples[0];
        let tail = samples.drop_first();
        let more = samples_bytes(tail) + rest;
        assert(samples_bytes(samples) + rest =~= sample_bytes(first) + more);
        lemma_sample_back(first, more, samples.len(), cutoff, out);
        lemma_young_front(samples, cutoff);
        assert forall|i: int, j: int| 0 <= i < j < tail.len() implies tail[i].t < tail[j].t by {
            assert(samples[i + 1].t < samples[j + 1].t);
        }
        if tail.len() > 0 {
            assert(samples[0].t < samples[1].t);
        }
        if first.t >= cutoff {
            lemma_samples_back(tail, rest, cutoff, out.push(first));
            assert(out.push(first) + young(tail, cutoff) =~= out + young(samples, cutoff));
        } else {
            lemma_samples_back(tail, rest, cutoff, out);
        }
    }
}

proof fn lemma_no_fault(c: ChunkView)
    requires
        series::sound(c),
    ensures
        chunk_fault(c) is None,
        c.count > 0,
        c.first_t <= c.last_t,
{
    series::lemma_sound(c);
}

proof fn lemma_chunk_back(c: ChunkView, rest: Seq<u8>)
    requires
        series::sound(c),
        c.count <= MAX_CHUNK_SAMPLES_ON_DISK,
        c.bytes.len() <= MAX_CHUNK_BYTES,
    ensures
        take_chunk(chunk_bytes(c) + rest) == Ok::<(ChunkView, Seq<u8>), SnapshotError>((c, rest)),
{
    bytes::lemma_span();
    bytes::law_bits_invert(c.first_t);
    bytes::law_bits_invert(c.last_t);
    let first = bytes::little(bytes::bits_of(c.first_t) as nat, 8);
    let last = bytes::little(bytes::bits_of(c.last_t) as nat, 8);
    let count = bytes::little(c.count as nat, 4);
    let n = bytes::little(c.bytes.len(), 4);
    let s4 = c.bytes + rest;
    lemma_regroup(first, last, count, n, c.bytes, seq![], rest);
    lemma_number_back(bytes::bits_of(c.first_t) as nat, 8, last + (count + (n + s4)));
    lemma_number_back(bytes::bits_of(c.last_t) as nat, 8, count + (n + s4));
    lemma_number_back(c.count as nat, 4, n + s4);
    lemma_number_back(c.bytes.len(), 4, s4);
    assert(s4.take(c.bytes.len() as int) =~= c.bytes);
    assert(s4.skip(c.bytes.len() as int) =~= rest);
    lemma_no_fault(c);
}

/// Chunks that have not aged out.
pub open spec fn young_chunks(chunks: Seq<ChunkView>, cutoff: int) -> Seq<ChunkView> {
    chunks.filter(|c: ChunkView| c.last_t >= cutoff)
}

/// A chunk that was written is the next one that is read.
proof fn lemma_chunk_next(c: ChunkView, more: Seq<u8>, n: nat, cutoff: int, out: Seq<ChunkView>)
    requires
        n > 0,
        series::sound(c),
        c.count <= MAX_CHUNK_SAMPLES_ON_DISK,
        c.bytes.len() <= MAX_CHUNK_BYTES,
        out.len() > 0 ==> out.last().last_t < c.first_t,
    ensures
        take_chunks(chunk_bytes(c) + more, n, cutoff, out) == take_chunks(
            more,
            (n - 1) as nat,
            cutoff,
            if c.last_t >= cutoff {
                out.push(c)
            } else {
                out
            },
        ),
{
    lemma_chunk_back(c, more);
}

/// The young ones among chunks, the first of them apart.
proof fn lemma_young_chunks_front(chunks: Seq<ChunkView>, cutoff: int)
    requires
        chunks.len() > 0,
    ensures
        young_chunks(chunks, cutoff) == (if chunks[0].last_t >= cutoff {
            seq![chunks[0]] + young_chunks(chunks.drop_first(), cutoff)
        } else {
            young_chunks(chunks.drop_first(), cutoff)
        }),
{
    let keep = |c: ChunkView| c.last_t >= cutoff;
    let first = chunks[0];
    let tail = chunks.drop_first();
    assert(chunks =~= seq![first] + tail);
    Seq::filter_distributes_over_add(seq![first], tail, keep);
    series::lemma_one_kept(first, keep);
    if !keep(first) {
        assert(Seq::<ChunkView>::empty() + young_chunks(tail, cutoff) =~= young_chunks(tail, cutoff));
    }
}

proof fn lemma_chunks_back(
    chunks: Seq<ChunkView>,
    rest: Seq<u8>,
    cutoff: int,
    out: Seq<ChunkView>,
)
    requires
        series::chunks_wf(chunks),
        forall|i: int|
            0 <= i < chunks.len() ==> (#[trigger] chunks[i]).count <= MAX_CHUNK_SAMPLES_ON_DISK
                && chunks[i].bytes.len() <= MAX_CHUNK_BYTES,
        out.len() > 0 && chunks.len() > 0 ==> out.last().last_t < chunks[0].first_t,
    ensures
        take_chunks(chunks_bytes(chunks) + rest, chunks.len(), cutoff, out) == Ok::<
            (Seq<ChunkView>, Seq<u8>),
            SnapshotError,
        >((out + young_chunks(chunks, cutoff), rest)),
    decreases chunks.len(),
{
    if chunks.len() == 0 {
        reveal(Seq::filter);
        assert(chunks_bytes(chunks) + rest =~= rest);
        assert(out + young_chunks(chunks, cutoff) =~= out);
    } else {
        let first = chunks[0];
        let tail = chunks.drop_first();
        let more = chunks_bytes(tail) + rest;
        assert(series::sound(first));
        assert(chunks_bytes(chunks) + rest =~= chunk_bytes(first) + more);
        lemma_chunk_next(first, more, chunks.len(), cutoff, out);
        lemma_young_chunks_front(chunks, cutoff);
        series::lemma_sound(first);
        series::lemma_rest_wf(chunks);
        assert forall|i: int| 0 <= i < tail.len() implies (#[trigger] tail[i]).count
            <= MAX_CHUNK_SAMPLES_ON_DISK && tail[i].bytes.len() <= MAX_CHUNK_BYTES by {
            assert(tail[i] == chunks[i + 1]);
        }
        if tail.len() > 0 {
            assert(chunks[0].last_t < chunks[1].first_t);
        }
        if first.last_t >= cutoff {
            lemma_chunks_back(tail, rest, cutoff, out.push(first));
            assert(out.push(first) + young_chunks(tail, cutoff) =~= out + young_chunks(
                chunks,
                cutoff,
            ));
        } else {
            lemma_chunks_back(tail, rest, cutoff, out);
        }
    }
}

/// A store with what is left of a series at the cutoff put in.
pub open spec fn with_rest_of(v: StoreView, s: SeriesView, cutoff: int) -> StoreView {
    if series::series_empty(series::pruned(s, cutoff)) {
        v
    } else {
        store::with_series(v, series::pruned(s, cutoff))
    }
}

proof fn lemma_series_back(s: SeriesView, rest: Seq<u8>, cutoff: int, v: StoreView)
    requires
        series::series_wf(s),
        textmap::ordered(s.labels),
        storable(s),
    ensures
        take_series(series_bytes(s) + rest, false, cutoff, v) == Ok::<
            (StoreView, Seq<u8>),
            SnapshotError,
        >((with_rest_of(v, s, cutoff), rest)),
{
    bytes::lemma_span();
    let labels = label_bytes(s.labels);
    let k = bytes::little(s.chunks.len(), 4);
    let chunks = chunks_bytes(s.chunks);
    let n = bytes::little(s.head.len(), 4);
    let head = samples_bytes(s.head) + rest;
    lemma_regroup(
        bytes::little(s.labels.len(), 2),
        labels,
        k,
        chunks,
        n,
        samples_bytes(s.head),
        rest,
    );
    lemma_number_back(s.labels.len(), 2, labels + (k + (chunks + (n + head))));
    assert(Seq::<Entry>::empty() + s.labels =~= s.labels);
    lemma_labels_back(s.labels, k + (chunks + (n + head)), seq![]);
    lemma_number_back(s.chunks.len(), 4, chunks + (n + head));
    lemma_chunks_back(s.chunks, n + head, cutoff, seq![]);
    lemma_number_back(s.head.len(), 4, head);
    lemma_samples_back(s.head, rest, cutoff, seq![]);
    let p = series::pruned(s, cutoff);
    assert(Seq::<ChunkView>::empty() + young_chunks(s.chunks, cutoff) =~= p.chunks);
    assert(Seq::<Sample>::empty() + young(s.head, cutoff) =~= p.head);
    series::law_prune_drops_old_samples(s, cutoff);
}

/// A store with what is left of some series at the cutoff put in.
pub open spec fn with_rest_of_all(
    v: StoreView,
    all: Seq<(Seq<char>, SeriesView)>,
    cutoff: int,
) -> StoreView
    decreases all.len(),
{
    if all.len() == 0 {
        v
    } else {
        with_rest_of_all(with_rest_of(v, all[0].1, cutoff), all.drop_first(), cutoff)
    }
}

proof fn lemma_all_back(all: Seq<(Seq<char>, SeriesView)>, cutoff: int, v: StoreView)
    requires
        forall|i: int|
            0 <= i < all.len() ==> series::series_wf((#[trigger] all[i]).1) && textmap::ordered(
                all[i].1.labels,
            ) && storable(all[i].1),
    ensures
        take_all(all_bytes(all), all.len(), false, cutoff, v) == Ok::<StoreView, SnapshotError>(
            with_rest_of_all(v, all, cutoff),
        ),
    decreases all.len(),
{
    if all.len() > 0 {
        let tail = all.drop_first();
        let first = all[0].1;
        assert(series::series_wf(all[0].1));
        lemma_series_back(first, all_bytes(tail), cutoff, v);
        assert forall|i: int| 0 <= i < tail.len() implies series::series_wf((#[trigger] tail[i]).1)
            && textmap::ordered(tail[i].1.labels) && storable(tail[i].1) by {
            assert(tail[i] == all[i + 1]);
        }
        lemma_all_back(tail, cutoff, with_rest_of(v, first, cutoff));
    }
}

/// Series put in one after the other stand in that order.
proof fn lemma_put_in_order(v: StoreView, all: Seq<(Seq<char>, SeriesView)>, cutoff: int)
    requires
        store::store_wf(v),
        keyed::distinct(all),
        forall|i: int|
            0 <= i < all.len() ==> series::series_wf((#[trigger] all[i]).1) && textmap::ordered(
                all[i].1.labels,
            ) && all[i].0 == store::key_of(all[i].1.labels) && !keyed::holds(v.series, all[i].0),
    ensures
        store::store_wf(with_rest_of_all(v, all, cutoff)),
        with_rest_of_all(v, all, cutoff).series == v.series + store::nonempty(
            store::all_pruned(all, cutoff),
        ),
        with_rest_of_all(v, all, cutoff).retention == v.retention,
        listing::indexed(v) ==> listing::indexed(with_rest_of_all(v, all, cutoff)),
    decreases all.len(),
{
    let keep = |e: (Seq<char>, SeriesView)| !series::series_empty(e.1);
    if all.len() == 0 {
        reveal(Seq::filter);
        assert(store::all_pruned(all, cutoff) =~= seq![]);
        assert(v.series + store::nonempty(store::all_pruned(all, cutoff)) =~= v.series);
    } else {
        let tail = all.drop_first();
        let key = all[0].0;
        let p = series::pruned(all[0].1, cutoff);
        let next = with_rest_of(v, all[0].1, cutoff);
        assert(series::series_wf(all[0].1));
        series::law_prune_drops_old_samples(all[0].1, cutoff);
        if !series::series_empty(p) {
            store::law_series_in_keeps_order(v, p);
            assert(next.series =~= v.series.push((key, p)));
            if listing::indexed(v) {
                listing::law_new_series_keeps_index(v, p);
            }
        }
        assert forall|i: int, j: int| 0 <= i < j < tail.len() implies (#[trigger] tail[i]).0 != (
        #[trigger] tail[j]).0 by {
            assert(all[i + 1].0 != all[j + 1].0);
        }
        assert forall|i: int| 0 <= i < tail.len() implies series::series_wf((#[trigger] tail[i]).1)
            && textmap::ordered(tail[i].1.labels) && tail[i].0 == store::key_of(tail[i].1.labels)
            && !keyed::holds(next.series, tail[i].0) by {
            assert(tail[i] == all[i + 1]);
            assert(all[0].0 != all[i + 1].0);
            assert(!keyed::holds(v.series, all[i + 1].0));
            if !series::series_empty(p) {
                keyed::law_put_is_found(v.series, key, p, tail[i].0);
            }
        }
        lemma_put_in_order(next, tail, cutoff);
        let one = seq![(key, p)];
        let rest = store::all_pruned(tail, cutoff);
        assert(store::all_pruned(all, cutoff) =~= one + rest);
        Seq::filter_distributes_over_add(one, rest, keep);
        series::lemma_one_kept((key, p), keep);
        assert(next.series + store::nonempty(rest) =~= v.series + store::nonempty(
            store::all_pruned(all, cutoff),
        ));
    }
}

/// A snapshot gives back every series of the store it was taken of, with
/// every sample that has not aged out by the time it is loaded, and each
/// series listed under its name.
pub proof fn law_snapshot_round_trips(v: StoreView, retention: i64, now: i64)
    requires
        store::store_wf(v),
        store_storable(v),
    ensures
        loaded(saved(v), retention, now) matches Ok(out) && {
            &&& store::store_wf(out)
            &&& out.series == store::nonempty(store::all_pruned(v.series, now - retention))
            &&& out.retention == retention
            &&& listing::indexed(out)
        },
{
    bytes::lemma_span();
    let s = saved(v);
    let version = bytes::little(VERSION as nat, 2);
    let count = bytes::little(v.series.len(), 4);
    let all = all_bytes(v.series);
    lemma_regroup(magic(), version, count, seq![], seq![], seq![], all);
    assert(s.take(4) =~= magic());
    assert(s.skip(4) =~= version + (count + all));
    lemma_number_back(VERSION as nat, 2, count + all);
    lemma_number_back(v.series.len(), 4, all);
    let empty = empty_store(retention);
    assert forall|i: int| 0 <= i < v.series.len() implies series::series_wf(
        (#[trigger] v.series[i]).1,
    ) && textmap::ordered(v.series[i].1.labels) && storable(v.series[i].1) by {
        assert(storable(v.series[i].1));
    }
    lemma_all_back(v.series, now - retention, empty);
    listing::law_new_store_is_indexed(retention);
    lemma_put_in_order(empty, v.series, now - retention);
    assert(empty.series + store::nonempty(store::all_pruned(v.series, now - retention))
        =~= store::nonempty(store::all_pruned(v.series, now - retention)));
}

/// A series in the layout that is still read: labels, and every sample raw.
pub open spec fn raw_series_bytes(labels: Seq<Entry>, samples: Seq<Sample>) -> Seq<u8> {
    bytes::little(labels.len(), 2) + label_bytes(labels) + bytes::little(samples.len(), 4)
        + samples_bytes(samples)
}

/// Series in the layout that is still read, one after the other.
pub open spec fn all_raw_bytes(all: Seq<(Seq<Entry>, Seq<Sample>)>) -> Seq<u8>
    decreases all.len(),
{
    if all.len() == 0 {
        seq![]
    } else {
        raw_series_bytes(all[0].0, all[0].1) + all_raw_bytes(all.drop_first())
    }
}

/// A snapshot in the layout that is still read.
pub open spec fn raw_snapshot(all: Seq<(Seq<Entry>, Seq<Sample>)>) -> Seq<u8> {
    magic() + bytes::little(VERSION_RAW_SAMPLES as nat, 2) + bytes::little(all.len(), 4)
        + all_raw_bytes(all)
}

/// Whether a raw series is within what a snapshot is read back with.
pub open spec fn raw_storable(labels: Seq<Entry>, samples: Seq<Sample>, cutoff: int) -> bool {
    &&& textmap::ordered(labels)
    &&& labels.len() <= MAX_LABELS
    &&& forall|i: int|
        0 <= i < labels.len() ==> utf8::encode_utf8((#[trigger] labels[i]).0).len() <= MAX_STRING
            && utf8::encode_utf8(labels[i].1).len() <= MAX_STRING
    &&& chunk::ascending(samples)
    &&& samples.len() <= MAX_SAMPLES_PER_SERIES
    &&& series::packable(young(samples, cutoff))
}

/// What is left of a raw series at the cutoff.
pub open spec fn raw_rest(labels: Seq<Entry>, samples: Seq<Sample>, cutoff: int) -> Option<SeriesView> {
    if young(samples, cutoff).len() == 0 {
        None
    } else {
        Some(series::packed(labels, young(samples, cutoff)))
    }
}

spec fn with_raw(v: StoreView, labels: Seq<Entry>, samples: Seq<Sample>, cutoff: int) -> StoreView {
    match raw_rest(labels, samples, cutoff) {
        Some(s) => store::with_series(v, s),
        None => v,
    }
}

spec fn with_all_raw(v: StoreView, all: Seq<(Seq<Entry>, Seq<Sample>)>, cutoff: int) -> StoreView
    decreases all.len(),
{
    if all.len() == 0 {
        v
    } else {
        with_all_raw(with_raw(v, all[0].0, all[0].1, cutoff), all.drop_first(), cutoff)
    }
}

proof fn lemma_raw_series_back(
    labels: Seq<Entry>,
    samples: Seq<Sample>,
    rest: Seq<u8>,
    cutoff: int,
    v: StoreView,
)
    requires
        raw_storable(labels, samples, cutoff),
    ensures
        take_series(raw_series_bytes(labels, samples) + rest, true, cutoff, v) == Ok::<
            (StoreView, Seq<u8>),
            SnapshotError,
        >((with_raw(v, labels, samples, cutoff), rest)),
{
    bytes::lemma_span();
    let n = bytes::little(samples.len(), 4);
    let body = samples_bytes(samples) + rest;
    lemma_regroup(
        bytes::little(labels.len(), 2),
        label_bytes(labels),
        n,
        samples_bytes(samples),
        seq![],
        seq![],
        rest,
    );
    lemma_number_back(labels.len(), 2, label_bytes(labels) + (n + body));
    assert(Seq::<Entry>::empty() + labels =~= labels);
    lemma_labels_back(labels, n + body, seq![]);
    lemma_number_back(samples.len(), 4, body);
    lemma_samples_back(samples, rest, cutoff, seq![]);
    assert(Seq::<Sample>::empty() + young(samples, cutoff) =~= young(samples, cutoff));
}

proof fn lemma_all_raw_back(all: Seq<(Seq<Entry>, Seq<Sample>)>, cutoff: int, v: StoreView)
    requires
        forall|i: int|
            0 <= i < all.len() ==> raw_storable((#[trigger] all[i]).0, all[i].1, cutoff),
    ensures
        take_all(all_raw_bytes(all), all.len(), true, cutoff, v) == Ok::<StoreView, SnapshotError>(
            with_all_raw(v, all, cutoff),
        ),
    decreases all.len(),
{
    if all.len() > 0 {
        let tail = all.drop_first();
        assert(raw_storable(all[0].0, all[0].1, cutoff));
        lemma_raw_series_back(all[0].0, all[0].1, all_raw_bytes(tail), cutoff, v);
        assert forall|i: int| 0 <= i < tail.len() implies raw_storable(
            (#[trigger] tail[i]).0,
            tail[i].1,
            cutoff,
        ) by {
            assert(tail[i] == all[i + 1]);
        }
        lemma_all_raw_back(tail, cutoff, with_raw(v, all[0].0, all[0].1, cutoff));
    }
}

/// Young samples are in order too.
proof fn lemma_young_ascend(samples: Seq<Sample>, cutoff: int)
    requires
        chunk::ascending(samples),
    ensures
        chunk::ascending(young(samples, cutoff)),
        forall|i: int|
            0 <= i < young(samples, cutoff).len() ==> samples.contains(
                #[trigger] young(samples, cutoff)[i],
            ),
    decreases samples.len(),
{
    reveal(Seq::filter);
    if samples.len() > 0 {
        let init = samples.drop_last();
        let before = young(init, cutoff);
        let out = young(samples, cutoff);
        assert forall|i: int, j: int| 0 <= i < j < init.len() implies init[i].t < init[j].t by {
            assert(samples[i].t < samples[j].t);
        }
        lemma_young_ascend(init, cutoff);
        assert forall|i: int| 0 <= i < out.len() implies samples.contains(#[trigger] out[i]) by {
            if i < before.len() {
                assert(out[i] == before[i]);
                let k = choose|k: int| 0 <= k < init.len() && init[k] == before[i];
                assert(samples[k] == out[i]);
            } else {
                assert(samples[samples.len() - 1] == out[i]);
            }
        }
        assert forall|i: int, j: int| 0 <= i < j < out.len() implies out[i].t < out[j].t by {
            assert(out[i] == before[i]);
            if j < before.len() {
                assert(out[j] == before[j]);
            } else {
                let k = choose|k: int| 0 <= k < init.len() && init[k] == before[i];
                assert(samples[k].t < samples[samples.len() - 1].t);
            }
        }
    }
}

proof fn lemma_raw_in_order(v: StoreView, all: Seq<(Seq<Entry>, Seq<Sample>)>, cutoff: int)
    requires
        store::store_wf(v),
        listing::indexed(v),
        forall|i: int|
            0 <= i < all.len() ==> raw_storable((#[trigger] all[i]).0, all[i].1, cutoff)
                && !keyed::holds(v.series, store::key_of(all[i].0)),
        forall|i: int, j: int|
            0 <= i < j < all.len() ==> store::key_of((#[trigger] all[i]).0) != store::key_of(
                (#[trigger] all[j]).0,
            ),
    ensures
        store::store_wf(with_all_raw(v, all, cutoff)),
        listing::indexed(with_all_raw(v, all, cutoff)),
        with_all_raw(v, all, cutoff).retention == v.retention,
        forall|k: Seq<char>|
            (forall|i: int| 0 <= i < all.len() ==> store::key_of((#[trigger] all[i]).0) != k)
                ==> #[trigger] keyed::found(with_all_raw(v, all, cutoff).series, k)
                == keyed::found(v.series, k),
        forall|i: int|
            0 <= i < all.len() ==> keyed::found(
                with_all_raw(v, all, cutoff).series,
                store::key_of((#[trigger] all[i]).0),
            ) == raw_rest(all[i].0, all[i].1, cutoff),
    decreases all.len(),
{
    if all.len() > 0 {
        let tail = all.drop_first();
        let (labels, samples) = all[0];
        let key = store::key_of(labels);
        let next = with_raw(v, labels, samples, cutoff);
        let out = with_all_raw(v, all, cutoff);
        assert(raw_storable(all[0].0, all[0].1, cutoff));
        lemma_young_ascend(samples, cutoff);
        series::law_packing_keeps_samples(labels, young(samples, cutoff));
        let s = series::packed(labels, young(samples, cutoff));
        if young(samples, cutoff).len() > 0 {
            store::law_series_in_keeps_order(v, s);
            listing::law_new_series_keeps_index(v, s);
        }
        assert forall|k: Seq<char>| k != key implies #[trigger] keyed::found(next.series, k)
            == keyed::found(v.series, k) by {
            keyed::law_put_is_found(v.series, key, s, k);
        }
        keyed::law_put_is_found(v.series, key, s, key);
        assert forall|i: int| 0 <= i < tail.len() implies raw_storable(
            (#[trigger] tail[i]).0,
            tail[i].1,
            cutoff,
        ) && !keyed::holds(next.series, store::key_of(tail[i].0)) by {
            assert(tail[i] == all[i + 1]);
            assert(store::key_of(all[0].0) != store::key_of(all[i + 1].0));
            assert(keyed::found(next.series, store::key_of(tail[i].0)) == keyed::found(
                v.series,
                store::key_of(tail[i].0),
            ));
        }
        assert forall|i: int, j: int| 0 <= i < j < tail.len() implies store::key_of(
            (#[trigger] tail[i]).0,
        ) != store::key_of((#[trigger] tail[j]).0) by {
            assert(tail[i] == all[i + 1]);
            assert(tail[j] == all[j + 1]);
        }
        lemma_raw_in_order(next, tail, cutoff);
        assert forall|k: Seq<char>|
            (forall|i: int| 0 <= i < all.len() ==> store::key_of((#[trigger] all[i]).0) != k) implies
            #[trigger] keyed::found(out.series, k) == keyed::found(v.series, k) by {
            assert(store::key_of(all[0].0) != k);
            assert forall|i: int| 0 <= i < tail.len() implies store::key_of((#[trigger] tail[i]).0)
                != k by {
                assert(tail[i] == all[i + 1]);
            }
        }
        assert forall|i: int| 0 <= i < all.len() implies keyed::found(
            out.series,
            store::key_of((#[trigger] all[i]).0),
        ) == raw_rest(all[i].0, all[i].1, cutoff) by {
            if i == 0 {
                assert forall|j: int| 0 <= j < tail.len() implies store::key_of(
                    (#[trigger] tail[j]).0,
                ) != key by {
                    assert(tail[j] == all[j + 1]);
                    assert(store::key_of(all[0].0) != store::key_of(all[j + 1].0));
                }
                assert(keyed::found(out.series, key) == keyed::found(next.series, key));
            } else {
                assert(tail[i - 1] == all[i]);
            }
        }
    }
}

/// Whether raw series can be told apart by their keys.
pub open spec fn raw_apart(all: Seq<(Seq<Entry>, Seq<Sample>)>) -> bool {
    forall|i: int, j: int|
        0 <= i < j < all.len() ==> store::key_of((#[trigger] all[i]).0) != store::key_of(
            (#[trigger] all[j]).0,
        )
}

/// Whether raw series are all within what a snapshot is read back with.
pub open spec fn all_raw_storable(all: Seq<(Seq<Entry>, Seq<Sample>)>, cutoff: int) -> bool {
    &&& all.len() <= MAX_SERIES
    &&& forall|i: int| 0 <= i < all.len() ==> raw_storable((#[trigger] all[i]).0, all[i].1, cutoff)
}

/// Whether a store holds, under its labels, what is left of a raw series at
/// the cutoff, and nothing where nothing is.
pub open spec fn holds_rest(v: StoreView, raw: (Seq<Entry>, Seq<Sample>), cutoff: int) -> bool {
    match keyed::found(v.series, store::key_of(raw.0)) {
        Some(s) => s.labels == raw.0 && series::all_samples(s) == young(raw.1, cutoff),
        None => young(raw.1, cutoff).len() == 0,
    }
}

/// Whether a key is that of one of some raw series.
pub open spec fn raw_key(all: Seq<(Seq<Entry>, Seq<Sample>)>, k: Seq<char>) -> bool {
    exists|i: int| 0 <= i < all.len() && store::key_of((#[trigger] all[i]).0) == k
}

/// What a snapshot in the layout that is still read comes to.
proof fn lemma_raw_loaded(all: Seq<(Seq<Entry>, Seq<Sample>)>, retention: i64, now: i64)
    requires
        all_raw_storable(all, now - retention),
    ensures
        loaded(raw_snapshot(all), retention, now) == Ok::<StoreView, SnapshotError>(
            with_all_raw(empty_store(retention), all, now - retention),
        ),
{
    bytes::lemma_span();
    let s = raw_snapshot(all);
    let version = bytes::little(VERSION_RAW_SAMPLES as nat, 2);
    let count = bytes::little(all.len(), 4);
    let body = all_raw_bytes(all);
    lemma_regroup(magic(), version, count, seq![], seq![], seq![], body);
    assert(s.take(4) =~= magic());
    assert(s.skip(4) =~= version + (count + body));
    lemma_number_back(VERSION_RAW_SAMPLES as nat, 2, count + body);
    lemma_number_back(all.len(), 4, body);
    lemma_all_raw_back(all, now - retention, empty_store(retention));
}

/// A store that was empty holds what raw series left in it, and no more.
proof fn lemma_raw_held(all: Seq<(Seq<Entry>, Seq<Sample>)>, retention: i64, cutoff: int)
    requires
        all_raw_storable(all, cutoff),
        raw_apart(all),
    ensures
        ({
            let out = with_all_raw(empty_store(retention), all, cutoff);
            &&& store::store_wf(out)
            &&& listing::indexed(out)
            &&& out.retention == retention
            &&& forall|i: int| 0 <= i < all.len() ==> holds_rest(out, #[trigger] all[i], cutoff)
            &&& forall|k: Seq<char>| #[trigger] keyed::holds(out.series, k) ==> raw_key(all, k)
        }),
{
    let empty = empty_store(retention);
    listing::law_new_store_is_indexed(retention);
    lemma_raw_in_order(empty, all, cutoff);
    let out = with_all_raw(empty, all, cutoff);
    assert forall|i: int| 0 <= i < all.len() implies holds_rest(out, #[trigger] all[i], cutoff) by {
        assert(raw_storable(all[i].0, all[i].1, cutoff));
        lemma_young_ascend(all[i].1, cutoff);
        series::law_packing_keeps_samples(all[i].0, young(all[i].1, cutoff));
    }
    assert forall|k: Seq<char>| #[trigger] keyed::holds(out.series, k) implies raw_key(all, k) by {
        if !raw_key(all, k) {
            assert(keyed::found(out.series, k) == keyed::found(empty.series, k));
        }
    }
}

/// A snapshot in the layout that is still read gives back, under its
/// labels, every series with the samples that have not aged out, and each
/// series listed under its name. It gives no other series.
#[verifier::spinoff_prover]
pub proof fn law_raw_snapshot_still_loads(
    all: Seq<(Seq<Entry>, Seq<Sample>)>,
    retention: i64,
    now: i64,
)
    requires
        all_raw_storable(all, now - retention),
        raw_apart(all),
    ensures
        loaded(raw_snapshot(all), retention, now) matches Ok(out) && {
            &&& store::store_wf(out)
            &&& listing::indexed(out)
            &&& out.retention == retention
            &&& forall|i: int|
                0 <= i < all.len() ==> holds_rest(out, #[trigger] all[i], now - retention)
            &&& forall|k: Seq<char>| #[trigger] keyed::holds(out.series, k) ==> raw_key(all, k)
        },
{
    lemma_raw_loaded(all, retention, now);
    lemma_raw_held(all, retention, now - retention);
}

/// Where no sample has aged out, all of them are left.
pub proof fn law_young_samples_all_stay(samples: Seq<Sample>, cutoff: int)
    requires
        forall|i: int| 0 <= i < samples.len() ==> (#[trigger] samples[i]).t >= cutoff,
    ensures
        young(samples, cutoff) == samples,
{
    series::lemma_all_kept(samples, |x: Sample| x.t >= cutoff);
}

/// Whatever a store was restored from, it is written in the current layout.
pub proof fn law_snapshot_starts_with_its_version(v: StoreView)
    ensures
        saved(v).len() >= 6,
        saved(v).take(6) == magic() + seq![2u8, 0u8],
{
    let version = bytes::little(VERSION as nat, 2);
    bytes::lemma_span();
    bytes::law_little_reads_back(VERSION as nat, 2);
    assert(version =~= seq![2u8, 0u8]) by {
        reveal_with_fuel(bytes::little, 3);
    }
    assert(saved(v).take(6) =~= magic() + version);
}

/// What became of a snapshot that a store was to be restored from.
#[derive(Debug)]
pub enum Restored {
    /// There is none.
    Absent,
    Loaded,
    Unreadable(SnapshotError),
}

/// The store to go on with, from what came of reading a snapshot, if there
/// is one. It never fails: a snapshot that cannot be read costs history, not
/// availability.
pub fn restore(read: Option<Result<Store, SnapshotError>>, retention: i64) -> (r: (Store, Restored))
    requires
        read matches Some(Ok(store)) ==> store.wf(),
    ensures
        r.0.wf(),
        match read {
            None => r.0@ == empty_store(retention) && r.1 is Absent,
            Some(Ok(store)) => r.0@ == store@ && r.1 is Loaded,
            Some(Err(e)) => r.0@ == empty_store(retention) && r.1 == Restored::Unreadable(e),
        },
{
    match read {
        None => (Store::new(retention), Restored::Absent),
        Some(Ok(store)) => (store, Restored::Loaded),
        Some(Err(e)) => (Store::new(retention), Restored::Unreadable(e)),
    }
}

} // verus!
