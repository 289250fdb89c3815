//! Snapshots read piece by piece.
//!
//! A loader takes a snapshot as it comes off a disk. It keeps the store so
//! far and the bytes of the one series that is not all there yet, so that
//! reading a snapshot never holds it whole.

use crate::bytes;
use crate::chunk::ChunkView;
use crate::snapshot;
use crate::snapshot::SnapshotError;
use crate::store::{Sample, Store, StoreView};
use crate::textmap;
use crate::textmap::Entry;
use vstd::prelude::*;

verus! {

/// Whether an error says no more than that the bytes ended.
pub open spec fn ended(e: SnapshotError) -> bool {
    e is NoHeader || e is UnexpectedEnd || e is LabelEndedEarly
}

fn is_ended(e: SnapshotError) -> (r: bool)
    ensures
        r == ended(e),
{
    match e {
        SnapshotError::NoHeader | SnapshotError::UnexpectedEnd | SnapshotError::LabelEndedEarly => true,
        _ => false,
    }
}

/// Whether what bytes gave stands when more bytes follow them.
spec fn stands<A>(
    short: Result<(A, Seq<u8>), SnapshotError>,
    long: Result<(A, Seq<u8>), SnapshotError>,
    more: Seq<u8>,
) -> bool {
    match short {
        Ok((a, rest)) => long == Ok::<(A, Seq<u8>), SnapshotError>((a, rest + more)),
        Err(e) => ended(e) || long == Err::<(A, Seq<u8>), SnapshotError>(e),
    }
}

proof fn lemma_number_stands(s: Seq<u8>, width: nat, more: Seq<u8>)
    ensures
        stands(snapshot::take_number(s, width), snapshot::take_number(s + more, width), more),
{
    if s.len() >= width {
        assert((s + more).take(width as int) =~= s.take(width as int));
        assert((s + more).skip(width as int) =~= s.skip(width as int) + more);
    }
}

proof fn lemma_text_stands(s: Seq<u8>, more: Seq<u8>)
    ensures
        stands(snapshot::take_text(s), snapshot::take_text(s + more), more),
{
    lemma_number_stands(s, 2, more);
    if let Ok((n, rest)) = snapshot::take_number(s, 2) {
        if n <= rest.len() {
            assert((rest + more).take(n as int) =~= rest.take(n as int));
            assert((rest + more).skip(n as int) =~= rest.skip(n as int) + more);
        }
    }
}

proof fn lemma_labels_stand(s: Seq<u8>, n: nat, out: Seq<Entry>, more: Seq<u8>)
    ensures
        stands(snapshot::take_labels(s, n, out), snapshot::take_labels(s + more, n, out), more),
    decreases n,
{
    if n > 0 {
        lemma_text_stands(s, more);
        if let Ok((k, after)) = snapshot::take_text(s) {
            lemma_text_stands(after, more);
            if let Ok((v, rest)) = snapshot::take_text(after) {
                lemma_labels_stand(rest, (n - 1) as nat, textmap::with_entry(out, k, v), more);
            }
        }
    }
}

proof fn lemma_samples_stand(s: Seq<u8>, n: nat, cutoff: int, out: Seq<Sample>, more: Seq<u8>)
    ensures
        stands(
            snapshot::take_samples(s, n, cutoff, out),
            snapshot::take_samples(s + more, n, cutoff, out),
            more,
        ),
    decreases n,
{
    if n > 0 {
        lemma_number_stands(s, 8, more);
        if let Ok((t, after)) = snapshot::take_number(s, 8) {
            lemma_number_stands(after, 8, more);
            if let Ok((v, rest)) = snapshot::take_number(after, 8) {
                let sample = Sample { t: bytes::of_bits(t as u64), v: v as u64 };
                let next = if snapshot::keeps(out, sample.t, cutoff) {
                    out.push(sample)
                } else {
                    out
                };
                lemma_samples_stand(rest, (n - 1) as nat, cutoff, next, more);
            }
        }
    }
}

proof fn lemma_counted_samples_stand(s: Seq<u8>, cutoff: int, more: Seq<u8>)
    ensures
        stands(
            snapshot::take_counted_samples(s, cutoff),
            snapshot::take_counted_samples(s + more, cutoff),
            more,
        ),
{
    lemma_number_stands(s, 4, more);
    if let Ok((n, rest)) = snapshot::take_number(s, 4) {
        lemma_samples_stand(rest, n, cutoff, seq![], more);
    }
}

proof fn lemma_chunk_stands(s: Seq<u8>, more: Seq<u8>)
    ensures
        stands(snapshot::take_chunk(s), snapshot::take_chunk(s + more), more),
{
    lemma_number_stands(s, 8, more);
    if let Ok((first, s1)) = snapshot::take_number(s, 8) {
        lemma_number_stands(s1, 8, more);
        if let Ok((last, s2)) = snapshot::take_number(s1, 8) {
            lemma_number_stands(s2, 4, more);
            if let Ok((count, s3)) = snapshot::take_number(s2, 4) {
                lemma_number_stands(s3, 4, more);
                if let Ok((n, s4)) = snapshot::take_number(s3, 4) {
                    if n <= s4.len() {
                        assert((s4 + more).take(n as int) =~= s4.take(n as int));
                        assert((s4 + more).skip(n as int) =~= s4.skip(n as int) + more);
                    }
                }
            }
        }
    }
}

proof fn lemma_chunks_stand(s: Seq<u8>, n: nat, cutoff: int, out: Seq<ChunkView>, more: Seq<u8>)
    ensures
        stands(
            snapshot::take_chunks(s, n, cutoff, out),
            snapshot::take_chunks(s + more, n, cutoff, out),
            more,
        ),
    decreases n,
{
    if n > 0 {
        lemma_chunk_stands(s, more);
        if let Ok((c, rest)) = snapshot::take_chunk(s) {
            let fewer = (n - 1) as nat;
            if c.last_t < cutoff {
                lemma_chunks_stand(rest, fewer, cutoff, out, more);
            } else {
                lemma_chunks_stand(rest, fewer, cutoff, out.push(c), more);
            }
        }
    }
}

proof fn lemma_series_stands(s: Seq<u8>, raw: bool, cutoff: int, v: StoreView, more: Seq<u8>)
    ensures
        stands(
            snapshot::take_series(s, raw, cutoff, v),
            snapshot::take_series(s + more, raw, cutoff, v),
            more,
        ),
{
    lemma_number_stands(s, 2, more);
    if let Ok((n, after)) = snapshot::take_number(s, 2) {
        lemma_labels_stand(after, n, seq![], more);
        if let Ok((labels, rest)) = snapshot::take_labels(after, n, seq![]) {
            if raw {
                lemma_counted_samples_stand(rest, cutoff, more);
            } else {
                lemma_number_stands(rest, 4, more);
                if let Ok((k, behind)) = snapshot::take_number(rest, 4) {
                    lemma_chunks_stand(behind, k, cutoff, seq![], more);
                    if let Ok((chunks, head)) = snapshot::take_chunks(behind, k, cutoff, seq![]) {
                        lemma_counted_samples_stand(head, cutoff, more);
                    }
                }
            }
        }
    }
}

proof fn lemma_header_stands(s: Seq<u8>, more: Seq<u8>)
    ensures
        stands(snapshot::take_header(s), snapshot::take_header(s + more), more),
{
    if s.len() >= 4 {
        assert((s + more).take(4) =~= s.take(4));
        assert((s + more).skip(4) =~= s.skip(4) + more);
        lemma_number_stands(s.skip(4), 2, more);
        if let Ok((version, after)) = snapshot::take_number(s.skip(4), 2) {
            lemma_number_stands(after, 4, more);
        }
    }
}

proof fn lemma_all_stand(s: Seq<u8>, n: nat, raw: bool, cutoff: int, v: StoreView, more: Seq<u8>)
    ensures
        match snapshot::take_all(s, n, raw, cutoff, v) {
            Ok(out) => snapshot::take_all(s + more, n, raw, cutoff, v) == Ok::<
                StoreView,
                SnapshotError,
            >(out),
            Err(e) => ended(e) || snapshot::take_all(s + more, n, raw, cutoff, v) == Err::<
                StoreView,
                SnapshotError,
            >(e),
        },
    decreases n,
{
    if n > 0 {
        lemma_series_stands(s, raw, cutoff, v, more);
        if let Ok((next, rest)) = snapshot::take_series(s, raw, cutoff, v) {
            lemma_all_stand(rest, (n - 1) as nat, raw, cutoff, next, more);
        }
    }
}

/// What a snapshot gave stands whatever follows its bytes, unless it was
/// refused for no more than that they ended.
pub proof fn law_what_was_read_stands(s: Seq<u8>, more: Seq<u8>, retention: i64, now: i64)
    ensures
        match snapshot::loaded(s, retention, now) {
            Ok(v) => snapshot::loaded(s + more, retention, now) == Ok::<StoreView, SnapshotError>(v),
            Err(e) => ended(e) || snapshot::loaded(s + more, retention, now) == Err::<
                StoreView,
                SnapshotError,
            >(e),
        },
{
    lemma_header_stands(s, more);
    if let Ok(((raw, n), rest)) = snapshot::take_header(s) {
        lemma_all_stand(rest, n, raw, now - retention, snapshot::empty_store(retention), more);
    }
}

/// How far a snapshot has been read.
enum Stage {
    /// Its header is not all there yet.
    Header,
    /// So many series, held raw or not, are still to come into the store.
    Series(bool, u64, Store),
}

/// A snapshot of which more may come.
pub struct Loader {
    retention: i64,
    now: i64,
    stage: Stage,
    /// The bytes that were fed and not read yet.
    behind: Vec<u8>,
    fed: Ghost<Seq<u8>>,
}

/// The bytes that a loader was fed, and what it was made with.
pub struct LoaderView {
    pub fed: Seq<u8>,
    pub retention: i64,
    pub now: i64,
}

impl View for Loader {
    type V = LoaderView;

    closed spec fn view(&self) -> LoaderView {
        LoaderView { fed: self.fed@, retention: self.retention, now: self.now }
    }
}

/// Whether reading a snapshot comes down to reading so many series from the
/// bytes in `behind`, whatever follows.
spec fn left_of(fed: LoaderView, behind: Seq<u8>, raw: bool, n: u64, v: StoreView) -> bool {
    forall|more: Seq<u8>| #[trigger]
        snapshot::loaded(fed.fed + more, fed.retention, fed.now) == snapshot::take_all(
            behind + more,
            n as nat,
            raw,
            fed.now - fed.retention,
            v,
        )
}

/// Reads the series that are all there. What is left of the bytes comes
/// back, with how many series are.
fn read_ahead<'a>(input: &'a [u8], n: u64, raw: bool, cutoff: i128, store: Store) -> (r: Result<
    (Store, u64, &'a [u8]),
    SnapshotError,
>)
    requires
        store.wf(),
    ensures
        match r {
            Ok((out, k, rest)) => {
                &&& out.wf()
                &&& forall|more: Seq<u8>| #[trigger]
                    snapshot::take_all(input@ + more, n as nat, raw, cutoff as int, store@)
                        == snapshot::take_all(rest@ + more, k as nat, raw, cutoff as int, out@)
                &&& k > 0 ==> (snapshot::take_series(rest@, raw, cutoff as int, out@) matches Err(e)
                    && ended(e))
            },
            Err(e) => !ended(e) && snapshot::take_all(input@, n as nat, raw, cutoff as int, store@)
                == Err::<StoreView, SnapshotError>(e),
        },
{
    let mut left = input;
    let mut out = store;
    let mut i: u64 = 0;
    while i < n
        invariant
            i <= n,
            out.wf(),
            forall|more: Seq<u8>| #[trigger]
                snapshot::take_all(input@ + more, n as nat, raw, cutoff as int, store@)
                    == snapshot::take_all(left@ + more, (n - i) as nat, raw, cutoff as int, out@),
        decreases n - i,
    {
        let mut ahead = left;
        let ghost was = out@;
        match snapshot::read_series(&mut ahead, raw, cutoff, &mut out) {
            Ok(()) => {
                proof {
                    assert forall|more: Seq<u8>| #[trigger]
                        snapshot::take_all(input@ + more, n as nat, raw, cutoff as int, store@)
                            == snapshot::take_all(
                            ahead@ + more,
                            (n - i - 1) as nat,
                            raw,
                            cutoff as int,
                            out@,
                        ) by {
                        lemma_series_stands(left@, raw, cutoff as int, was, more);
                    }
                }
                left = ahead;
            },
            Err(e) => {
                if is_ended(e) {
                    return Ok((out, n - i, left));
                }
                proof {
                    assert(input@ + seq![] =~= input@);
                    assert(left@ + seq![] =~= left@);
                }
                return Err(e);
            },
        }
        i += 1;
    }
    Ok((out, 0, left))
}

impl Loader {
    #[verifier::type_invariant]
    spec fn well_formed(self) -> bool {
        match self.stage {
            Stage::Header => self.behind@ == self.fed@,
            Stage::Series(raw, n, store) => store.wf() && left_of(
                self@,
                self.behind@,
                raw,
                n,
                store@,
            ),
        }
    }

    /// A loader that was fed nothing yet.
    pub fn new(retention: i64, now: i64) -> (loader: Loader)
        ensures
            loader@ == (LoaderView { fed: seq![], retention, now }),
    {
        let behind: Vec<u8> = Vec::new();
        proof {
            assert(behind@ =~= seq![]);
        }
        Loader { retention, now, stage: Stage::Header, behind, fed: Ghost(Seq::<u8>::empty()) }
    }

    /// Takes the bytes that follow those it was fed. It fails as soon as
    /// they show a fault, and not before.
    pub fn feed(self, piece: &[u8]) -> (r: Result<Loader, SnapshotError>)
        ensures
            ({
                let now = LoaderView { fed: self@.fed + piece@, ..self@ };
                let read = snapshot::loaded(now.fed, now.retention, now.now);
                match r {
                    Ok(loader) => loader@ == now && (read matches Err(e) ==> ended(e)),
                    Err(e) => !ended(e) && read == Err::<StoreView, SnapshotError>(e),
                }
            }),
    {
        proof {
            use_type_invariant(&self);
        }
        let ghost was = self@;
        let ghost before = self.behind@;
        let ghost all = self.fed@ + piece@;
        let ghost now_fed = LoaderView { fed: all, ..was };
        let Loader { retention, now, stage, behind, fed: _ } = self;
        let mut held = behind;
        bytes::put_bytes(&mut held, piece);
        let cutoff: i128 = now as i128 - retention as i128;
        let mut left = held.as_slice();
        let (raw, n, store) = match stage {
            Stage::Header => match snapshot::read_header(&mut left) {
                Ok((raw, n)) => {
                    proof {
                        assert forall|more: Seq<u8>| #[trigger]
                            snapshot::loaded(all + more, retention, now) == snapshot::take_all(
                                left@ + more,
                                n as nat,
                                raw,
                                now - retention,
                                snapshot::empty_store(retention),
                            ) by {
                            lemma_header_stands(all, more);
                        }
                    }
                    (raw, n, Store::new(retention))
                },
                Err(e) => {
                    if is_ended(e) {
                        return Ok(
                            Loader { retention, now, stage: Stage::Header, behind: held, fed: Ghost(all) },
                        );
                    }
                    return Err(e);
                },
            },
            Stage::Series(raw, n, store) => {
                proof {
                    assert forall|more: Seq<u8>| #[trigger]
                        snapshot::loaded(all + more, retention, now) == snapshot::take_all(
                            left@ + more,
                            n as nat,
                            raw,
                            now - retention,
                            store@,
                        ) by {
                        assert(all + more =~= was.fed + (piece@ + more));
                        assert(left@ + more =~= before + (piece@ + more));
                    }
                }
                (raw, n, store)
            },
        };
        proof {
            assert(left_of(now_fed, left@, raw, n, store@));
            assert(all + seq![] =~= all);
            assert(left@ + seq![] =~= left@);
        }
        let ghost start = left@;
        let ghost held_store = store@;
        match read_ahead(left, n, raw, cutoff, store) {
            Ok((store, k, rest)) => {
                let mut behind: Vec<u8> = Vec::new();
                bytes::put_bytes(&mut behind, rest);
                proof {
                    assert(behind@ =~= rest@);
                    assert forall|more: Seq<u8>| #[trigger]
                        snapshot::loaded(all + more, retention, now) == snapshot::take_all(
                            behind@ + more,
                            k as nat,
                            raw,
                            now - retention,
                            store@,
                        ) by {
                        assert(snapshot::take_all(
                            start + more,
                            n as nat,
                            raw,
                            cutoff as int,
                            held_store,
                        ) == snapshot::take_all(rest@ + more, k as nat, raw, cutoff as int, store@));
                    }
                    assert(rest@ + seq![] =~= rest@);
                }
                Ok(
                    Loader {
                        retention,
                        now,
                        stage: Stage::Series(raw, k, store),
                        behind,
                        fed: Ghost(all),
                    },
                )
            },
            Err(e) => Err(e),
        }
    }

    /// The store, once the snapshot has been fed.
    pub fn finish(self) -> (r: Result<Store, SnapshotError>)
        ensures
            match r {
                Ok(store) => store.wf() && snapshot::loaded(self@.fed, self@.retention, self@.now)
                    == Ok::<StoreView, SnapshotError>(store@),
                Err(e) => snapshot::loaded(self@.fed, self@.retention, self@.now) == Err::<
                    StoreView,
                    SnapshotError,
                >(e),
            },
    {
        proof {
            use_type_invariant(&self);
            assert(self@.fed + seq![] =~= self@.fed);
            assert(self.behind@ + seq![] =~= self.behind@);
        }
        let Loader { retention, now, stage, behind, fed: _ } = self;
        match stage {
            Stage::Header => snapshot::load(behind.as_slice(), retention, now),
            Stage::Series(raw, n, store) => snapshot::read_all(
                behind.as_slice(),
                n,
                raw,
                now as i128 - retention as i128,
                store,
            ),
        }
    }
}

} // verus!
