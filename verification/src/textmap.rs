//! A small map from text to text, in the order of its keys.
//!
//! Label sets are this: a handful of entries that are read far more often
//! than they are built, and whose order has to be the same however they
//! were put together.

use crate::text;
use crate::text::Order;
use vstd::prelude::*;

verus! {

pub type Entry = (Seq<char>, Seq<char>);

/// Entries with one more, or with another value under a key they had.
pub open spec fn with_entry(entries: Seq<Entry>, k: Seq<char>, v: Seq<char>) -> Seq<Entry>
    decreases entries.len(),
{
    if entries.len() == 0 || text::before(k, entries[0].0) {
        seq![(k, v)] + entries
    } else if entries[0].0 == k {
        entries.update(0, (k, v))
    } else {
        seq![entries[0]] + with_entry(entries.drop_first(), k, v)
    }
}

/// The value under a key.
pub open spec fn lookup(entries: Seq<Entry>, k: Seq<char>) -> Option<Seq<char>>
    decreases entries.len(),
{
    if entries.len() == 0 {
        None
    } else if entries[0].0 == k {
        Some(entries[0].1)
    } else {
        lookup(entries.drop_first(), k)
    }
}

/// Entries without the one under a key.
pub open spec fn without_entry(entries: Seq<Entry>, k: Seq<char>) -> Seq<Entry> {
    entries.filter(|e: Entry| e.0 != k)
}

/// Whether entries stand in the order of their keys, each key once.
pub open spec fn ordered(entries: Seq<Entry>) -> bool {
    forall|i: int, j: int|
        0 <= i < j < entries.len() ==> text::before(#[trigger] entries[i].0, #[trigger] entries[j].0)
}

/// What was put under a key is found there.
pub proof fn law_entry_is_found(entries: Seq<Entry>, k: Seq<char>, v: Seq<char>)
    ensures
        lookup(with_entry(entries, k, v), k) == Some(v),
    decreases entries.len(),
{
    let e = with_entry(entries, k, v);
    if entries.len() == 0 || text::before(k, entries[0].0) || entries[0].0 == k {
    } else {
        assert(e.drop_first() =~= with_entry(entries.drop_first(), k, v));
        law_entry_is_found(entries.drop_first(), k, v);
    }
}

/// Other keys keep what they had.
pub proof fn law_other_entries_stay(entries: Seq<Entry>, k: Seq<char>, v: Seq<char>, other: Seq<char>)
    requires
        other != k,
    ensures
        lookup(with_entry(entries, k, v), other) == lookup(entries, other),
    decreases entries.len(),
{
    let e = with_entry(entries, k, v);
    if entries.len() == 0 || text::before(k, entries[0].0) {
        assert(e.drop_first() =~= entries);
    } else if entries[0].0 == k {
        assert(e.drop_first() =~= entries.drop_first());
    } else {
        assert(e.drop_first() =~= with_entry(entries.drop_first(), k, v));
        law_other_entries_stay(entries.drop_first(), k, v, other);
    }
}

/// Putting an entry in keeps the order, and brings in no other key.
pub proof fn law_order_is_kept(entries: Seq<Entry>, k: Seq<char>, v: Seq<char>)
    requires
        ordered(entries),
    ensures
        ordered(with_entry(entries, k, v)),
        forall|i: int|
            0 <= i < with_entry(entries, k, v).len() ==> (#[trigger] with_entry(entries, k, v)[i]).0
                == k || exists|j: int|
                0 <= j < entries.len() && #[trigger] entries[j] == with_entry(entries, k, v)[i],
    decreases entries.len(),
{
    let e = with_entry(entries, k, v);
    if entries.len() == 0 || text::before(k, entries[0].0) {
        assert forall|i: int, j: int| 0 <= i < j < e.len() implies text::before(
            #[trigger] e[i].0,
            #[trigger] e[j].0,
        ) by {
            if i == 0 && j > 1 {
                assert(text::before(entries[0].0, entries[j - 1].0));
                text::lemma_before_transitive(k, entries[0].0, entries[j - 1].0);
            }
        }
        assert forall|i: int| 0 <= i < e.len() implies (#[trigger] e[i]).0 == k || exists|j: int|
            0 <= j < entries.len() && #[trigger] entries[j] == e[i] by {
            if i > 0 {
                assert(entries[i - 1] == e[i]);
            }
        }
    } else if entries[0].0 == k {
        assert forall|i: int| 0 <= i < e.len() implies (#[trigger] e[i]).0 == k || exists|j: int|
            0 <= j < entries.len() && #[trigger] entries[j] == e[i] by {
            if i > 0 {
                assert(entries[i] == e[i]);
            }
        }
    } else {
        let tail = entries.drop_first();
        let rest = with_entry(tail, k, v);
        law_order_is_kept(tail, k, v);
        text::lemma_before_total(k, entries[0].0);
        assert forall|i: int| 0 <= i < rest.len() implies text::before(
            entries[0].0,
            (#[trigger] rest[i]).0,
        ) by {
            if rest[i].0 != k {
                let j = choose|j: int| 0 <= j < tail.len() && #[trigger] tail[j] == rest[i];
                assert(entries[j + 1] == rest[i]);
            }
        }
        assert forall|i: int, j: int| 0 <= i < j < e.len() implies text::before(
            #[trigger] e[i].0,
            #[trigger] e[j].0,
        ) by {
            if i == 0 {
                assert(e[j] == rest[j - 1]);
            } else {
                assert(e[i] == rest[i - 1]);
                assert(e[j] == rest[j - 1]);
            }
        }
        assert forall|i: int| 0 <= i < e.len() implies (#[trigger] e[i]).0 == k || exists|j: int|
            0 <= j < entries.len() && #[trigger] entries[j] == e[i] by {
            if i == 0 {
                assert(entries[0] == e[i]);
            } else {
                assert(e[i] == rest[i - 1]);
                if rest[i - 1].0 != k {
                    let j = choose|j: int| 0 <= j < tail.len() && #[trigger] tail[j] == rest[i - 1];
                    assert(entries[j + 1] == e[i]);
                }
            }
        }
    }
}

/// An entry whose key comes after all others goes to the end.
pub proof fn lemma_entry_behind(entries: Seq<Entry>, k: Seq<char>, v: Seq<char>)
    requires
        forall|i: int| 0 <= i < entries.len() ==> text::before((#[trigger] entries[i]).0, k),
    ensures
        with_entry(entries, k, v) == entries.push((k, v)),
    decreases entries.len(),
{
    if entries.len() == 0 {
        assert(with_entry(entries, k, v) =~= entries.push((k, v)));
    } else {
        let rest = entries.drop_first();
        assert(text::before(entries[0].0, k));
        text::lemma_before_irreflexive(k);
        if text::before(k, entries[0].0) {
            text::lemma_before_transitive(k, entries[0].0, k);
        }
        assert forall|i: int| 0 <= i < rest.len() implies text::before((#[trigger] rest[i]).0, k) by {
            assert(text::before(entries[i + 1].0, k));
        }
        lemma_entry_behind(rest, k, v);
        assert(with_entry(entries, k, v) =~= entries.push((k, v)));
    }
}

/// Two sets in order that agree on every key are the same entries.
pub proof fn law_order_is_canonical(a: Seq<Entry>, b: Seq<Entry>)
    requires
        ordered(a),
        ordered(b),
        forall|k: Seq<char>| lookup(a, k) == lookup(b, k),
    ensures
        a == b,
    decreases a.len() + b.len(),
{
    if a.len() == 0 {
        if b.len() > 0 {
            assert(lookup(b, b[0].0) == Some(b[0].1));
            assert(lookup(a, b[0].0) is None);
        }
        assert(a =~= b);
    } else if b.len() == 0 {
        assert(lookup(a, a[0].0) == Some(a[0].1));
        assert(lookup(b, a[0].0) is None);
    } else {
        assert(lookup(a, a[0].0) == Some(a[0].1));
        assert(lookup(b, b[0].0) == Some(b[0].1));
        text::lemma_before_total(a[0].0, b[0].0);
        if text::before(a[0].0, b[0].0) {
            lemma_smaller_is_absent(b, a[0].0);
        } else if text::before(b[0].0, a[0].0) {
            lemma_smaller_is_absent(a, b[0].0);
        } else {
            let x = a.drop_first();
            let y = b.drop_first();
            assert forall|k: Seq<char>| lookup(x, k) == lookup(y, k) by {
                assert(lookup(a, k) == lookup(b, k));
                if k == a[0].0 {
                    lemma_first_is_alone(a);
                    lemma_first_is_alone(b);
                }
            }
            law_order_is_canonical(x, y);
            assert(a =~= seq![a[0]] + x);
            assert(b =~= seq![b[0]] + y);
        }
    }
}

proof fn lemma_smaller_is_absent(entries: Seq<Entry>, k: Seq<char>)
    requires
        ordered(entries),
        entries.len() > 0 ==> text::before(k, entries[0].0),
    ensures
        lookup(entries, k) is None,
    decreases entries.len(),
{
    if entries.len() > 0 {
        text::lemma_before_irreflexive(k);
        if entries.len() > 1 {
            assert(text::before(entries[0].0, entries[1].0));
            text::lemma_before_transitive(k, entries[0].0, entries[1].0);
        }
        lemma_smaller_is_absent(entries.drop_first(), k);
    }
}

proof fn lemma_first_is_alone(entries: Seq<Entry>)
    requires
        ordered(entries),
        entries.len() > 0,
    ensures
        lookup(entries.drop_first(), entries[0].0) is None,
{
    if entries.len() > 1 {
        assert(text::before(entries[0].0, entries[1].0));
    }
    lemma_smaller_is_absent(entries.drop_first(), entries[0].0);
}

proof fn lemma_without_keeps_order(entries: Seq<Entry>, k: Seq<char>)
    requires
        ordered(entries),
    ensures
        ordered(without_entry(entries, k)),
        forall|i: int|
            0 <= i < without_entry(entries, k).len() ==> exists|j: int|
                0 <= j < entries.len() && entries[j] == #[trigger] without_entry(entries, k)[i],
    decreases entries.len(),
{
    let f = |e: Entry| e.0 != k;
    let out = without_entry(entries, k);
    reveal(Seq::filter);
    if entries.len() > 0 {
        let init = entries.drop_last();
        let rest = without_entry(init, k);
        lemma_without_keeps_order(init, k);
        assert forall|i: int| 0 <= i < out.len() implies exists|j: int|
            0 <= j < entries.len() && entries[j] == #[trigger] out[i] by {
            if i < rest.len() {
                assert(out[i] == rest[i]);
                let j = choose|j: int| 0 <= j < init.len() && init[j] == rest[i];
                assert(entries[j] == out[i]);
            } else {
                assert(out[i] == entries.last());
            }
        }
        assert forall|i: int, j: int| 0 <= i < j < out.len() implies text::before(
            #[trigger] out[i].0,
            #[trigger] out[j].0,
        ) by {
            assert(out[i] == rest[i]);
            if j < rest.len() {
                assert(out[j] == rest[j]);
            } else {
                let x = choose|x: int| 0 <= x < init.len() && init[x] == rest[i];
                assert(entries[x] == rest[i]);
                assert(out[j] == entries.last());
            }
        }
    }
}

/// Without a key nothing is found under it, and other keys keep what they
/// had.
pub proof fn law_removed_entry_is_gone(entries: Seq<Entry>, k: Seq<char>, other: Seq<char>)
    ensures
        lookup(without_entry(entries, k), k) is None,
        other != k ==> lookup(without_entry(entries, k), other) == lookup(entries, other),
        ordered(entries) ==> ordered(without_entry(entries, k)),
    decreases entries.len(),
{
    if ordered(entries) {
        lemma_without_keeps_order(entries, k);
    }
    reveal(Seq::filter);
    if entries.len() > 0 {
        let init = entries.drop_last();
        let last = entries.last();
        law_removed_entry_is_gone(init, k, other);
        assert(entries =~= init.push(last));
        lemma_lookup_behind(init, last, other);
        if last.0 != k {
            lemma_lookup_behind(without_entry(init, k), last, other);
            lemma_lookup_behind(without_entry(init, k), last, k);
        }
    }
}

/// What is found once an entry stands behind others.
proof fn lemma_lookup_behind(entries: Seq<Entry>, e: Entry, k: Seq<char>)
    ensures
        lookup(entries.push(e), k) == (if lookup(entries, k) is Some {
            lookup(entries, k)
        } else if e.0 == k {
            Some(e.1)
        } else {
            None
        }),
    decreases entries.len(),
{
    let all = entries.push(e);
    if entries.len() == 0 {
        reveal_with_fuel(lookup, 2);
        assert(all.drop_first() =~= seq![]);
    } else {
        lemma_lookup_behind(entries.drop_first(), e, k);
        assert(all.drop_first() =~= entries.drop_first().push(e));
    }
}

/// What entries hold, as text.
pub open spec fn entries_of(entries: Seq<(String, String)>) -> Seq<Entry> {
    entries.map_values(|e: (String, String)| (e.0@, e.1@))
}

/// A map from text to text, in the order of its keys.
pub struct TextMap {
    entries: Vec<(String, String)>,
}

impl View for TextMap {
    type V = Seq<Entry>;

    closed spec fn view(&self) -> Seq<Entry> {
        entries_of(self.entries@)
    }
}

impl TextMap {
    #[verifier::type_invariant]
    spec fn well_formed(self) -> bool {
        ordered(entries_of(self.entries@))
    }

    pub fn new() -> (map: TextMap)
        ensures
            map@ == Seq::<Entry>::empty(),
    {
        let map = TextMap { entries: Vec::new() };
        proof {
            assert(map@ =~= seq![]);
        }
        map
    }

    pub fn len(&self) -> (n: usize)
        ensures
            n == self@.len(),
    {
        self.entries.len()
    }

    /// The entries, in the order of their keys.
    pub fn entries(&self) -> (entries: &[(String, String)])
        ensures
            entries_of(entries@) == self@,
            ordered(self@),
    {
        proof {
            use_type_invariant(self);
        }
        self.entries.as_slice()
    }

    pub fn get(&self, k: &str) -> (r: Option<&String>)
        ensures
            match r {
                Some(v) => lookup(self@, k@) == Some(v@),
                None => lookup(self@, k@) is None,
            },
    {
        let mut i: usize = 0;
        proof {
            assert(self@.skip(0) =~= self@);
        }
        while i < self.entries.len()
            invariant
                i <= self.entries@.len(),
                lookup(self@, k@) == lookup(self@.skip(i as int), k@),
            decreases self.entries@.len() - i,
        {
            proof {
                assert(self@.skip(i as int)[0] == (self.entries@[i as int].0@, self.entries@[i as int].1@));
                assert(self@.skip(i as int).drop_first() =~= self@.skip(i + 1));
            }
            if text::same(self.entries[i].0.as_str(), k) {
                return Some(&self.entries[i].1);
            }
            i += 1;
        }
        None
    }

    /// Puts a value under a key, in place of the one that was there.
    pub fn insert(&mut self, k: String, v: String)
        ensures
            final(self)@ == with_entry(old(self)@, k@, v@),
    {
        proof {
            use_type_invariant(&*self);
            law_order_is_kept(self@, k@, v@);
        }
        let mut entries: Vec<(String, String)> = Vec::new();
        std::mem::swap(&mut entries, &mut self.entries);
        let ghost all = entries_of(entries@);
        let mut i: usize = 0;
        let mut found = false;
        proof {
            assert(all.skip(0) =~= all);
            assert(all.take(0) + with_entry(all, k@, v@) =~= with_entry(all, k@, v@));
        }
        while i < entries.len()
            invariant_except_break
                i <= entries@.len(),
                all == entries_of(entries@),
                !found,
                with_entry(all, k@, v@) == all.take(i as int) + with_entry(
                    all.skip(i as int),
                    k@,
                    v@,
                ),
            ensures
                i <= entries@.len(),
                all == entries_of(entries@),
                found ==> i < entries@.len() && all[i as int].0 == k@ && with_entry(all, k@, v@)
                    == all.update(i as int, (k@, v@)),
                !found ==> with_entry(all, k@, v@) == all.take(i as int) + (seq![(k@, v@)]
                    + all.skip(i as int)),
            decreases entries@.len() - i,
        {
            let ghost rest = all.skip(i as int);
            proof {
                assert(rest[0] == (entries@[i as int].0@, entries@[i as int].1@));
                assert(rest.drop_first() =~= all.skip(i + 1));
                text::lemma_before_irreflexive(k@);
            }
            match text::order(k.as_str(), entries[i].0.as_str()) {
                Order::Before => {
                    break;
                },
                Order::Same => {
                    found = true;
                    proof {
                        assert(all.take(i as int) + rest.update(0, (k@, v@)) =~= all.update(
                            i as int,
                            (k@, v@),
                        ));
                    }
                    break;
                },
                Order::After => {
                    proof {
                        if text::before(k@, rest[0].0) {
                            text::lemma_before_transitive(k@, rest[0].0, k@);
                        }
                        assert(all.take(i as int) + (seq![rest[0]] + with_entry(
                            rest.drop_first(),
                            k@,
                            v@,
                        )) =~= all.take(i + 1) + with_entry(all.skip(i + 1), k@, v@));
                    }
                },
            }
            i += 1;
        }
        let ghost key = k@;
        let ghost value = v@;
        if found {
            entries.set(i, (k, v));
            proof {
                assert(entries_of(entries@) =~= all.update(i as int, (key, value)));
            }
        } else {
            entries.insert(i, (k, v));
            proof {
                assert(entries_of(entries@) =~= all.take(i as int) + (seq![(key, value)] + all.skip(
                    i as int,
                )));
            }
        }
        self.entries = entries;
    }

    /// A map of its own with the same entries.
    pub fn copy(&self) -> (map: TextMap)
        ensures
            map@ == self@,
    {
        proof {
            use_type_invariant(self);
        }
        let mut entries: Vec<(String, String)> = Vec::with_capacity(self.entries.len());
        let mut i: usize = 0;
        while i < self.entries.len()
            invariant
                i <= self.entries@.len(),
                entries_of(entries@) == self@.take(i as int),
            decreases self.entries@.len() - i,
        {
            let ghost was = entries@;
            entries.push((self.entries[i].0.clone(), self.entries[i].1.clone()));
            proof {
                assert(entries_of(entries@) =~= entries_of(was).push(self@[i as int]));
                assert(self@.take(i + 1) =~= self@.take(i as int).push(self@[i as int]));
            }
            i += 1;
        }
        proof {
            assert(self@.take(i as int) =~= self@);
        }
        TextMap { entries }
    }

    /// A map of its own without the entry under a key.
    pub fn without(&self, k: &str) -> (map: TextMap)
        ensures
            map@ == without_entry(self@, k@),
    {
        proof {
            use_type_invariant(self);
            lemma_without_keeps_order(self@, k@);
            reveal(Seq::filter);
        }
        let mut entries: Vec<(String, String)> = Vec::with_capacity(self.entries.len());
        let mut i: usize = 0;
        proof {
            assert(entries_of(entries@) =~= without_entry(self@.take(0), k@));
        }
        while i < self.entries.len()
            invariant
                i <= self.entries@.len(),
                entries_of(entries@) == without_entry(self@.take(i as int), k@),
            decreases self.entries@.len() - i,
        {
            let ghost was = entries@;
            proof {
                reveal(Seq::filter);
                assert(self@.take(i + 1).drop_last() =~= self@.take(i as int));
            }
            if !text::same(self.entries[i].0.as_str(), k) {
                entries.push((self.entries[i].0.clone(), self.entries[i].1.clone()));
                proof {
                    assert(entries_of(entries@) =~= entries_of(was).push(self@[i as int]));
                }
            }
            i += 1;
        }
        proof {
            assert(self@.take(i as int) =~= self@);
        }
        TextMap { entries }
    }

    /// Whether two maps hold the same entries.
    pub fn same(&self, other: &TextMap) -> (r: bool)
        ensures
            r == (self@ == other@),
    {
        if self.entries.len() != other.entries.len() {
            return false;
        }
        let mut i: usize = 0;
        while i < self.entries.len()
            invariant
                i <= self.entries@.len() == other.entries@.len(),
                forall|j: int| 0 <= j < i ==> self@[j] == other@[j],
            decreases self.entries@.len() - i,
        {
            if !text::same(self.entries[i].0.as_str(), other.entries[i].0.as_str()) || !text::same(
                self.entries[i].1.as_str(),
                other.entries[i].1.as_str(),
            ) {
                assert(self@[i as int] != other@[i as int]);
                return false;
            }
            i += 1;
        }
        assert(self@ =~= other@);
        true
    }
}

} // verus!
