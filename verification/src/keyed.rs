//! Values under text keys, in the order in which the keys first came.
//!
//! Looking a key up goes through a hash map; walking goes through the
//! entries, so the order never depends on the hashes.

use vstd::hash_map::StringHashMap;
use vstd::prelude::*;

verus! {

/// Where a key stands among entries; behind them all if it is not there.
pub open spec fn place<V>(entries: Seq<(Seq<char>, V)>, k: Seq<char>) -> nat
    decreases entries.len(),
{
    if entries.len() == 0 || entries[0].0 == k {
        0
    } else {
        1 + place(entries.drop_first(), k)
    }
}

pub open spec fn holds<V>(entries: Seq<(Seq<char>, V)>, k: Seq<char>) -> bool {
    place(entries, k) < entries.len()
}

/// The value under a key.
pub open spec fn found<V>(entries: Seq<(Seq<char>, V)>, k: Seq<char>) -> Option<V> {
    if holds(entries, k) {
        Some(entries[place(entries, k) as int].1)
    } else {
        None
    }
}

/// Entries with a value put under a key, in place of the one it had.
pub open spec fn put<V>(entries: Seq<(Seq<char>, V)>, k: Seq<char>, v: V) -> Seq<(Seq<char>, V)> {
    if holds(entries, k) {
        entries.update(place(entries, k) as int, (k, v))
    } else {
        entries.push((k, v))
    }
}

/// Whether no key stands twice.
pub open spec fn distinct<V>(entries: Seq<(Seq<char>, V)>) -> bool {
    forall|i: int, j: int|
        0 <= i < j < entries.len() ==> (#[trigger] entries[i]).0 != (#[trigger] entries[j]).0
}

pub proof fn lemma_place<V>(entries: Seq<(Seq<char>, V)>, k: Seq<char>)
    ensures
        place(entries, k) <= entries.len(),
        holds(entries, k) ==> entries[place(entries, k) as int].0 == k,
        forall|i: int| 0 <= i < place(entries, k) ==> (#[trigger] entries[i]).0 != k,
    decreases entries.len(),
{
    if entries.len() > 0 && entries[0].0 != k {
        let rest = entries.drop_first();
        lemma_place(rest, k);
        assert forall|i: int| 0 <= i < place(entries, k) implies (#[trigger] entries[i]).0 != k by {
            if i > 0 {
                assert(rest[i - 1].0 != k);
            }
        }
    }
}

pub proof fn lemma_place_is<V>(entries: Seq<(Seq<char>, V)>, k: Seq<char>, at: int)
    requires
        0 <= at < entries.len(),
        entries[at].0 == k,
        distinct(entries),
    ensures
        place(entries, k) == at,
{
    lemma_place(entries, k);
    let p = place(entries, k) as int;
    if p < at {
        assert(entries[p].0 != entries[at].0);
    }
    if at < p {
        assert(entries[at].0 != k);
    }
}

/// Putting a value in keeps the keys distinct.
pub proof fn lemma_put_distinct<V>(entries: Seq<(Seq<char>, V)>, k: Seq<char>, v: V)
    requires
        distinct(entries),
    ensures
        distinct(put(entries, k, v)),
{
    lemma_place(entries, k);
    let out = put(entries, k, v);
    assert forall|i: int, j: int| 0 <= i < j < out.len() implies (#[trigger] out[i]).0 != (
    #[trigger] out[j]).0 by {
        if holds(entries, k) {
            assert(out[i].0 == entries[i].0);
            assert(out[j].0 == entries[j].0);
        } else {
            assert(entries[i].0 != k);
            if j < entries.len() {
                assert(entries[i].0 != entries[j].0);
            }
        }
    }
}

/// Keys alone decide where a key stands.
pub proof fn lemma_place_by_keys<V, W>(a: Seq<(Seq<char>, V)>, b: Seq<(Seq<char>, W)>, k: Seq<char>)
    requires
        a.len() == b.len(),
        forall|i: int| 0 <= i < a.len() ==> (#[trigger] a[i]).0 == b[i].0,
    ensures
        place(a, k) == place(b, k),
    decreases a.len(),
{
    if a.len() > 0 && a[0].0 != k {
        let x = a.drop_first();
        let y = b.drop_first();
        assert forall|i: int| 0 <= i < x.len() implies (#[trigger] x[i]).0 == y[i].0 by {
            assert(a[i + 1].0 == b[i + 1].0);
        }
        lemma_place_by_keys(x, y, k);
    }
}

/// What was put under a key is found there, and other keys keep what they
/// had.
pub proof fn law_put_is_found<V>(entries: Seq<(Seq<char>, V)>, k: Seq<char>, v: V, other: Seq<char>)
    requires
        distinct(entries),
    ensures
        found(put(entries, k, v), k) == Some(v),
        other != k ==> found(put(entries, k, v), other) == found(entries, other),
{
    let out = put(entries, k, v);
    lemma_place(entries, k);
    lemma_put_distinct(entries, k, v);
    if holds(entries, k) {
        lemma_place_is(out, k, place(entries, k) as int);
    } else {
        lemma_place_is(out, k, entries.len() as int);
    }
    if other != k {
        lemma_place(entries, other);
        lemma_place(out, other);
        if holds(entries, other) {
            let at = place(entries, other) as int;
            assert(out[at] == entries[at]);
            lemma_place_is(out, other, at);
        } else if holds(out, other) {
            let at = place(out, other) as int;
            assert(entries[at].0 == other);
            lemma_place_is(entries, other, at);
        }
    }
}

/// Taking an entry out leaves the others where they can be found.
pub proof fn law_remove_keeps_others<V>(entries: Seq<(Seq<char>, V)>, at: int, other: Seq<char>)
    requires
        distinct(entries),
        0 <= at < entries.len(),
    ensures
        distinct(entries.remove(at)),
        other != entries[at].0 ==> found(entries.remove(at), other) == found(entries, other),
        found(entries.remove(at), entries[at].0) is None,
{
    let out = entries.remove(at);
    let from = |i: int|
        if i < at {
            i
        } else {
            i + 1
        };
    assert forall|i: int| 0 <= i < out.len() implies #[trigger] out[i] == entries[from(i)] by {}
    assert forall|i: int, j: int| 0 <= i < j < out.len() implies (#[trigger] out[i]).0 != (
    #[trigger] out[j]).0 by {
        assert(entries[from(i)].0 != entries[from(j)].0);
    }
    lemma_place(out, other);
    lemma_place(entries, other);
    lemma_place(out, entries[at].0);
    if holds(out, entries[at].0) {
        let p = place(out, entries[at].0) as int;
        assert(entries[from(p)].0 == entries[at].0);
    }
    if other != entries[at].0 {
        if holds(entries, other) {
            let p = place(entries, other) as int;
            if p < at {
                assert(out[p] == entries[p]);
                lemma_place_is(out, other, p);
            } else {
                assert(out[p - 1] == entries[p]);
                lemma_place_is(out, other, p - 1);
            }
        } else if holds(out, other) {
            let p = place(out, other) as int;
            assert(out[p] == entries[from(p)]);
            lemma_place_is(entries, other, from(p));
        }
    }
}

/// What entries hold, their keys as text.
pub open spec fn keyed_of<V>(entries: Seq<(String, V)>) -> Seq<(Seq<char>, V)> {
    entries.map_values(|e: (String, V)| (e.0@, e.1))
}

/// Whether an index says where each key stands, and no key stands twice.
pub open spec fn indexed<V>(entries: Seq<(Seq<char>, V)>, index: Map<Seq<char>, usize>) -> bool {
    &&& distinct(entries)
    &&& forall|i: int|
        #![trigger entries[i]]
        0 <= i < entries.len() ==> index.contains_key(entries[i].0) && index[entries[i].0] == i
    &&& forall|k: Seq<char>| #[trigger]
        index.contains_key(k) ==> index[k] < entries.len() && entries[index[k] as int].0 == k
}

proof fn lemma_update_indexed<V>(
    entries: Seq<(Seq<char>, V)>,
    index: Map<Seq<char>, usize>,
    at: int,
    v: V,
)
    requires
        indexed(entries, index),
        0 <= at < entries.len(),
    ensures
        indexed(entries.update(at, (entries[at].0, v)), index),
{
    let out = entries.update(at, (entries[at].0, v));
    assert forall|i: int| #![trigger out[i]] 0 <= i < out.len() implies out[i].0
        == entries[i].0 by {}
}

#[verifier::reject_recursive_types(V)]
pub struct Keyed<V> {
    entries: Vec<(String, V)>,
    index: StringHashMap<usize>,
}

impl<V> View for Keyed<V> {
    type V = Seq<(Seq<char>, V)>;

    closed spec fn view(&self) -> Seq<(Seq<char>, V)> {
        keyed_of(self.entries@)
    }
}

impl<V> Keyed<V> {
    /// No key stands twice, and the index says where each one stands.
    pub closed spec fn wf(&self) -> bool {
        indexed(keyed_of(self.entries@), self.index@)
    }

    pub proof fn lemma_wf(&self)
        requires
            self.wf(),
        ensures
            distinct(self@),
    {
    }

    pub fn new() -> (keyed: Self)
        ensures
            keyed.wf(),
            keyed@ == Seq::<(Seq<char>, V)>::empty(),
    {
        let keyed = Keyed { entries: Vec::new(), index: StringHashMap::new() };
        proof {
            assert(keyed@ =~= seq![]);
        }
        keyed
    }

    pub fn len(&self) -> (n: usize)
        ensures
            n == self@.len(),
    {
        self.entries.len()
    }

    /// Where a key stands.
    pub fn find(&self, k: &str) -> (r: Option<usize>)
        requires
            self.wf(),
        ensures
            match r {
                Some(i) => holds(self@, k@) && i == place(self@, k@),
                None => !holds(self@, k@),
            },
    {
        proof {
            lemma_place(self@, k@);
        }
        match self.index.get(k) {
            Some(i) => {
                proof {
                    lemma_place_is(self@, k@, *i as int);
                }
                Some(*i)
            },
            None => {
                proof {
                    if holds(self@, k@) {
                        let e = self@[place(self@, k@) as int];
                        assert(self.index@.contains_key(e.0));
                    }
                }
                None
            },
        }
    }

    pub fn get(&self, k: &str) -> (r: Option<&V>)
        requires
            self.wf(),
        ensures
            match r {
                Some(v) => found(self@, k@) == Some(*v),
                None => found(self@, k@) is None,
            },
    {
        match self.find(k) {
            Some(i) => Some(&self.entries[i].1),
            None => None,
        }
    }

    pub fn at(&self, i: usize) -> (v: &V)
        requires
            i < self@.len(),
        ensures
            *v == self@[i as int].1,
    {
        &self.entries[i].1
    }

    /// The value at a place, to be changed there.
    pub fn at_mut(&mut self, i: usize) -> (v: &mut V)
        requires
            old(self).wf(),
            i < old(self)@.len(),
        ensures
            *v == old(self)@[i as int].1,
            final(self).wf(),
            final(self)@ == old(self)@.update(i as int, (old(self)@[i as int].0, *final(v))),
    {
        proof {
            let was = self@;
            let index = self.index@;
            assert forall|e: (String, V)| e.0@ == was[i as int].0 implies #[trigger] indexed(
                keyed_of(self.entries@.update(i as int, e)),
                index,
            ) by {
                lemma_update_indexed(was, index, i as int, e.1);
                assert(keyed_of(self.entries@.update(i as int, e)) =~= was.update(
                    i as int,
                    (was[i as int].0, e.1),
                ));
            }
        }
        &mut self.entries[i].1
    }

    /// Puts a value under a key, in place of the one that was there.
    pub fn put(&mut self, k: String, v: V)
        requires
            old(self).wf(),
        ensures
            final(self).wf(),
            final(self)@ == put(old(self)@, k@, v),
    {
        let ghost was = self@;
        let ghost key = k@;
        proof {
            lemma_place(was, key);
            lemma_put_distinct(was, key, v);
        }
        match self.find(k.as_str()) {
            Some(i) => {
                self.entries.set(i, (k, v));
                proof {
                    assert(self@ =~= put(was, key, v));
                    assert forall|j: int| #![trigger self@[j]] 0 <= j < self@.len() implies self@[j].0
                        == was[j].0 by {}
                    assert forall|j: int| #![trigger self@[j]] 0 <= j < self@.len() implies
                        self.index@.contains_key(self@[j].0) && self.index@[self@[j].0] == j by {
                        assert(self.index@.contains_key(was[j].0));
                    }
                }
            },
            None => {
                let n = self.entries.len();
                self.index.insert(k.clone(), n);
                self.entries.push((k, v));
                proof {
                    assert(self@ =~= put(was, key, v));
                    assert forall|j: int| #![trigger self@[j]] 0 <= j < self@.len() implies
                        self.index@.contains_key(self@[j].0) && self.index@[self@[j].0] == j by {
                        if j < was.len() {
                            assert(self@[j] == was[j]);
                            assert(was[j].0 != key);
                        }
                    }
                    assert forall|q: Seq<char>| #[trigger]
                        self.index@.contains_key(q) implies self.index@[q] < self@.len()
                        && self@[self.index@[q] as int].0 == q by {
                        if q != key {
                            assert(was[self.index@[q] as int].0 == q);
                        }
                    }
                }
            },
        }
    }

    /// Takes the entry at a place out.
    pub fn remove(&mut self, i: usize)
        requires
            old(self).wf(),
            i < old(self)@.len(),
        ensures
            final(self).wf(),
            final(self)@ == old(self)@.remove(i as int),
    {
        let ghost was = self@;
        proof {
            law_remove_keeps_others(was, i as int, was[i as int].0);
        }
        let mut entries: Vec<(String, V)> = Vec::new();
        std::mem::swap(&mut entries, &mut self.entries);
        let ghost all = entries@;
        let _ = entries.remove(i);
        proof {
            assert(keyed_of(entries@) =~= was.remove(i as int));
        }
        *self = Keyed::from_entries(entries);
    }

    /// The entries by themselves.
    pub fn into_entries(self) -> (entries: Vec<(String, V)>)
        requires
            self.wf(),
        ensures
            keyed_of(entries@) == self@,
            distinct(keyed_of(entries@)),
    {
        self.entries
    }

    /// Entries whose keys are distinct, with an index over them.
    pub fn from_entries(entries: Vec<(String, V)>) -> (keyed: Self)
        requires
            distinct(keyed_of(entries@)),
        ensures
            keyed.wf(),
            keyed@ == keyed_of(entries@),
    {
        let ghost all = keyed_of(entries@);
        let mut index: StringHashMap<usize> = StringHashMap::new();
        let mut i: usize = 0;
        while i < entries.len()
            invariant
                i <= entries@.len(),
                all == keyed_of(entries@),
                distinct(all),
                forall|j: int|
                    #![trigger all[j]]
                    0 <= j < i ==> index@.contains_key(all[j].0) && index@[all[j].0] == j,
                forall|k: Seq<char>| #[trigger]
                    index@.contains_key(k) ==> index@[k] < i && all[index@[k] as int].0 == k,
            decreases entries@.len() - i,
        {
            let ghost was = index@;
            index.insert(entries[i].0.clone(), i);
            proof {
                let key = all[i as int].0;
                assert(index@ == was.insert(key, i));
                assert forall|j: int| #![trigger all[j]] 0 <= j < i + 1 implies
                    index@.contains_key(all[j].0) && index@[all[j].0] == j by {
                    if j < i {
                        assert(all[j].0 != all[i as int].0);
                    }
                }
            }
            i += 1;
        }
        Keyed { entries, index }
    }
}

} // verus!
