//! The time series store: a fixed-window history per series.
//!
//! There is no database here and there does not need to be one. About
//! twenty distinct metrics over at most a day are a few hundred series on a
//! small cluster, which fit in memory with room to spare -- and once the
//! older samples are packed down by [`crate::chunk`] they fit several times
//! over.
//!
//! Series are dropped once every sample has aged out, so pods that come and
//! go do not accumulate.

use crate::chunk;
use crate::chunk::Chunk;
use crate::keyed;
use crate::keyed::Keyed;
use crate::series;
use crate::text;
use crate::textmap;
use crate::textmap::Entry;
use vstd::prelude::*;

pub use crate::series::{Labels, Sample, Series, SeriesView, MAX_CHUNK_SAMPLES, MAX_CHUNK_SPAN_FRACTION};

verus! {

/// The label that holds a series' name.
pub const NAME_LABEL: &'static str = "__name__";

/// The canonical key of a label set.
pub open spec fn key_of(labels: Seq<Entry>) -> Seq<char>
    decreases labels.len(),
{
    if labels.len() == 0 {
        seq![]
    } else {
        labels[0].0 + seq!['\u{1}'] + labels[0].1 + seq!['\u{2}'] + key_of(labels.drop_first())
    }
}

/// The canonical key of a label set.
pub fn canonical_key(labels: &Labels) -> (key: String)
    ensures
        key@ == key_of(labels@),
{
    let entries = labels.entries();
    let mut key = String::new();
    let mut i: usize = 0;
    proof {
        assert(labels@.skip(0) =~= labels@);
        assert(key@ + key_of(labels@) =~= key_of(labels@));
    }
    while i < entries.len()
        invariant
            i <= entries@.len(),
            labels@ == textmap::entries_of(entries@),
            key_of(labels@) == key@ + key_of(labels@.skip(i as int)),
        decreases entries@.len() - i,
    {
        let ghost was = key@;
        let ghost rest = labels@.skip(i as int);
        key.append(entries[i].0.as_str());
        key.push('\u{1}');
        key.append(entries[i].1.as_str());
        key.push('\u{2}');
        proof {
            assert(rest[0] == (entries@[i as int].0@, entries@[i as int].1@));
            assert(rest.drop_first() =~= labels@.skip(i + 1));
            assert(was + key_of(rest) =~= key@ + key_of(labels@.skip(i + 1)));
        }
        i += 1;
    }
    proof {
        assert(key@ =~= key_of(labels@));
    }
    key
}

/// Labels put behind one another, those with an empty value left out.
pub open spec fn with_pairs(labels: Seq<Entry>, pairs: Seq<Entry>) -> Seq<Entry>
    decreases pairs.len(),
{
    if pairs.len() == 0 {
        labels
    } else {
        let before = with_pairs(labels, pairs.drop_last());
        if pairs.last().1.len() == 0 {
            before
        } else {
            textmap::with_entry(before, pairs.last().0, pairs.last().1)
        }
    }
}

/// A label set with a name and some pairs.
pub open spec fn labelled(name: Seq<char>, pairs: Seq<Entry>) -> Seq<Entry> {
    with_pairs(seq![(NAME_LABEL@, name)], pairs)
}

/// Pairs as text.
pub open spec fn pair_views(pairs: Seq<(&str, &str)>) -> Seq<Entry> {
    pairs.map_values(|p: (&str, &str)| (p.0@, p.1@))
}

/// Builds a label set from pairs, skipping empties so that a missing value
/// never produces `label=""` -- queries filter on `image!=""` and friends,
/// and an empty label would silently drop the series.
pub fn labels(name: &str, pairs: &[(&str, &str)]) -> (out: Labels)
    ensures
        out@ == labelled(name@, pair_views(pairs@)),
{
    let mut out = Labels::new();
    out.insert(NAME_LABEL.to_owned(), name.to_owned());
    let ghost all = pair_views(pairs@);
    proof {
        assert(out@ =~= seq![(NAME_LABEL@, name@)]);
        assert(all.take(0) =~= seq![]);
    }
    let mut i: usize = 0;
    while i < pairs.len()
        invariant
            i <= pairs@.len(),
            all == pair_views(pairs@),
            out@ == with_pairs(seq![(NAME_LABEL@, name@)], all.take(i as int)),
        decreases pairs@.len() - i,
    {
        let (k, v) = pairs[i];
        proof {
            assert(all.take(i + 1).drop_last() =~= all.take(i as int));
            assert(all.take(i + 1).last() == (k@, v@));
        }
        if !v.is_empty() {
            out.insert(k.to_owned(), v.to_owned());
        }
        i += 1;
    }
    proof {
        assert(all.take(i as int) =~= all);
    }
    out
}

/// Whether labels carry a name and these pairs, of which empty ones are
/// skipped, and nothing else.
pub open spec fn carries(labels: Seq<Entry>, name: Seq<char>, pairs: Seq<Entry>) -> bool {
    &&& textmap::ordered(labels)
    &&& textmap::lookup(labels, "__name__"@) == Some(name)
    &&& forall|i: int|
        0 <= i < pairs.len() ==> textmap::lookup(labels, (#[trigger] pairs[i]).0) == (if pairs[i].1.len()
            == 0 {
            None
        } else {
            Some(pairs[i].1)
        })
    &&& forall|k: Seq<char>|
        k != "__name__"@ && (forall|i: int| 0 <= i < pairs.len() ==> (#[trigger] pairs[i]).0 != k)
            ==> #[trigger] textmap::lookup(labels, k) is None
}

/// Whether pairs have each key once, and none is that of the name.
pub open spec fn keys_once(pairs: Seq<Entry>) -> bool {
    &&& forall|i: int| 0 <= i < pairs.len() ==> (#[trigger] pairs[i]).0 != "__name__"@
    &&& forall|i: int, j: int|
        0 <= i < j < pairs.len() ==> (#[trigger] pairs[i]).0 != (#[trigger] pairs[j]).0
}

/// A label set carries its name and the pairs it was made of.
pub proof fn law_labels_carry_their_pairs(name: Seq<char>, pairs: Seq<Entry>)
    requires
        keys_once(pairs),
    ensures
        carries(labelled(name, pairs), name, pairs),
    decreases pairs.len(),
{
    let out = labelled(name, pairs);
    if pairs.len() == 0 {
        assert(out =~= seq![("__name__"@, name)]);
        assert forall|k: Seq<char>| k != "__name__"@ implies #[trigger] textmap::lookup(out, k) is None by {
            reveal_with_fuel(textmap::lookup, 2);
        }
    } else {
        let init = pairs.drop_last();
        let n = pairs.len() - 1;
        let (key, value) = pairs.last();
        let before = labelled(name, init);
        assert forall|i: int| 0 <= i < init.len() implies (#[trigger] init[i]).0 != "__name__"@ by {
            assert(init[i] == pairs[i]);
        }
        assert forall|i: int, j: int| 0 <= i < j < init.len() implies (#[trigger] init[i]).0 != (
        #[trigger] init[j]).0 by {
            assert(init[i] == pairs[i] && init[j] == pairs[j]);
        }
        law_labels_carry_their_pairs(name, init);
        assert(pairs[n] == (key, value));
        assert forall|i: int| 0 <= i < init.len() implies (#[trigger] init[i]).0 != key by {
            assert(pairs[i].0 != pairs[n].0);
        }
        if value.len() > 0 {
            textmap::law_order_is_kept(before, key, value);
            textmap::law_entry_is_found(before, key, value);
            textmap::law_other_entries_stay(before, key, value, "__name__"@);
        }
        assert forall|i: int| 0 <= i < pairs.len() implies textmap::lookup(
            out,
            (#[trigger] pairs[i]).0,
        ) == (if pairs[i].1.len() == 0 {
            None
        } else {
            Some(pairs[i].1)
        }) by {
            if i < n {
                assert(init[i] == pairs[i]);
                if value.len() > 0 {
                    textmap::law_other_entries_stay(before, key, value, pairs[i].0);
                }
            } else if value.len() == 0 {
                assert(textmap::lookup(before, key) is None);
            }
        }
        assert forall|k: Seq<char>|
            k != "__name__"@ && (forall|i: int|
                0 <= i < pairs.len() ==> (#[trigger] pairs[i]).0 != k) implies #[trigger] textmap::lookup(
            out,
            k,
        ) is None by {
            assert forall|i: int| 0 <= i < init.len() implies (#[trigger] init[i]).0 != k by {
                assert(init[i] == pairs[i]);
            }
            assert(pairs[n].0 != k);
            assert(textmap::lookup(before, k) is None);
            if value.len() > 0 {
                textmap::law_other_entries_stay(before, key, value, k);
            }
        }
    }
}

/// The store: its series by key, the keys of each name, and how long
/// samples are kept.
#[verifier::ext_equal]
pub struct StoreView {
    pub series: Seq<(Seq<char>, SeriesView)>,
    pub names: Seq<(Seq<char>, Seq<Seq<char>>)>,
    pub retention: i64,
}

/// The name of a series; nothing where it has none.
pub open spec fn name_of(labels: Seq<Entry>) -> Seq<char> {
    match textmap::lookup(labels, NAME_LABEL@) {
        Some(name) => name,
        None => seq![],
    }
}

/// The keys listed under a name.
pub open spec fn keys_under(names: Seq<(Seq<char>, Seq<Seq<char>>)>, name: Seq<char>) -> Seq<
    Seq<char>,
> {
    match keyed::found(names, name) {
        Some(keys) => keys,
        None => seq![],
    }
}

/// A store with a whole series put in, listed once more under its name.
pub open spec fn with_series(v: StoreView, s: SeriesView) -> StoreView {
    let key = key_of(s.labels);
    let name = name_of(s.labels);
    StoreView {
        series: keyed::put(v.series, key, s),
        names: keyed::put(v.names, name, keys_under(v.names, name).push(key)),
        retention: v.retention,
    }
}

/// A store after a sample came in. One that is not later than what its
/// series holds is ignored.
pub open spec fn appended(v: StoreView, labels: Seq<Entry>, sample: Sample) -> StoreView {
    let key = key_of(labels);
    match keyed::found(v.series, key) {
        Some(s) => if series::last_time(s) matches Some(last) && sample.t <= last {
            v
        } else {
            StoreView {
                series: keyed::put(v.series, key, series::pushed(s, sample, v.retention)),
                names: v.names,
                retention: v.retention,
            }
        },
        None => with_series(v, series::pushed(series::empty_series(labels), sample, v.retention)),
    }
}

/// Keys without one of them.
pub open spec fn without_key(keys: Seq<Seq<char>>, key: Seq<char>) -> Seq<Seq<char>> {
    keys.filter(|k: Seq<char>| k != key)
}

/// The names with a key no longer listed under one of them. A name under
/// which nothing is left goes.
pub open spec fn delisted(
    names: Seq<(Seq<char>, Seq<Seq<char>>)>,
    name: Seq<char>,
    key: Seq<char>,
) -> Seq<(Seq<char>, Seq<Seq<char>>)> {
    match keyed::found(names, name) {
        None => names,
        Some(keys) => {
            let left = without_key(keys, key);
            if left.len() == 0 {
                names.remove(keyed::place(names, name) as int)
            } else {
                keyed::put(names, name, left)
            }
        },
    }
}

/// The names without the keys of series that hold nothing.
pub open spec fn names_of_rest(
    names: Seq<(Seq<char>, Seq<Seq<char>>)>,
    series: Seq<(Seq<char>, SeriesView)>,
) -> Seq<(Seq<char>, Seq<Seq<char>>)>
    decreases series.len(),
{
    if series.len() == 0 {
        names
    } else {
        let before = names_of_rest(names, series.drop_last());
        let last = series.last();
        if series::series_empty(last.1) {
            delisted(before, name_of(last.1.labels), last.0)
        } else {
            before
        }
    }
}

/// Every series without what has aged out.
pub open spec fn all_pruned(series: Seq<(Seq<char>, SeriesView)>, cutoff: int) -> Seq<
    (Seq<char>, SeriesView),
> {
    series.map_values(|e: (Seq<char>, SeriesView)| (e.0, series::pruned(e.1, cutoff)))
}

/// The series that hold something.
pub open spec fn nonempty(series: Seq<(Seq<char>, SeriesView)>) -> Seq<(Seq<char>, SeriesView)> {
    series.filter(|e: (Seq<char>, SeriesView)| !series::series_empty(e.1))
}

/// A store without what has aged out at `now`, and without the series of
/// which nothing is left.
pub open spec fn store_pruned(v: StoreView, now: i64) -> StoreView {
    let aged = all_pruned(v.series, now - v.retention);
    StoreView {
        series: nonempty(aged),
        names: names_of_rest(v.names, aged),
        retention: v.retention,
    }
}

/// The series under some keys, in their order.
pub open spec fn series_under(series: Seq<(Seq<char>, SeriesView)>, keys: Seq<Seq<char>>) -> Seq<
    SeriesView,
>
    decreases keys.len(),
{
    if keys.len() == 0 {
        seq![]
    } else {
        let before = series_under(series, keys.drop_last());
        match keyed::found(series, keys.last()) {
            Some(s) => before.push(s),
            None => before,
        }
    }
}

/// The series that a selector has to look at: those listed under a name, or
/// all of them.
pub open spec fn candidates_of(v: StoreView, name: Option<Seq<char>>) -> Seq<SeriesView> {
    match name {
        Some(name) => series_under(v.series, keys_under(v.names, name)),
        None => v.series.map_values(|e: (Seq<char>, SeriesView)| e.1),
    }
}

/// Whether a series can be found by its name.
pub open spec fn listed(v: StoreView, e: (Seq<char>, SeriesView)) -> bool {
    keys_under(v.names, name_of(e.1.labels)).contains(e.0)
}

/// Whether a store is in order: every series in order, under its own key
/// and listed under its name.
pub open spec fn store_wf(v: StoreView) -> bool {
    &&& keyed::distinct(v.series)
    &&& keyed::distinct(v.names)
    &&& forall|i: int|
        0 <= i < v.series.len() ==> {
            &&& series::series_wf((#[trigger] v.series[i]).1)
            &&& textmap::ordered(v.series[i].1.labels)
            &&& v.series[i].0 == key_of(v.series[i].1.labels)
            &&& listed(v, v.series[i])
        }
}

/// Whether a text holds neither of the marks that part a key.
pub open spec fn plain_text(s: Seq<char>) -> bool {
    forall|i: int| 0 <= i < s.len() ==> (#[trigger] s[i]) != '\u{1}' && s[i] != '\u{2}'
}

/// Whether labels hold neither of the marks that part a key.
pub open spec fn plain_labels(labels: Seq<Entry>) -> bool {
    forall|i: int|
        0 <= i < labels.len() ==> plain_text((#[trigger] labels[i]).0) && plain_text(labels[i].1)
}

/// Whether every series of a store has plain labels.
pub open spec fn plain_store(v: StoreView) -> bool {
    forall|i: int| 0 <= i < v.series.len() ==> plain_labels((#[trigger] v.series[i]).1.labels)
}

/// Texts that are parted by a mark that neither of them holds in front of it.
proof fn lemma_parted(a: Seq<char>, x: Seq<char>, b: Seq<char>, y: Seq<char>, mark: char)
    requires
        forall|i: int| 0 <= i < a.len() ==> (#[trigger] a[i]) != mark,
        forall|i: int| 0 <= i < b.len() ==> (#[trigger] b[i]) != mark,
        a + seq![mark] + x == b + seq![mark] + y,
    ensures
        a == b,
        x == y,
{
    let s = a + seq![mark] + x;
    let r = b + seq![mark] + y;
    assert(s[a.len() as int] == mark);
    assert(r[b.len() as int] == mark);
    if a.len() < b.len() {
        assert(r[a.len() as int] == b[a.len() as int]);
    }
    if b.len() < a.len() {
        assert(s[b.len() as int] == a[b.len() as int]);
    }
    assert(a =~= s.take(a.len() as int));
    assert(b =~= r.take(a.len() as int));
    assert(x =~= s.skip(a.len() as int + 1));
    assert(y =~= r.skip(a.len() as int + 1));
}

/// A key starts with its first label, parted by marks from what follows.
proof fn lemma_key_parts(a: Seq<Entry>)
    requires
        a.len() > 0,
    ensures
        key_of(a) == a[0].0 + seq!['\u{1}'] + (a[0].1 + seq!['\u{2}'] + key_of(a.drop_first())),
        key_of(a).len() > 0,
{
    assert(key_of(a) =~= a[0].0 + seq!['\u{1}'] + (a[0].1 + seq!['\u{2}'] + key_of(
        a.drop_first(),
    )));
}

proof fn lemma_plain_tail(a: Seq<Entry>)
    requires
        plain_labels(a),
        a.len() > 0,
    ensures
        plain_text(a[0].0),
        plain_text(a[0].1),
        plain_labels(a.drop_first()),
{
    let tail = a.drop_first();
    assert forall|i: int| 0 <= i < tail.len() implies plain_text((#[trigger] tail[i]).0) && plain_text(
        tail[i].1,
    ) by {
        assert(tail[i] == a[i + 1]);
    }
}

/// Labels that hold no mark are told apart by their keys.
pub proof fn law_plain_labels_have_their_own_key(a: Seq<Entry>, b: Seq<Entry>)
    requires
        plain_labels(a),
        plain_labels(b),
        key_of(a) == key_of(b),
    ensures
        a == b,
    decreases a.len(),
{
    if a.len() > 0 && b.len() > 0 {
        let (k, x) = a[0];
        let (l, y) = b[0];
        let more = key_of(a.drop_first());
        let rest = key_of(b.drop_first());
        lemma_key_parts(a);
        lemma_key_parts(b);
        lemma_plain_tail(a);
        lemma_plain_tail(b);
        lemma_parted(k, x + seq!['\u{2}'] + more, l, y + seq!['\u{2}'] + rest, '\u{1}');
        lemma_parted(x, more, y, rest, '\u{2}');
        law_plain_labels_have_their_own_key(a.drop_first(), b.drop_first());
        assert(a =~= seq![a[0]] + a.drop_first());
        assert(b =~= seq![b[0]] + b.drop_first());
    } else {
        if a.len() > 0 {
            lemma_key_parts(a);
        }
        if b.len() > 0 {
            lemma_key_parts(b);
        }
        assert(a =~= b);
    }
}

/// Whether a sample at `t` is within reach of every series.
pub open spec fn accepting(v: StoreView, t: i64) -> bool {
    forall|i: int| 0 <= i < v.series.len() ==> series::reaches((#[trigger] v.series[i]).1.head, t)
}

/// Whether a sample at `t` is within reach of the series with these labels.
pub open spec fn takes(v: StoreView, labels: Seq<Entry>, t: i64) -> bool {
    keyed::found(v.series, key_of(labels)) matches Some(s) ==> series::reaches(s.head, t)
}

proof fn lemma_found_wf(v: StoreView, key: Seq<char>)
    requires
        store_wf(v),
    ensures
        keyed::found(v.series, key) matches Some(s) ==> series::series_wf(s) && textmap::ordered(s.labels)
            && key_of(s.labels) == key && keys_under(v.names, name_of(s.labels)).contains(key),
{
    keyed::lemma_place(v.series, key);
    if keyed::holds(v.series, key) {
        assert(series::series_wf(v.series[keyed::place(v.series, key) as int].1));
    }
}

/// Putting a series in keeps a store in order.
pub proof fn law_series_in_keeps_order(v: StoreView, s: SeriesView)
    requires
        store_wf(v),
        series::series_wf(s),
        textmap::ordered(s.labels),
    ensures
        store_wf(with_series(v, s)),
        keyed::found(with_series(v, s).series, key_of(s.labels)) == Some(s),
{
    let key = key_of(s.labels);
    let name = name_of(s.labels);
    let out = with_series(v, s);
    keyed::lemma_put_distinct(v.series, key, s);
    keyed::lemma_put_distinct(v.names, name, keys_under(v.names, name).push(key));
    keyed::law_put_is_found(v.series, key, s, key);
    keyed::lemma_place(v.series, key);
    assert forall|i: int| 0 <= i < out.series.len() implies {
        &&& series::series_wf((#[trigger] out.series[i]).1)
        &&& textmap::ordered(out.series[i].1.labels)
        &&& out.series[i].0 == key_of(out.series[i].1.labels)
        &&& listed(out, out.series[i])
    } by {
        let e = out.series[i];
        let under = name_of(e.1.labels);
        keyed::law_put_is_found(v.names, name, keys_under(v.names, name).push(key), under);
        if e.0 == key {
            let keys = keys_under(v.names, name).push(key);
            assert(keys[keys.len() - 1] == key);
            if i < v.series.len() && i != keyed::place(v.series, key) {
                keyed::lemma_place_is(v.series, key, i);
            }
            assert(e.1 == s);
        } else {
            assert(e == v.series[i]);
            assert(listed(v, v.series[i]));
            let had = keys_under(v.names, under);
            let at = choose|at: int| 0 <= at < had.len() && had[at] == e.0;
            assert(keys_under(out.names, under)[at] == e.0);
        }
    }
}

proof fn lemma_replaced_wf(v: StoreView, key: Seq<char>, s: SeriesView)
    requires
        store_wf(v),
        series::series_wf(s),
        keyed::found(v.series, key) matches Some(was) && was.labels == s.labels,
    ensures
        store_wf(
            StoreView {
                series: keyed::put(v.series, key, s),
                names: v.names,
                retention: v.retention,
            },
        ),
{
    let out = StoreView {
        series: keyed::put(v.series, key, s),
        names: v.names,
        retention: v.retention,
    };
    lemma_found_wf(v, key);
    keyed::lemma_put_distinct(v.series, key, s);
    keyed::lemma_place(v.series, key);
    assert forall|i: int| 0 <= i < out.series.len() implies {
        &&& series::series_wf((#[trigger] out.series[i]).1)
        &&& textmap::ordered(out.series[i].1.labels)
        &&& out.series[i].0 == key_of(out.series[i].1.labels)
        &&& listed(out, out.series[i])
    } by {
        assert(listed(v, v.series[i]));
        assert(series::series_wf(v.series[i].1));
    }
}

/// A sample that comes in keeps a store in order.
pub proof fn law_append_keeps_order(v: StoreView, labels: Seq<Entry>, sample: Sample)
    requires
        store_wf(v),
        takes(v, labels, sample.t),
        textmap::ordered(labels),
    ensures
        store_wf(appended(v, labels, sample)),
{
    let key = key_of(labels);
    lemma_found_wf(v, key);
    match keyed::found(v.series, key) {
        Some(s) => {
            if !(series::last_time(s) matches Some(last) && sample.t <= last) {
                series::law_push_appends(s, sample, v.retention);
                lemma_replaced_wf(v, key, series::pushed(s, sample, v.retention));
            }
        },
        None => {
            series::law_push_appends(series::empty_series(labels), sample, v.retention);
            law_series_in_keeps_order(v, series::pushed(series::empty_series(labels), sample, v.retention));
        },
    }
}

/// A sample later than what its series holds is its last from then on, one
/// that is not later changes nothing, and no other series changes either
/// way.
pub proof fn law_append_adds_one_sample(
    v: StoreView,
    labels: Seq<Entry>,
    sample: Sample,
    other: Seq<char>,
)
    requires
        store_wf(v),
        takes(v, labels, sample.t),
    ensures
        match keyed::found(v.series, key_of(labels)) {
            None => keyed::found(appended(v, labels, sample).series, key_of(labels)) matches Some(s)
                && series::all_samples(s) == seq![sample] && s.labels == labels,
            Some(was) => keyed::found(appended(v, labels, sample).series, key_of(labels)) matches Some(
                s,
            ) && s.labels == was.labels && series::all_samples(s) == (if series::last_time(was) matches Some(last)
                && sample.t <= last {
                series::all_samples(was)
            } else {
                series::all_samples(was).push(sample)
            }),
        },
        other != key_of(labels) ==> keyed::found(appended(v, labels, sample).series, other)
            == keyed::found(v.series, other),
{
    let key = key_of(labels);
    lemma_found_wf(v, key);
    match keyed::found(v.series, key) {
        Some(s) => {
            if !(series::last_time(s) matches Some(last) && sample.t <= last) {
                series::law_push_appends(s, sample, v.retention);
                keyed::law_put_is_found(v.series, key, series::pushed(s, sample, v.retention), other);
            }
        },
        None => {
            let s = series::pushed(series::empty_series(labels), sample, v.retention);
            series::law_push_appends(series::empty_series(labels), sample, v.retention);
            keyed::law_put_is_found(v.series, key, s, other);
            assert(series::all_samples(series::empty_series(labels)).push(sample) =~= seq![sample]);
        },
    }
}

proof fn lemma_append_keeps_accepting(v: StoreView, labels: Seq<Entry>, sample: Sample)
    requires
        store_wf(v),
        accepting(v, sample.t),
    ensures
        takes(v, labels, sample.t),
        accepting(appended(v, labels, sample), sample.t),
{
    let key = key_of(labels);
    let out = appended(v, labels, sample);
    keyed::lemma_place(v.series, key);
    if keyed::holds(v.series, key) {
        assert(series::reaches(v.series[keyed::place(v.series, key) as int].1.head, sample.t));
    }
    assert forall|i: int| 0 <= i < out.series.len() implies series::reaches(
        (#[trigger] out.series[i]).1.head,
        sample.t,
    ) by {
        if i < v.series.len() {
            assert(series::reaches(v.series[i].1.head, sample.t));
        }
    }
}

/// A store that accepts a time goes on accepting it as samples of that time
/// come in.
pub proof fn law_append_keeps_accepting(v: StoreView, labels: Seq<Entry>, sample: Sample)
    requires
        store_wf(v),
        accepting(v, sample.t),
        textmap::ordered(labels),
    ensures
        takes(v, labels, sample.t),
        accepting(appended(v, labels, sample), sample.t),
        store_wf(appended(v, labels, sample)),
{
    lemma_append_keeps_accepting(v, labels, sample);
    law_append_keeps_order(v, labels, sample);
}

/// Taking one key off the lists leaves every other key on them.
proof fn lemma_delisted(
    names: Seq<(Seq<char>, Seq<Seq<char>>)>,
    name: Seq<char>,
    key: Seq<char>,
    under: Seq<char>,
    other: Seq<char>,
)
    requires
        keyed::distinct(names),
        other != key,
    ensures
        keyed::distinct(delisted(names, name, key)),
        keys_under(names, under).contains(other) ==> keys_under(
            delisted(names, name, key),
            under,
        ).contains(other),
{
    keyed::lemma_place(names, name);
    if let Some(keys) = keyed::found(names, name) {
        let keep = |k: Seq<char>| k != key;
        let left = without_key(keys, key);
        keyed::lemma_put_distinct(names, name, left);
        keyed::law_remove_keeps_others(names, keyed::place(names, name) as int, under);
        keyed::law_put_is_found(names, name, left, under);
        if under == name && keys.contains(other) {
            let at = choose|at: int| 0 <= at < keys.len() && keys[at] == other;
            keys.lemma_filter_contains(keep, at);
            assert(left.contains(other));
        }
    }
}

proof fn lemma_names_of_rest(
    names: Seq<(Seq<char>, Seq<Seq<char>>)>,
    series: Seq<(Seq<char>, SeriesView)>,
    under: Seq<char>,
    other: Seq<char>,
)
    requires
        keyed::distinct(names),
        forall|i: int|
            0 <= i < series.len() && series::series_empty((#[trigger] series[i]).1) ==> series[i].0 != other,
    ensures
        keyed::distinct(names_of_rest(names, series)),
        keys_under(names, under).contains(other) ==> keys_under(
            names_of_rest(names, series),
            under,
        ).contains(other),
    decreases series.len(),
{
    if series.len() > 0 {
        lemma_names_of_rest(names, series.drop_last(), under, other);
        let last = series.last();
        assert(last == series[series.len() - 1]);
        if series::series_empty(last.1) {
            lemma_delisted(
                names_of_rest(names, series.drop_last()),
                name_of(last.1.labels),
                last.0,
                under,
                other,
            );
        }
    }
}

proof fn lemma_names_stay_distinct(
    names: Seq<(Seq<char>, Seq<Seq<char>>)>,
    series: Seq<(Seq<char>, SeriesView)>,
)
    requires
        keyed::distinct(names),
    ensures
        keyed::distinct(names_of_rest(names, series)),
    decreases series.len(),
{
    if series.len() > 0 {
        lemma_names_stay_distinct(names, series.drop_last());
        let last = series.last();
        let before = names_of_rest(names, series.drop_last());
        keyed::lemma_place(before, name_of(last.1.labels));
        if let Some(keys) = keyed::found(before, name_of(last.1.labels)) {
            let left = without_key(keys, last.0);
            keyed::lemma_put_distinct(before, name_of(last.1.labels), left);
            keyed::law_remove_keeps_others(
                before,
                keyed::place(before, name_of(last.1.labels)) as int,
                last.0,
            );
        }
    }
}

/// Picking entries out keeps each where it came from.
proof fn lemma_nonempty(series: Seq<(Seq<char>, SeriesView)>)
    requires
        keyed::distinct(series),
    ensures
        keyed::distinct(nonempty(series)),
        forall|i: int|
            0 <= i < nonempty(series).len() ==> !series::series_empty((#[trigger] nonempty(series)[i]).1)
                && series.contains(nonempty(series)[i]),
        forall|i: int|
            0 <= i < series.len() && !series::series_empty((#[trigger] series[i]).1) ==> nonempty(
                series,
            ).contains(series[i]),
    decreases series.len(),
{
    reveal(Seq::filter);
    let out = nonempty(series);
    if series.len() > 0 {
        let init = series.drop_last();
        let rest = nonempty(init);
        lemma_nonempty(init);
        assert forall|i: int| 0 <= i < rest.len() implies series.contains(#[trigger] rest[i]) by {
            let j = choose|j: int| 0 <= j < init.len() && init[j] == rest[i];
            assert(series[j] == rest[i]);
        }
        assert(series[series.len() - 1] == series.last());
        assert forall|i: int, j: int| 0 <= i < j < out.len() implies (#[trigger] out[i]).0 != (
        #[trigger] out[j]).0 by {
            if j < rest.len() {
                assert(rest[i].0 != rest[j].0);
            } else {
                assert(init.contains(rest[i]));
                let x = choose|x: int| 0 <= x < init.len() && init[x] == rest[i];
                assert(series[x].0 != series[series.len() - 1].0);
            }
        }
        assert forall|i: int| 0 <= i < out.len() implies !series::series_empty((#[trigger] out[i]).1)
            && series.contains(out[i]) by {
            if i < rest.len() {
                assert(out[i] == rest[i]);
            }
        }
        assert forall|i: int| 0 <= i < series.len() && !series::series_empty((#[trigger] series[i]).1) implies
            out.contains(series[i]) by {
            if i < init.len() {
                assert(init[i] == series[i]);
                assert(rest.contains(init[i]));
                let x = choose|x: int| 0 <= x < rest.len() && rest[x] == init[i];
                assert(out[x] == series[i]);
            } else {
                assert(out[out.len() - 1] == series[i]);
            }
        }
    }
}

/// Pruning keeps a store in order.
pub proof fn law_prune_keeps_order(v: StoreView, now: i64)
    requires
        store_wf(v),
    ensures
        store_wf(store_pruned(v, now)),
{
    let cutoff = now - v.retention;
    let aged = all_pruned(v.series, cutoff);
    let out = store_pruned(v, now);
    assert forall|i: int, j: int| 0 <= i < j < aged.len() implies (#[trigger] aged[i]).0 != (
    #[trigger] aged[j]).0 by {
        assert(v.series[i].0 != v.series[j].0);
    }
    lemma_nonempty(aged);
    lemma_names_stay_distinct(v.names, aged);
    assert forall|i: int| 0 <= i < out.series.len() implies {
        &&& series::series_wf((#[trigger] out.series[i]).1)
        &&& textmap::ordered(out.series[i].1.labels)
        &&& out.series[i].0 == key_of(out.series[i].1.labels)
        &&& listed(out, out.series[i])
    } by {
        let e = out.series[i];
        assert(aged.contains(e));
        let at = choose|at: int| 0 <= at < aged.len() && aged[at] == e;
        assert(series::series_wf(v.series[at].1));
        assert(listed(v, v.series[at]));
        series::law_prune_drops_old_samples(v.series[at].1, cutoff);
        assert forall|j: int|
            0 <= j < aged.len() && series::series_empty((#[trigger] aged[j]).1) implies aged[j].0 != e.0 by {
            if aged[j].0 == e.0 {
                if j < at {
                    assert(aged[j].0 != aged[at].0);
                } else if at < j {
                    assert(aged[at].0 != aged[j].0);
                }
            }
        }
        lemma_names_of_rest(v.names, aged, name_of(e.1.labels), e.0);
    }
}

/// What pruning leaves of each series: what is left of it by itself, and
/// nothing at all where that is empty.
pub proof fn law_prune_is_series_by_series(v: StoreView, now: i64, key: Seq<char>)
    requires
        store_wf(v),
    ensures
        keyed::found(store_pruned(v, now).series, key) == (match keyed::found(v.series, key) {
            Some(s) => if series::series_empty(series::pruned(s, now - v.retention)) {
                None
            } else {
                Some(series::pruned(s, now - v.retention))
            },
            None => None,
        }),
{
    let cutoff = now - v.retention;
    let aged = all_pruned(v.series, cutoff);
    let out = nonempty(aged);
    assert forall|i: int, j: int| 0 <= i < j < aged.len() implies (#[trigger] aged[i]).0 != (
    #[trigger] aged[j]).0 by {
        assert(v.series[i].0 != v.series[j].0);
    }
    lemma_nonempty(aged);
    keyed::lemma_place(out, key);
    keyed::lemma_place(v.series, key);
    if keyed::holds(out, key) {
        let e = out[keyed::place(out, key) as int];
        assert(aged.contains(e));
        let at = choose|at: int| 0 <= at < aged.len() && aged[at] == e;
        keyed::lemma_place_is(v.series, key, at);
    } else if keyed::holds(v.series, key) {
        let at = keyed::place(v.series, key) as int;
        if !series::series_empty(aged[at].1) {
            assert(out.contains(aged[at]));
            let x = choose|x: int| 0 <= x < out.len() && out[x] == aged[at];
            keyed::lemma_place_is(out, key, x);
        }
    }
}

/// A name finds every series that has it.
pub proof fn law_name_finds_its_series(v: StoreView, i: int)
    requires
        store_wf(v),
        0 <= i < v.series.len(),
    ensures
        candidates_of(v, Some(name_of(v.series[i].1.labels))).contains(v.series[i].1),
        candidates_of(v, None).contains(v.series[i].1),
{
    let e = v.series[i];
    let keys = keys_under(v.names, name_of(e.1.labels));
    assert(listed(v, v.series[i]));
    keyed::lemma_place_is(v.series, e.0, i);
    let at = choose|at: int| 0 <= at < keys.len() && keys[at] == e.0;
    lemma_series_under(v.series, keys, at);
    let all = candidates_of(v, None);
    assert(all[i] == e.1);
}

proof fn lemma_series_under(series: Seq<(Seq<char>, SeriesView)>, keys: Seq<Seq<char>>, at: int)
    requires
        0 <= at < keys.len(),
        keyed::holds(series, keys[at]),
    ensures
        series_under(series, keys).contains(keyed::found(series, keys[at])->0),
    decreases keys.len(),
{
    let out = series_under(series, keys);
    let before = series_under(series, keys.drop_last());
    if at == keys.len() - 1 {
        assert(out[out.len() - 1] == keyed::found(series, keys[at])->0);
    } else {
        lemma_series_under(series, keys.drop_last(), at);
        let x = choose|x: int|
            0 <= x < before.len() && before[x] == keyed::found(series, keys[at])->0;
        assert(out[x] == before[x]);
    }
}

/// What stands under keys stands in the store.
pub(crate) proof fn lemma_under_stood(
    series: Seq<(Seq<char>, SeriesView)>,
    keys: Seq<Seq<char>>,
    s: SeriesView,
)
    requires
        series_under(series, keys).contains(s),
    ensures
        exists|i: int| 0 <= i < series.len() && (#[trigger] series[i]).1 == s,
    decreases keys.len(),
{
    if keys.len() > 0 {
        let out = series_under(series, keys);
        let before = series_under(series, keys.drop_last());
        let x = choose|x: int| 0 <= x < out.len() && out[x] == s;
        if x < before.len() {
            assert(before[x] == s);
            lemma_under_stood(series, keys.drop_last(), s);
        } else {
            keyed::lemma_place(series, keys.last());
        }
    }
}

/// Series by key, each as what it holds.
pub open spec fn series_views(series: Seq<(Seq<char>, Series)>) -> Seq<(Seq<char>, SeriesView)> {
    series.map_values(|e: (Seq<char>, Series)| (e.0, e.1@))
}

/// Keys as text.
pub open spec fn key_views(keys: Seq<String>) -> Seq<Seq<char>> {
    keys.map_values(|k: String| k@)
}

/// The keys of each name, as text.
pub open spec fn name_views(names: Seq<(Seq<char>, Vec<String>)>) -> Seq<
    (Seq<char>, Seq<Seq<char>>),
> {
    names.map_values(|e: (Seq<char>, Vec<String>)| (e.0, key_views(e.1@)))
}

/// References to series, each as what it holds.
pub open spec fn ref_views(series: Seq<&Series>) -> Seq<SeriesView> {
    series.map_values(|s: &Series| s@)
}

pub struct Store {
    series: Keyed<Series>,
    /// The keys of each name, so a named selector never scans the whole
    /// store.
    by_name: Keyed<Vec<String>>,
    retention: i64,
}

impl View for Store {
    type V = StoreView;

    closed spec fn view(&self) -> StoreView {
        StoreView {
            series: series_views(self.series@),
            names: name_views(self.by_name@),
            retention: self.retention,
        }
    }
}

/// How many samples some series hold.
pub open spec fn sample_total(series: Seq<(Seq<char>, SeriesView)>) -> nat
    decreases series.len(),
{
    if series.len() == 0 {
        0
    } else {
        sample_total(series.drop_last()) + series::series_len(series.last().1)
    }
}

/// How many bytes the samples of some series take up, with so much room for
/// each.
pub open spec fn size_total(series: Seq<(Seq<char>, SeriesView)>, slots: Seq<(usize, usize)>) -> nat
    decreases series.len(),
{
    if series.len() == 0 {
        0
    } else {
        size_total(series.drop_last(), slots.drop_last()) + series::series_size(
            series.last().1,
            slots.last(),
        )
    }
}

/// Whether there is room for what each of some series holds.
pub open spec fn all_roomy(series: Seq<(Seq<char>, SeriesView)>, slots: Seq<(usize, usize)>) -> bool {
    &&& slots.len() == series.len()
    &&& forall|i: int| 0 <= i < series.len() ==> series::roomy(series[i].1, #[trigger] slots[i])
}

impl Store {
    /// Whether the store is in order.
    pub closed spec fn wf(&self) -> bool {
        &&& self.series.wf()
        &&& self.by_name.wf()
        &&& store_wf(self@)
    }

    pub proof fn lemma_wf(&self)
        requires
            self.wf(),
        ensures
            store_wf(self@),
    {
    }

    pub fn new(retention: i64) -> (store: Store)
        ensures
            store.wf(),
            store@ == (StoreView { series: seq![], names: seq![], retention }),
    {
        let store = Store { series: Keyed::new(), by_name: Keyed::new(), retention };
        proof {
            assert(store@ =~= StoreView { series: seq![], names: seq![], retention });
        }
        store
    }

    proof fn lemma_places(&self, k: Seq<char>)
        ensures
            keyed::place(self.series@, k) == keyed::place(self@.series, k),
            keyed::place(self.by_name@, k) == keyed::place(self@.names, k),
    {
        keyed::lemma_place_by_keys(self.series@, self@.series, k);
        keyed::lemma_place_by_keys(self.by_name@, self@.names, k);
        keyed::lemma_place(self.series@, k);
        keyed::lemma_place(self.by_name@, k);
    }

    /// Whether a sample at `t` is within reach of every series.
    pub fn accepts(&self, t: i64) -> (r: bool)
        ensures
            r == accepting(self@, t),
    {
        let mut i: usize = 0;
        while i < self.series.len()
            invariant
                i <= self.series@.len(),
                forall|j: int| 0 <= j < i ==> series::reaches((#[trigger] self@.series[j]).1.head, t),
            decreases self.series@.len() - i,
        {
            let head = self.series.at(i).head();
            assert(self@.series[i as int].1.head == head@);
            if head.len() > 0 && t as i128 - head[0].t as i128 > i64::MAX as i128 {
                assert(!series::reaches(self@.series[i as int].1.head, t));
                return false;
            }
            i += 1;
        }
        true
    }

    /// Takes a sample in. One that is not later than what its series holds
    /// is ignored.
    pub fn append(&mut self, labels: Labels, t: i64, v: u64)
        requires
            old(self).wf(),
            takes(old(self)@, labels@, t),
        ensures
            final(self).wf(),
            final(self)@ == appended(old(self)@, labels@, Sample { t, v }),
            accepting(old(self)@, t) ==> accepting(final(self)@, t),
    {
        let key = canonical_key(&labels);
        let _ = labels.entries();
        let retention = self.retention;
        let ghost was = self@;
        let ghost sample = Sample { t, v };
        proof {
            self.lemma_places(key@);
            law_append_keeps_order(was, labels@, sample);
            lemma_found_wf(was, key@);
            if accepting(was, t) {
                lemma_append_keeps_accepting(was, labels@, sample);
            }
        }
        match self.series.find(key.as_str()) {
            Some(i) => {
                let ghost raw = self.series@;
                let series = self.series.at_mut(i);
                let behind = match series.last_t() {
                    Some(last) => t <= last,
                    None => false,
                };
                if !behind {
                    series.push(t, v, retention);
                }
                proof {
                    keyed::lemma_place(was.series, key@);
                    assert(self@ =~= appended(was, labels@, sample));
                }
            },
            None => {
                let mut series = Series::new(labels);
                series.push(t, v, retention);
                self.index(key, series);
            },
        }
    }

    /// Puts a series in under its key, listed under its name.
    fn index(&mut self, key: String, series: Series)
        requires
            old(self).wf(),
            series.wf(),
            key@ == key_of(series@.labels),
        ensures
            final(self).wf(),
            final(self)@ == with_series(old(self)@, series@),
    {
        let ghost was = self@;
        let ghost view = series@;
        let _ = series.labels().entries();
        let name = match series.labels().get(NAME_LABEL) {
            Some(name) => name.clone(),
            None => String::new(),
        };
        proof {
            assert(name@ =~= name_of(view.labels));
            law_series_in_keeps_order(was, view);
            self.lemma_places(name@);
            self.lemma_places(key@);
            keyed::lemma_place(was.names, name@);
            keyed::lemma_place(was.series, key@);
        }
        let ghost under = name@;
        let ghost held = key@;
        match self.by_name.find(name.as_str()) {
            Some(i) => {
                let keys = self.by_name.at_mut(i);
                let ghost before = keys@;
                keys.push(key.clone());
                proof {
                    assert(key_views(keys@) =~= key_views(before).push(held));
                }
            },
            None => {
                let mut keys: Vec<String> = Vec::new();
                keys.push(key.clone());
                proof {
                    assert(key_views(keys@) =~= Seq::<Seq<char>>::empty().push(held));
                }
                self.by_name.put(name, keys);
            },
        }
        self.series.put(key, series);
        proof {
            let out = with_series(was, view);
            assert(self@.series =~= out.series);
            assert(self@.names =~= out.names);
        }
    }

    /// Candidate series for a selector. A name narrows to one bucket;
    /// anything else has to consider all of them.
    pub fn candidates(&self, name: Option<&str>) -> (out: Vec<&Series>)
        requires
            self.wf(),
        ensures
            ref_views(out@) == candidates_of(
                self@,
                match name {
                    Some(name) => Some(name@),
                    None => None,
                },
            ),
            forall|i: int| 0 <= i < out@.len() ==> (#[trigger] out@[i]).wf(),
    {
        match name {
            Some(name) => {
                proof {
                    self.lemma_places(name@);
                }
                match self.by_name.get(name) {
                    Some(keys) => {
                        proof {
                            assert(key_views(keys@) == keys_under(self@.names, name@));
                        }
                        self.under(keys)
                    },
                    None => {
                        let out: Vec<&Series> = Vec::new();
                        proof {
                            assert(ref_views(out@) =~= seq![]);
                        }
                        out
                    },
                }
            },
            None => self.series_iter(),
        }
    }

    /// The series under some keys.
    fn under(&self, keys: &Vec<String>) -> (out: Vec<&Series>)
        requires
            self.wf(),
        ensures
            ref_views(out@) == series_under(self@.series, key_views(keys@)),
            forall|i: int| 0 <= i < out@.len() ==> (#[trigger] out@[i]).wf(),
    {
        let mut out: Vec<&Series> = Vec::new();
        let ghost all = key_views(keys@);
        let mut i: usize = 0;
        proof {
            assert(ref_views(out@) =~= series_under(self@.series, all.take(0)));
        }
        while i < keys.len()
            invariant
                self.wf(),
                i <= keys@.len(),
                all == key_views(keys@),
                ref_views(out@) == series_under(self@.series, all.take(i as int)),
                forall|j: int| 0 <= j < out@.len() ==> (#[trigger] out@[j]).wf(),
            decreases keys@.len() - i,
        {
            let ghost before = out@;
            proof {
                let key = keys@[i as int]@;
                assert(all.take(i + 1).drop_last() =~= all.take(i as int));
                assert(all.take(i + 1).last() == key);
                self.lemma_places(key);
                lemma_found_wf(self@, key);
            }
            match self.series.get(keys[i].as_str()) {
                Some(series) => {
                    out.push(series);
                    proof {
                        assert(ref_views(out@) =~= ref_views(before).push(series@));
                    }
                },
                None => {},
            }
            i += 1;
        }
        proof {
            assert(all.take(i as int) =~= all);
        }
        out
    }

    /// Every series.
    pub fn series_iter(&self) -> (out: Vec<&Series>)
        requires
            self.wf(),
        ensures
            ref_views(out@) == candidates_of(self@, None),
            forall|i: int| 0 <= i < out@.len() ==> (#[trigger] out@[i]).wf(),
    {
        let mut out: Vec<&Series> = Vec::with_capacity(self.series.len());
        let mut i: usize = 0;
        while i < self.series.len()
            invariant
                self.wf(),
                i <= self.series@.len(),
                ref_views(out@) == candidates_of(self@, None).take(i as int),
                forall|j: int| 0 <= j < out@.len() ==> (#[trigger] out@[j]).wf(),
            decreases self.series@.len() - i,
        {
            let series = self.series.at(i);
            let ghost before = out@;
            out.push(series);
            proof {
                assert(series::series_wf(self@.series[i as int].1));
                assert(ref_views(out@) =~= ref_views(before).push(series@));
                assert(candidates_of(self@, None).take(i + 1) =~= candidates_of(self@, None).take(
                    i as int,
                ).push(series@));
            }
            i += 1;
        }
        proof {
            assert(candidates_of(self@, None).take(i as int) =~= candidates_of(self@, None));
        }
        out
    }

    pub fn series_count(&self) -> (n: usize)
        ensures
            n == self@.series.len(),
    {
        self.series.len()
    }

    /// How many samples there are, as far as a `usize` reaches.
    pub fn sample_count(&self) -> (n: usize)
        ensures
            n == series::capped(sample_total(self@.series) as int),
    {
        let mut n: usize = 0;
        let mut i: usize = 0;
        while i < self.series.len()
            invariant
                i <= self.series@.len(),
                n == series::capped(sample_total(self@.series.take(i as int)) as int),
            decreases self.series@.len() - i,
        {
            proof {
                assert(self@.series.take(i + 1).drop_last() =~= self@.series.take(i as int));
            }
            n = series::capped_sum(n, self.series.at(i).len());
            i += 1;
        }
        proof {
            assert(self@.series.take(i as int) =~= self@.series);
        }
        n
    }

    /// Bytes held on the heap by samples across every series, as far as a
    /// `usize` reaches.
    pub fn heap_size(&self) -> (n: usize)
        ensures
            exists|slots: Seq<(usize, usize)>| #[trigger]
                all_roomy(self@.series, slots) && n == series::capped(
                    size_total(self@.series, slots) as int,
                ),
    {
        let mut n: usize = 0;
        let mut i: usize = 0;
        let ghost mut slots: Seq<(usize, usize)> = seq![];
        while i < self.series.len()
            invariant
                i <= self.series@.len(),
                all_roomy(self@.series.take(i as int), slots),
                n == series::capped(size_total(self@.series.take(i as int), slots) as int),
            decreases self.series@.len() - i,
        {
            let more = self.series.at(i).heap_size();
            proof {
                let s = self@.series[i as int].1;
                let slot = choose|slot: (usize, usize)| #[trigger]
                    series::roomy(s, slot) && more == series::capped(
                        series::series_size(s, slot) as int,
                    );
                assert(self@.series.take(i + 1).drop_last() =~= self@.series.take(i as int));
                assert(slots.push(slot).drop_last() =~= slots);
                slots = slots.push(slot);
            }
            n = series::capped_sum(n, more);
            i += 1;
        }
        proof {
            assert(self@.series.take(i as int) =~= self@.series);
        }
        n
    }
}

impl Store {
    /// Bulk-inserts a whole series from raw samples, packing everything but
    /// the tail straight into chunks.
    pub fn insert_series(&mut self, labels: Labels, samples: Vec<Sample>)
        requires
            old(self).wf(),
            chunk::ascending(samples@),
            series::packable(samples@),
        ensures
            final(self).wf(),
            final(self)@ == (if samples@.len() == 0 {
                old(self)@
            } else {
                with_series(old(self)@, series::packed(labels@, samples@))
            }),
    {
        if samples.len() == 0 {
            return;
        }
        let series = series::pack(labels, samples.as_slice());
        let key = canonical_key(series.labels());
        self.index(key, series);
    }

    /// Bulk-inserts a series whose chunks are already compressed. Nothing
    /// is re-encoded.
    pub fn insert_chunked(&mut self, labels: Labels, chunks: Vec<Chunk>, head: Vec<Sample>)
        requires
            old(self).wf(),
            series::series_wf(
                SeriesView { labels: labels@, chunks: series::chunk_views(chunks@), head: head@ },
            ),
        ensures
            final(self).wf(),
            final(self)@ == (if chunks@.len() == 0 && head@.len() == 0 {
                old(self)@
            } else {
                with_series(
                    old(self)@,
                    SeriesView { labels: labels@, chunks: series::chunk_views(chunks@), head: head@ },
                )
            }),
    {
        if chunks.len() == 0 && head.len() == 0 {
            return;
        }
        let key = canonical_key(&labels);
        let series = Series::from_parts(labels, chunks, head);
        self.index(key, series);
    }

    /// Drops aged-out samples, then any series left empty.
    pub fn prune(&mut self, now: i64)
        requires
            old(self).wf(),
        ensures
            final(self).wf(),
            final(self)@ == store_pruned(old(self)@, now),
    {
        let ghost was = self@;
        let cutoff: i128 = now as i128 - self.retention as i128;
        let ghost aged = all_pruned(was.series, cutoff as int);
        proof {
            law_prune_keeps_order(was, now);
        }
        let emptied = self.prune_series(cutoff);
        if !emptied {
            proof {
                series::lemma_all_kept(
                    aged,
                    |e: (Seq<char>, SeriesView)| !series::series_empty(e.1),
                );
                lemma_no_names_lost(was.names, aged);
                assert(self@ =~= store_pruned(was, now));
            }
            return;
        }
        let mut held: Keyed<Series> = Keyed::new();
        std::mem::swap(&mut held, &mut self.series);
        let entries = held.into_entries();
        let ghost raw = keyed::keyed_of(entries@);
        let mut kept: Vec<(String, Series)> = Vec::with_capacity(entries.len());
        proof {
            assert(series_views(raw) =~= aged);
            assert(series_views(keyed::keyed_of(kept@)) =~= nonempty(aged.take(0))) by {
                reveal(Seq::filter);
            }
        }
        for entry in it: entries.into_iter()
            invariant
                it.seq() == entries@,
                raw == keyed::keyed_of(entries@),
                aged == series_views(raw),
                self.by_name.wf(),
                self.retention == was.retention,
                name_views(self.by_name@) == names_of_rest(was.names, aged.take(it.index())),
                series_views(keyed::keyed_of(kept@)) == nonempty(aged.take(it.index())),
        {
            let (key, series) = entry;
            let ghost i = it.index();
            proof {
                reveal(Seq::filter);
                assert(aged[i] == (key@, series@));
                assert(aged.take(i + 1).drop_last() =~= aged.take(i));
                assert(aged.take(i + 1).last() == aged[i]);
            }
            let ghost before = kept@;
            if series.is_empty() {
                self.delist(series.labels(), key.as_str());
            } else {
                kept.push((key, series));
                proof {
                    assert(series_views(keyed::keyed_of(kept@)) =~= series_views(
                        keyed::keyed_of(before),
                    ).push(aged[i]));
                }
            }
        }
        proof {
            assert(aged.take(entries@.len() as int) =~= aged);
            let names = series_views(keyed::keyed_of(kept@));
            let kept_raw = keyed::keyed_of(kept@);
            assert forall|i: int, j: int| 0 <= i < j < kept_raw.len() implies (
            #[trigger] kept_raw[i]).0 != (#[trigger] kept_raw[j]).0 by {
                assert(names[i].0 != names[j].0);
            }
        }
        self.series = Keyed::from_entries(kept);
    }

    /// Prunes every series, and says whether that left any of them empty.
    fn prune_series(&mut self, cutoff: i128) -> (emptied: bool)
        requires
            old(self).wf(),
        ensures
            final(self).series.wf(),
            final(self).by_name == old(self).by_name,
            final(self).retention == old(self).retention,
            final(self)@.series == all_pruned(old(self)@.series, cutoff as int),
            emptied == exists|i: int|
                0 <= i < final(self)@.series.len() && series::series_empty(
                    (#[trigger] final(self)@.series[i]).1,
                ),
    {
        let ghost was = self@.series;
        let ghost aged = all_pruned(was, cutoff as int);
        let mut emptied = false;
        let mut i: usize = 0;
        while i < self.series.len()
            invariant
                store_wf(old(self)@),
                was == old(self)@.series,
                aged == all_pruned(was, cutoff as int),
                self.series.wf(),
                self.by_name == old(self).by_name,
                self.retention == old(self).retention,
                i <= was.len() == self@.series.len() == self.series@.len(),
                forall|j: int| 0 <= j < i ==> #[trigger] self@.series[j] == aged[j],
                forall|j: int| i <= j < was.len() ==> #[trigger] self@.series[j] == was[j],
                emptied == exists|j: int| 0 <= j < i && series::series_empty((#[trigger] aged[j]).1),
            decreases was.len() - i,
        {
            let ghost raw = self.series@;
            let ghost views = self@.series;
            proof {
                assert(series::series_wf(was[i as int].1));
                assert(views[i as int] == was[i as int]);
            }
            let series = self.series.at_mut(i);
            series.prune(cutoff);
            let empty = series.is_empty();
            proof {
                assert(self@.series =~= views.update(i as int, aged[i as int]));
                if empty {
                    assert(series::series_empty(aged[i as int].1));
                }
            }
            if empty {
                emptied = true;
            }
            i += 1;
        }
        proof {
            assert(self@.series =~= aged);
        }
        emptied
    }

    /// Takes a series' key off the list of its name.
    fn delist(&mut self, labels: &Labels, key: &str)
        requires
            old(self).by_name.wf(),
        ensures
            final(self).by_name.wf(),
            final(self).series == old(self).series,
            final(self).retention == old(self).retention,
            name_views(final(self).by_name@) == delisted(
                name_views(old(self).by_name@),
                name_of(labels@),
                key@,
            ),
    {
        let ghost names = name_views(self.by_name@);
        let empty = String::new();
        let name = match labels.get(NAME_LABEL) {
            Some(name) => name.as_str(),
            None => empty.as_str(),
        };
        proof {
            assert(name@ =~= name_of(labels@));
            keyed::lemma_place_by_keys(self.by_name@, names, name@);
            keyed::lemma_place(names, name@);
        }
        match self.by_name.find(name) {
            None => {},
            Some(i) => {
                let left = keys_without(self.by_name.at(i), key);
                if left.len() == 0 {
                    self.by_name.remove(i);
                    proof {
                        assert(name_views(self.by_name@) =~= names.remove(i as int));
                    }
                } else {
                    let ghost kept = left@;
                    let keys = self.by_name.at_mut(i);
                    *keys = left;
                    proof {
                        assert(name_views(self.by_name@) =~= keyed::put(
                            names,
                            name@,
                            key_views(kept),
                        ));
                    }
                }
            },
        }
    }
}

/// Keys without one of them.
fn keys_without(keys: &Vec<String>, key: &str) -> (left: Vec<String>)
    ensures
        key_views(left@) == without_key(key_views(keys@), key@),
{
    let ghost all = key_views(keys@);
    let mut left: Vec<String> = Vec::new();
    let mut i: usize = 0;
    proof {
        reveal(Seq::filter);
        assert(key_views(left@) =~= without_key(all.take(0), key@));
    }
    while i < keys.len()
        invariant
            i <= keys@.len(),
            all == key_views(keys@),
            key_views(left@) == without_key(all.take(i as int), key@),
        decreases keys@.len() - i,
    {
        let ghost before = left@;
        proof {
            reveal(Seq::filter);
            assert(all.take(i + 1).drop_last() =~= all.take(i as int));
        }
        if !text::same(keys[i].as_str(), key) {
            left.push(keys[i].clone());
            proof {
                assert(key_views(left@) =~= key_views(before).push(keys@[i as int]@));
            }
        }
        i += 1;
    }
    proof {
        assert(all.take(i as int) =~= all);
    }
    left
}

proof fn lemma_no_names_lost(
    names: Seq<(Seq<char>, Seq<Seq<char>>)>,
    series: Seq<(Seq<char>, SeriesView)>,
)
    requires
        forall|i: int| 0 <= i < series.len() ==> !series::series_empty((#[trigger] series[i]).1),
    ensures
        names_of_rest(names, series) == names,
    decreases series.len(),
{
    if series.len() > 0 {
        assert(!series::series_empty(series[series.len() - 1].1));
        lemma_no_names_lost(names, series.drop_last());
    }
}


} // verus!
