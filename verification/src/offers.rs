//! What discovery offers: which series a request asks about, which labels
//! and values it is shown, and what its parameters come to.

use crate::api;
use crate::decimal;
use crate::discovery;
use crate::discovery::{ArgsFault, ArgsView};
use crate::double;
use crate::figures;
use crate::listing;
use crate::promql::eval;
use crate::promql::meaning;
use crate::promql::parser;
use crate::promql::{ExprView, SelectorView};
use crate::series;
use crate::store;
use crate::store::{SeriesView, StoreView};
use crate::text;
use crate::textmap;
use crate::textmap::Entry;
use vstd::prelude::*;

verus! {

/// Whether a series has a sample that is not before `start` nor after
/// `end`, as far as they are given.
pub open spec fn sampled(s: SeriesView, start: Option<i64>, end: Option<i64>) -> bool {
    exists|i: int|
        0 <= i < series::all_samples(s).len() && (match start {
            Some(from) => from <= (#[trigger] series::all_samples(s)[i]).t,
            None => true,
        }) && (match end {
            Some(to) => series::all_samples(s)[i].t <= to,
            None => true,
        })
}

/// Whether one of some selectors picks a series with these labels.
pub open spec fn some_picks(selectors: Seq<SelectorView>, labels: Seq<Entry>) -> bool {
    exists|j: int| 0 <= j < selectors.len() && meaning::picks(#[trigger] selectors[j], labels)
}

proof fn lemma_sampled(s: SeriesView, start: Option<i64>, end: Option<i64>)
    ensures
        sampled(s, start, end) <==> discovery::in_window(s, start, end),
{
    let all = series::all_samples(s);
    if sampled(s, start, end) {
        let i = choose|i: int|
            0 <= i < series::all_samples(s).len() && (match start {
                Some(from) => from <= (#[trigger] series::all_samples(s)[i]).t,
                None => true,
            }) && (match end {
                Some(to) => series::all_samples(s)[i].t <= to,
                None => true,
            });
        assert(discovery::time_in_window(all[i].t, start, end));
    }
    if discovery::in_window(s, start, end) {
        let i = choose|i: int|
            0 <= i < series::all_samples(s).len() && discovery::time_in_window(
                (#[trigger] series::all_samples(s)[i]).t,
                start,
                end,
            );
        assert(0 <= i < all.len());
        assert(match start {
            Some(from) => from <= all[i].t,
            None => true,
        });
    }
}

proof fn lemma_some_picks(v: StoreView, selectors: Seq<SelectorView>, i: int)
    requires
        store::store_wf(v),
        listing::indexed(v),
        0 <= i < v.series.len(),
    ensures
        discovery::any_selects(v, selectors, v.series[i].1) <==> some_picks(
            selectors,
            v.series[i].1.labels,
        ),
{
    let s = v.series[i].1;
    if discovery::any_selects(v, selectors, s) {
        let j = choose|j: int|
            0 <= j < selectors.len() && #[trigger] eval::selected(v, selectors[j]).contains(s);
        let at = meaning::law_selector_takes_what_it_picks(v, selectors[j]);
        let out = eval::selected(v, selectors[j]);
        let k = choose|k: int| 0 <= k < out.len() && out[k] == s;
        assert(out[k] == v.series[at[k]].1);
        assert(meaning::picks(selectors[j], s.labels));
    }
    if some_picks(selectors, s.labels) {
        let j = choose|j: int|
            0 <= j < selectors.len() && meaning::picks(#[trigger] selectors[j], s.labels);
        let at = meaning::law_selector_takes_what_it_picks(v, selectors[j]);
        let out = eval::selected(v, selectors[j]);
        assert(at.contains(i));
        let k = choose|k: int| 0 <= k < at.len() && at[k] == i;
        assert(out[k] == v.series[at[k]].1);
        assert(eval::selected(v, selectors[j]).contains(s));
    }
}

/// A request asks about the series of the store that have a sample from its
/// start to its end and that one of its selectors picks, or about every
/// such series where it has no selector.
pub proof fn law_request_asks_about(v: StoreView, args: ArgsView, i: int)
    requires
        store::store_wf(v),
        listing::indexed(v),
        0 <= i < v.series.len(),
    ensures
        discovery::asked(v, args).contains(v.series[i].1) <==> sampled(
            v.series[i].1,
            args.start,
            args.end,
        ) && (args.selectors.len() == 0 || some_picks(args.selectors, v.series[i].1.labels)),
{
    let s = v.series[i].1;
    discovery::law_asked_series_are_sampled_and_selected(v, args, s);
    lemma_sampled(s, args.start, args.end);
    lemma_some_picks(v, args.selectors, i);
    store::law_name_finds_its_series(v, i);
}

/// A request asks about no series but those of the store.
pub proof fn law_request_stays_in_the_store(v: StoreView, args: ArgsView, k: int) -> (i: int)
    requires
        store::store_wf(v),
        0 <= k < discovery::asked(v, args).len(),
    ensures
        0 <= i < v.series.len(),
        discovery::asked(v, args)[k] == v.series[i].1,
{
    let s = discovery::asked(v, args)[k];
    assert(discovery::asked(v, args).contains(s));
    discovery::law_asked_series_are_sampled_and_selected(v, args, s);
    let all = store::candidates_of(v, None);
    let i = choose|i: int| 0 <= i < all.len() && all[i] == s;
    i
}

/// Whether texts stand in order, none twice.
pub open spec fn ascending(list: Seq<Seq<char>>) -> bool {
    forall|i: int, j: int|
        0 <= i < j < list.len() ==> text::before(#[trigger] list[i], #[trigger] list[j])
}

/// A list of labels has those that some series asked about carries, in
/// order, and no other.
pub proof fn law_label_lists_are_complete(list: Seq<Seq<char>>, all: Seq<SeriesView>, name: Seq<char>)
    requires
        discovery::lists_labels(list, all),
    ensures
        ascending(list),
        list.contains(name) <==> exists|i: int|
            0 <= i < all.len() && textmap::lookup((#[trigger] all[i]).labels, name) is Some,
{
    assert(discovery::in_order(list));
    assert(list.contains(name) <==> discovery::has_label(all, name));
}

/// A list of values has those that some series asked about carries under
/// the label, in order, and no other.
pub proof fn law_value_lists_are_complete(
    list: Seq<Seq<char>>,
    all: Seq<SeriesView>,
    name: Seq<char>,
    value: Seq<char>,
)
    requires
        discovery::lists_values(list, all, name),
    ensures
        ascending(list),
        list.contains(value) <==> exists|i: int|
            0 <= i < all.len() && textmap::lookup((#[trigger] all[i]).labels, name) == Some(value),
{
    assert(discovery::in_order(list));
    assert(list.contains(value) <==> discovery::has_value(all, name, value));
}

/// What the series are called that a request is shown.
pub proof fn law_series_are_shown_by_their_labels(all: Seq<SeriesView>, k: int)
    requires
        0 <= k < all.len(),
    ensures
        discovery::called(all).len() == all.len(),
        discovery::called(all)[k] == all[k].labels,
{
}

proof fn lemma_keys()
    ensures
        "match[]"@ != "start"@,
        "match[]"@ != "end"@,
        "start"@ != "end"@,
{
    reveal_strlit("match[]");
    reveal_strlit("start");
    reveal_strlit("end");
    assert("match[]"@.len() == 7 && "start"@.len() == 5 && "end"@.len() == 3);
}

/// Each `match[]` adds a selector, a later `start` or `end` takes the place
/// of an earlier one, and other parameters are ignored. What is wrong first
/// is what is told.
pub proof fn law_parameters_add_up(
    pairs: Seq<Entry>,
    key: Seq<char>,
    value: Seq<char>,
    bad: Set<Seq<char>>,
)
    ensures
        ({
            let all = discovery::args_under(pairs.push((key, value)), bad);
            match discovery::args_under(pairs, bad) {
                Err(e) => all == Err::<ArgsView, ArgsFault>(e),
                Ok(args) => {
                    &&& key == "match[]"@ ==> (match parser::parsed_under(value, bad) {
                        Ok(ExprView::Selector(selector)) => all matches Ok(more) && more.selectors
                            == args.selectors.push(selector) && more.start == args.start && more.end
                            == args.end,
                        Ok(_) => all == Err::<ArgsView, ArgsFault>(ArgsFault::NotASelector(value)),
                        Err(e) => all == Err::<ArgsView, ArgsFault>(ArgsFault::Query(e)),
                    })
                    &&& key == "start"@ ==> (all matches Ok(more) && more.selectors == args.selectors
                        && more.start == api::time_of(value) && more.end == args.end)
                    &&& key == "end"@ ==> (all matches Ok(more) && more.selectors == args.selectors
                        && more.start == args.start && more.end == api::time_of(value))
                    &&& key != "match[]"@ && key != "start"@ && key != "end"@ ==> all == Ok::<
                        ArgsView,
                        ArgsFault,
                    >(args)
                },
            }
        }),
        discovery::args_under(seq![], bad) matches Ok(none) && none.selectors.len() == 0 && none.start
            is None && none.end is None,
{
    lemma_keys();
    assert(pairs.push((key, value)).drop_last() =~= pairs);
}

/// A time is the whole number that is written, and nothing where no number
/// is.
pub proof fn law_times_are_read(s: Seq<char>, t: int)
    requires
        -0x20_0000_0000_0000 <= t <= 0x20_0000_0000_0000,
    ensures
        decimal::spelled(s) is None ==> api::time_of(s) is None,
        s == (if t < 0 {
            "-"@ + decimal::shown((-t) as nat)
        } else {
            decimal::shown(t as nat)
        }) ==> api::time_of(s) == Some(t as i64),
{
    if t < 0 {
        figures::law_whole_numbers_are_spelled((-t) as nat);
    } else {
        figures::law_whole_numbers_are_spelled(t as nat);
    }
    double::law_whole_numbers_truncate(t);
}

proof fn lemma_no_selectors(pairs: Seq<Entry>, bad: Set<Seq<char>>)
    requires
        forall|i: int| 0 <= i < pairs.len() ==> (#[trigger] pairs[i]).0 != "match[]"@,
    ensures
        discovery::args_under(pairs, bad) matches Ok(args) && args.selectors.len() == 0,
    decreases pairs.len(),
{
    if pairs.len() > 0 {
        let init = pairs.drop_last();
        assert forall|i: int| 0 <= i < init.len() implies (#[trigger] init[i]).0 != "match[]"@ by {
            assert(init[i] == pairs[i]);
        }
        assert(pairs[pairs.len() - 1].0 != "match[]"@);
        lemma_no_selectors(init, bad);
    }
}

/// A request for series that has no `match[]` is refused, and any other is
/// what its parameters make it.
pub proof fn law_series_need_a_selector(pairs: Seq<Entry>, bad: Set<Seq<char>>)
    ensures
        (forall|i: int| 0 <= i < pairs.len() ==> (#[trigger] pairs[i]).0 != "match[]"@)
            ==> discovery::selecting_args_under(pairs, bad) == Err::<ArgsView, ArgsFault>(
            ArgsFault::NoSelector,
        ),
        (discovery::args_under(pairs, bad) matches Ok(args) && args.selectors.len() > 0)
            ==> discovery::selecting_args_under(pairs, bad) == discovery::args_under(pairs, bad),
        discovery::args_under(pairs, bad) is Err ==> discovery::selecting_args_under(pairs, bad)
            == discovery::args_under(pairs, bad),
{
    if forall|i: int| 0 <= i < pairs.len() ==> (#[trigger] pairs[i]).0 != "match[]"@ {
        lemma_no_selectors(pairs, bad);
    }
}

} // verus!
