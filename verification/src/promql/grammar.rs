//! How queries are read: how operators group what stands between them, and
//! what the atoms, the matchers and the windows of a query come to.

use super::meaning::{meets, picks};
use super::parser::{
    anchored, atom_at, by_clause, by_labels, climbed, expr_at, found_at, matcher_list, matcher_of, matchers_in,
    parsed_tokens, selector_of, window_at, Fault, TokenView,
};
use super::{pattern_language, BinOp, ExprView, MatchOp, MatcherView, SelectorView};
use crate::double;
use crate::textmap::Entry;
use vstd::prelude::*;

verus! {

/// The token of a binary operator.
pub open spec fn sign_of(op: BinOp) -> TokenView {
    match op {
        BinOp::Add => TokenView::Plus,
        BinOp::Sub => TokenView::Minus,
        BinOp::Mul => TokenView::Star,
        BinOp::Div => TokenView::Slash,
    }
}

/// Whether an operator binds tighter than plus and minus.
pub open spec fn tight(op: BinOp) -> bool {
    op == BinOp::Mul || op == BinOp::Div
}

/// Whether no operator stands at a place.
pub open spec fn no_operator(ts: Seq<TokenView>, pos: int) -> bool {
    found_at(ts, pos) != Some(TokenView::Plus) && found_at(ts, pos) != Some(TokenView::Minus)
        && found_at(ts, pos) != Some(TokenView::Star) && found_at(ts, pos) != Some(TokenView::Slash)
}

/// Atoms with operators between them, as they stand among tokens: where each
/// atom starts and ends, what it is, and which operator follows it.
pub struct Run {
    pub at: Seq<int>,
    pub ends: Seq<int>,
    pub atoms: Seq<ExprView>,
    pub ops: Seq<BinOp>,
}

/// Whether tokens hold such a run, and no operator behind it.
pub open spec fn holds_run(ts: Seq<TokenView>, bad: Set<Seq<char>>, run: Run) -> bool {
    &&& run.atoms.len() == run.ops.len() + 1
    &&& run.at.len() == run.atoms.len()
    &&& run.ends.len() == run.atoms.len()
    &&& forall|i: int|
        0 <= i < run.atoms.len() ==> 0 <= (#[trigger] run.at[i]) < run.ends[i] && atom_at(
            ts,
            run.at[i],
            bad,
        ) == Ok::<(ExprView, int), Fault>((run.atoms[i], run.ends[i]))
    &&& forall|i: int|
        0 <= i < run.ops.len() ==> found_at(ts, run.ends[i]) == Some(sign_of(#[trigger] run.ops[i]))
            && run.at[i + 1] == run.ends[i] + 1
    &&& no_operator(ts, run.ends.last())
}

/// The product of the atoms from `i` to `j`, grouped to the left.
pub open spec fn product_of(run: Run, i: int, j: int) -> ExprView
    decreases j - i,
{
    if j <= i {
        run.atoms[i]
    } else {
        ExprView::Binary(run.ops[j - 1], Box::new(product_of(run, i, j - 1)), Box::new(run.atoms[j]))
    }
}

/// Where the last term of the first atoms starts: behind the last plus or
/// minus.
pub open spec fn term_start(ops: Seq<BinOp>, n: int) -> int
    decreases n,
{
    if n <= 0 || !tight(ops[n - 1]) {
        n
    } else {
        term_start(ops, n - 1)
    }
}

/// The atoms up to `n` as they group: products first, then sums of them,
/// each to the left.
pub open spec fn grouped(run: Run, n: int) -> ExprView
    decreases n,
    when 0 <= n
    via grouped_decreases
{
    let k = term_start(run.ops, n);
    if k <= 0 {
        product_of(run, 0, n)
    } else {
        ExprView::Binary(
            run.ops[k - 1],
            Box::new(grouped(run, k - 1)),
            Box::new(product_of(run, k, n)),
        )
    }
}

#[via_fn]
proof fn grouped_decreases(run: Run, n: int) {
    lemma_term_start(run.ops, n);
}

proof fn lemma_term_start(ops: Seq<BinOp>, n: int)
    requires
        0 <= n,
    ensures
        0 <= term_start(ops, n) <= n,
        forall|i: int| term_start(ops, n) <= i < n ==> tight(#[trigger] ops[i]),
        term_start(ops, n) > 0 ==> !tight(ops[term_start(ops, n) - 1]),
    decreases n,
{
    if n > 0 && tight(ops[n - 1]) {
        lemma_term_start(ops, n - 1);
    }
}

proof fn lemma_term_start_is(ops: Seq<BinOp>, k: int, n: int)
    requires
        0 <= k <= n,
        forall|i: int| k <= i < n ==> tight(#[trigger] ops[i]),
        k > 0 ==> !tight(ops[k - 1]),
    ensures
        term_start(ops, n) == k,
    decreases n,
{
    if n > k {
        assert(tight(ops[n - 1]));
        lemma_term_start_is(ops, k, n - 1);
    }
}

/// The end of the product that goes on behind atom `i`.
spec fn term_end(ops: Seq<BinOp>, i: int) -> int
    decreases ops.len() - i,
{
    if i >= ops.len() || !tight(ops[i]) {
        i
    } else {
        term_end(ops, i + 1)
    }
}

proof fn lemma_term_end(ops: Seq<BinOp>, i: int)
    requires
        0 <= i <= ops.len(),
    ensures
        i <= term_end(ops, i) <= ops.len(),
        forall|j: int| i <= j < term_end(ops, i) ==> tight(#[trigger] ops[j]),
        term_end(ops, i) < ops.len() ==> !tight(ops[term_end(ops, i)]),
    decreases ops.len() - i,
{
    if i < ops.len() && tight(ops[i]) {
        lemma_term_end(ops, i + 1);
    }
}

proof fn lemma_alone(ts: Seq<TokenView>, bad: Set<Seq<char>>, run: Run, i: int)
    requires
        holds_run(ts, bad, run),
        0 <= i < run.atoms.len(),
    ensures
        expr_at(ts, run.at[i], 3, bad) == Ok::<(ExprView, int), Fault>((run.atoms[i], run.ends[i])),
{
    assert(run.at[i] < run.ends[i]);
    if i < run.ops.len() {
        assert(found_at(ts, run.ends[i]) == Some(sign_of(run.ops[i])));
    }
}

proof fn lemma_product(ts: Seq<TokenView>, bad: Set<Seq<char>>, run: Run, k: int, i: int)
    requires
        holds_run(ts, bad, run),
        0 <= k <= i < run.atoms.len(),
    ensures
        climbed(ts, run.ends[i], 2, product_of(run, k, i), bad) == Ok::<(ExprView, int), Fault>(
            (product_of(run, k, term_end(run.ops, i)), run.ends[term_end(run.ops, i)]),
        ),
    decreases run.atoms.len() - i,
{
    if i < run.ops.len() {
        assert(found_at(ts, run.ends[i]) == Some(sign_of(run.ops[i])));
        if tight(run.ops[i]) {
            assert(run.at[i + 1] == run.ends[i] + 1);
            assert(run.at[i + 1] < run.ends[i + 1]);
            lemma_alone(ts, bad, run, i + 1);
            lemma_product(ts, bad, run, k, i + 1);
        }
    }
}

proof fn lemma_term(ts: Seq<TokenView>, bad: Set<Seq<char>>, run: Run, k: int)
    requires
        holds_run(ts, bad, run),
        0 <= k < run.atoms.len(),
    ensures
        expr_at(ts, run.at[k], 2, bad) == Ok::<(ExprView, int), Fault>(
            (product_of(run, k, term_end(run.ops, k)), run.ends[term_end(run.ops, k)]),
        ),
{
    assert(run.at[k] < run.ends[k]);
    lemma_product(ts, bad, run, k, k);
}

/// An operator that binds tightly enough takes the expression behind it.
proof fn lemma_climb(
    ts: Seq<TokenView>,
    bad: Set<Seq<char>>,
    pos: int,
    min: nat,
    lhs: ExprView,
    op: BinOp,
    rhs: ExprView,
    reached: int,
)
    requires
        found_at(ts, pos) == Some(sign_of(op)),
        min <= 1,
        reached > pos + 1,
        expr_at(
            ts,
            pos + 1,
            if tight(op) {
                3
            } else {
                2
            },
            bad,
        ) == Ok::<(ExprView, int), Fault>((rhs, reached)),
    ensures
        climbed(ts, pos, min, lhs, bad) == climbed(
            ts,
            reached,
            min,
            ExprView::Binary(op, Box::new(lhs), Box::new(rhs)),
            bad,
        ),
{
}

/// One more factor.
proof fn lemma_factor(ts: Seq<TokenView>, bad: Set<Seq<char>>, run: Run, min: nat, i: int)
    requires
        holds_run(ts, bad, run),
        min <= 1,
        0 <= i < run.ops.len(),
        term_start(run.ops, i) == 0,
        tight(run.ops[i]),
    ensures
        climbed(ts, run.ends[i], min, grouped(run, i), bad) == climbed(
            ts,
            run.ends[i + 1],
            min,
            grouped(run, i + 1),
            bad,
        ),
        term_start(run.ops, i + 1) == 0,
{
    assert(found_at(ts, run.ends[i]) == Some(sign_of(run.ops[i])));
    assert(run.at[i + 1] == run.ends[i] + 1);
    assert(run.at[i + 1] < run.ends[i + 1]);
    lemma_alone(ts, bad, run, i + 1);
    lemma_term_start(run.ops, i);
    lemma_term_start_is(run.ops, 0, i + 1);
    assert(grouped(run, i + 1) == ExprView::Binary(
        run.ops[i],
        Box::new(grouped(run, i)),
        Box::new(run.atoms[i + 1]),
    ));
    lemma_climb(
        ts,
        bad,
        run.ends[i],
        min,
        grouped(run, i),
        run.ops[i],
        run.atoms[i + 1],
        run.ends[i + 1],
    );
}

/// One more term. Where it ends comes back.
proof fn lemma_one_term(ts: Seq<TokenView>, bad: Set<Seq<char>>, run: Run, min: nat, i: int) -> (j: int)
    requires
        holds_run(ts, bad, run),
        min <= 1,
        0 <= i < run.ops.len(),
        !tight(run.ops[i]),
    ensures
        i < j < run.atoms.len(),
        j == run.ops.len() || !tight(run.ops[j]),
        climbed(ts, run.ends[i], min, grouped(run, i), bad) == climbed(
            ts,
            run.ends[j],
            min,
            grouped(run, j),
            bad,
        ),
{
    assert(found_at(ts, run.ends[i]) == Some(sign_of(run.ops[i])));
    assert(run.at[i + 1] == run.ends[i] + 1);
    assert(run.at[i + 1] < run.ends[i + 1]);
    let j = term_end(run.ops, i + 1);
    lemma_term_end(run.ops, i + 1);
    lemma_term(ts, bad, run, i + 1);
    lemma_term_start_is(run.ops, i + 1, j);
    assert(run.at[j] < run.ends[j]);
    lemma_ends_grow(ts, bad, run, i + 1, j);
    let rhs = product_of(run, i + 1, j);
    assert(grouped(run, j) == ExprView::Binary(
        run.ops[i],
        Box::new(grouped(run, i)),
        Box::new(rhs),
    ));
    lemma_climb(ts, bad, run.ends[i], min, grouped(run, i), run.ops[i], rhs, run.ends[j]);
    j
}

proof fn lemma_sum(ts: Seq<TokenView>, bad: Set<Seq<char>>, run: Run, min: nat, i: int)
    requires
        holds_run(ts, bad, run),
        min <= 1,
        0 <= i < run.atoms.len(),
        term_start(run.ops, i) == 0 || i == run.ops.len() || !tight(run.ops[i]),
    ensures
        climbed(ts, run.ends[i], min, grouped(run, i), bad) == Ok::<(ExprView, int), Fault>(
            (grouped(run, run.ops.len() as int), run.ends[run.ops.len() as int]),
        ),
    decreases run.atoms.len() - i,
{
    if i < run.ops.len() {
        if tight(run.ops[i]) {
            lemma_factor(ts, bad, run, min, i);
            lemma_sum(ts, bad, run, min, i + 1);
        } else {
            let j = lemma_one_term(ts, bad, run, min, i);
            lemma_sum(ts, bad, run, min, j);
        }
    }
}

proof fn lemma_ends_grow(ts: Seq<TokenView>, bad: Set<Seq<char>>, run: Run, i: int, j: int)
    requires
        holds_run(ts, bad, run),
        0 <= i <= j < run.atoms.len(),
    ensures
        run.ends[i] <= run.ends[j],
    decreases j - i,
{
    if i < j {
        lemma_ends_grow(ts, bad, run, i, j - 1);
        assert(found_at(ts, run.ends[j - 1]) == Some(sign_of(run.ops[j - 1])));
        assert(run.at[j - 1 + 1] == run.ends[j - 1] + 1);
        assert(run.at[j] < run.ends[j]);
    }
}

/// Operators group what stands between them: products bind tighter than
/// sums, and both group to the left.
pub proof fn law_operators_group(ts: Seq<TokenView>, bad: Set<Seq<char>>, run: Run)
    requires
        holds_run(ts, bad, run),
    ensures
        expr_at(ts, run.at[0], 0, bad) == Ok::<(ExprView, int), Fault>(
            (grouped(run, run.ops.len() as int), run.ends.last()),
        ),
        run.at[0] == 0 && run.ends.last() == ts.len() ==> parsed_tokens(ts, bad) == Ok::<
            ExprView,
            Fault,
        >(grouped(run, run.ops.len() as int)),
{
    assert(run.at[0] < run.ends[0]);
    assert(term_start(run.ops, 0) == 0);
    assert(grouped(run, 0) == run.atoms[0]);
    lemma_sum(ts, bad, run, 0, 0);
}

/// Three atoms with two operators between them: the first two belong
/// together, unless only the second operator binds tightly.
pub proof fn law_three_atoms_group(ts: Seq<TokenView>, bad: Set<Seq<char>>, run: Run)
    requires
        holds_run(ts, bad, run),
        run.ops.len() == 2,
        run.at[0] == 0,
        run.ends.last() == ts.len(),
    ensures
        parsed_tokens(ts, bad) == Ok::<ExprView, Fault>(
            if tight(run.ops[1]) && !tight(run.ops[0]) {
                ExprView::Binary(
                    run.ops[0],
                    Box::new(run.atoms[0]),
                    Box::new(
                        ExprView::Binary(
                            run.ops[1],
                            Box::new(run.atoms[1]),
                            Box::new(run.atoms[2]),
                        ),
                    ),
                )
            } else {
                ExprView::Binary(
                    run.ops[1],
                    Box::new(
                        ExprView::Binary(
                            run.ops[0],
                            Box::new(run.atoms[0]),
                            Box::new(run.atoms[1]),
                        ),
                    ),
                    Box::new(run.atoms[2]),
                )
            },
        ),
{
    law_operators_group(ts, bad, run);
    reveal_with_fuel(grouped, 3);
    reveal_with_fuel(product_of, 3);
    reveal_with_fuel(term_start, 3);
}

/// A number stands for itself, and what stands in parentheses is what it
/// would be without them.
pub proof fn law_simple_atoms(
    ts: Seq<TokenView>,
    pos: int,
    bad: Set<Seq<char>>,
    n: u64,
    inner: ExprView,
    behind: int,
)
    ensures
        found_at(ts, pos) == Some(TokenView::Number(n)) ==> atom_at(ts, pos, bad) == Ok::<
            (ExprView, int),
            Fault,
        >((ExprView::Number(n), pos + 1)),
        found_at(ts, pos) == Some(TokenView::LParen) && expr_at(ts, pos + 1, 0, bad) == Ok::<
            (ExprView, int),
            Fault,
        >((inner, behind)) && found_at(ts, behind) == Some(TokenView::RParen) ==> atom_at(
            ts,
            pos,
            bad,
        ) == Ok::<(ExprView, int), Fault>((inner, behind + 1)),
{
}

/// A matcher as it is written.
pub struct Written {
    pub label: Seq<char>,
    pub op: MatchOp,
    pub value: Seq<char>,
}

/// The token of a matcher's operator.
pub open spec fn match_sign(op: MatchOp) -> TokenView {
    match op {
        MatchOp::Eq => TokenView::Eq,
        MatchOp::Ne => TokenView::Ne,
        MatchOp::Re => TokenView::Re,
        MatchOp::NotRe => TokenView::NotRe,
    }
}

/// Whether tokens hold matchers from `pos` on, commas between them and a
/// closing brace behind.
pub open spec fn holds_matchers(ts: Seq<TokenView>, pos: int, ms: Seq<Written>) -> bool {
    forall|i: int|
        0 <= i < ms.len() ==> {
            &&& found_at(ts, pos + 4 * i) == Some(TokenView::Ident((#[trigger] ms[i]).label))
            &&& found_at(ts, pos + 4 * i + 1) == Some(match_sign(ms[i].op))
            &&& found_at(ts, pos + 4 * i + 2) == Some(TokenView::Text(ms[i].value))
            &&& found_at(ts, pos + 4 * i + 3) == Some(
                if i + 1 < ms.len() {
                    TokenView::Comma
                } else {
                    TokenView::RBrace
                },
            )
        }
}

/// Whether a matcher asks for a pattern.
pub open spec fn by_pattern(op: MatchOp) -> bool {
    op == MatchOp::Re || op == MatchOp::NotRe
}

/// Whether the pattern of a matcher, if it has one, is compiled.
pub open spec fn compiles(m: Written, bad: Set<Seq<char>>) -> bool {
    by_pattern(m.op) ==> pattern_language("^(?:"@ + m.value + ")$"@) is Some && !bad.contains(m.value)
}

/// Whether a matcher asks for what is written: of that label, in that way,
/// for that value, which is anchored at both ends where it is a pattern.
pub open spec fn asks_for(view: MatcherView, m: Written) -> bool {
    &&& view.label == m.label
    &&& view.op == m.op
    &&& view.value == m.value
    &&& view.regex == (if by_pattern(m.op) {
        pattern_language("^(?:"@ + m.value + ")$"@)
    } else {
        None
    })
}

proof fn lemma_matchers(
    ts: Seq<TokenView>,
    pos: int,
    ms: Seq<Written>,
    bad: Set<Seq<char>>,
    i: int,
    out: Seq<MatcherView>,
) -> (views: Seq<MatcherView>)
    requires
        holds_matchers(ts, pos, ms),
        0 <= i < ms.len(),
        out.len() == i,
        forall|j: int| 0 <= j < ms.len() ==> compiles(#[trigger] ms[j], bad),
        forall|j: int| 0 <= j < i ==> asks_for(#[trigger] out[j], ms[j]),
    ensures
        matcher_list(ts, pos + 4 * i, out, bad) == Ok::<(Seq<MatcherView>, int), Fault>(
            (views, pos + 4 * ms.len()),
        ),
        views.len() == ms.len(),
        forall|j: int| 0 <= j < ms.len() ==> asks_for(#[trigger] views[j], ms[j]),
    decreases ms.len() - i,
{
    let m = ms[i];
    assert(found_at(ts, pos + 4 * i) == Some(TokenView::Ident(m.label)));
    assert(compiles(m, bad));
    let view = matcher_of(m.label, m.op, m.value);
    assert(anchored(m.value) == "^(?:"@ + m.value + ")$"@);
    let more = out.push(view);
    assert forall|j: int| 0 <= j < i + 1 implies asks_for(#[trigger] more[j], ms[j]) by {
        if j < i {
            assert(more[j] == out[j]);
        }
    }
    if i + 1 < ms.len() {
        assert(pos + 4 * i + 4 == pos + 4 * (i + 1));
        lemma_matchers(ts, pos, ms, bad, i + 1, more)
    } else {
        more
    }
}

/// The matchers of a selector are read in order, each as it is written, and
/// a selector that writes none has none.
pub proof fn law_matchers_are_read_as_written(
    ts: Seq<TokenView>,
    pos: int,
    ms: Seq<Written>,
    bad: Set<Seq<char>>,
) -> (views: Seq<MatcherView>)
    requires
        holds_matchers(ts, pos, ms),
        forall|j: int| 0 <= j < ms.len() ==> compiles(#[trigger] ms[j], bad),
        ms.len() == 0 ==> found_at(ts, pos) == Some(TokenView::RBrace),
    ensures
        matchers_in(ts, pos, bad) == Ok::<(Seq<MatcherView>, int), Fault>(
            (
                views,
                if ms.len() == 0 {
                    pos + 1
                } else {
                    pos + 4 * ms.len()
                },
            ),
        ),
        views.len() == ms.len(),
        forall|j: int| 0 <= j < ms.len() ==> asks_for(#[trigger] views[j], ms[j]),
{
    if ms.len() == 0 {
        seq![]
    } else {
        assert(found_at(ts, pos + 4 * 0) == Some(TokenView::Ident(ms[0].label)));
        lemma_matchers(ts, pos, ms, bad, 0, seq![])
    }
}

/// Whether a matcher says what the name has to be.
pub open spec fn says_name(m: MatcherView) -> bool {
    m.label == "__name__"@ && m.op == MatchOp::Eq
}

/// A selector picks what has its name and meets its matchers, wherever the
/// name is written: in front of the braces or, once, within them.
pub proof fn law_selector_picks_what_is_written(
    name: Option<Seq<char>>,
    ms: Seq<MatcherView>,
    labels: Seq<Entry>,
)
    requires
        forall|i: int, j: int|
            0 <= i < j < ms.len() ==> !(says_name(#[trigger] ms[i]) && says_name(#[trigger] ms[j])),
        name is Some ==> forall|i: int| 0 <= i < ms.len() ==> !says_name(#[trigger] ms[i]),
    ensures
        picks(selector_of(name, ms), labels) <==> picks(SelectorView { name, matchers: seq![] }, labels)
            && forall|i: int| 0 <= i < ms.len() ==> meets(labels, #[trigger] ms[i]),
        name is None && (forall|i: int| 0 <= i < ms.len() ==> !says_name(#[trigger] ms[i]))
            ==> selector_of(name, ms).name is None,
    decreases ms.len(),
{
    if ms.len() > 0 {
        let init = ms.drop_last();
        let last = ms.last();
        let n = ms.len() - 1;
        let before = selector_of(name, init);
        let out = selector_of(name, ms);
        assert forall|i: int, j: int| 0 <= i < j < init.len() implies !(says_name(#[trigger] init[i])
            && says_name(#[trigger] init[j])) by {
            assert(init[i] == ms[i] && init[j] == ms[j]);
        }
        if name is Some {
            assert forall|i: int| 0 <= i < init.len() implies !says_name(#[trigger] init[i]) by {
                assert(init[i] == ms[i]);
            }
            assert(!says_name(ms[n]));
        }
        law_selector_picks_what_is_written(name, init, labels);
        assert(ms =~= init.push(last));
        if says_name(last) {
            assert forall|i: int| 0 <= i < init.len() implies !says_name(#[trigger] init[i]) by {
                assert(init[i] == ms[i] && ms[n] == last);
            }
            assert(before.name is None);
            assert(out.matchers == before.matchers);
            if last.value.len() == 0 {
                assert(last.value =~= Seq::<char>::empty());
            }
            assert(meets(labels, last) <==> picks(
                SelectorView { name: Some(last.value), matchers: seq![] },
                labels,
            ));
        } else {
            assert(out.matchers == before.matchers.push(last));
            assert(out.name == before.name);
            assert(picks(out, labels) <==> picks(before, labels) && meets(labels, last)) by {
                if picks(out, labels) {
                    assert forall|i: int| 0 <= i < before.matchers.len() implies meets(
                        labels,
                        #[trigger] before.matchers[i],
                    ) by {
                        assert(out.matchers[i] == before.matchers[i]);
                    }
                    assert(out.matchers[before.matchers.len() as int] == last);
                }
                if picks(before, labels) && meets(labels, last) {
                    assert forall|i: int| 0 <= i < out.matchers.len() implies meets(
                        labels,
                        #[trigger] out.matchers[i],
                    ) by {
                        if i < before.matchers.len() {
                            assert(out.matchers[i] == before.matchers[i]);
                        }
                    }
                }
            }
        }
        assert((forall|i: int| 0 <= i < ms.len() ==> meets(labels, #[trigger] ms[i])) <==> (
        forall|i: int| 0 <= i < init.len() ==> meets(labels, #[trigger] init[i])) && meets(
            labels,
            last,
        )) by {
            if forall|i: int| 0 <= i < ms.len() ==> meets(labels, #[trigger] ms[i]) {
                assert forall|i: int| 0 <= i < init.len() implies meets(labels, #[trigger] init[i]) by {
                    assert(init[i] == ms[i]);
                }
                assert(ms[n] == last);
            }
            if (forall|i: int| 0 <= i < init.len() ==> meets(labels, #[trigger] init[i])) && meets(
                labels,
                last,
            ) {
                assert forall|i: int| 0 <= i < ms.len() implies meets(labels, #[trigger] ms[i]) by {
                    if i < n {
                        assert(init[i] == ms[i]);
                    }
                }
            }
        }
        if name is None && (forall|i: int| 0 <= i < ms.len() ==> !says_name(#[trigger] ms[i])) {
            assert forall|i: int| 0 <= i < init.len() implies !says_name(#[trigger] init[i]) by {
                assert(init[i] == ms[i]);
            }
            assert(!says_name(ms[n]));
        }
    }
}

/// A selector may have a name, matchers or both. The words `sum`, `rate` and
/// `irate` are no names.
pub proof fn law_selectors_are_atoms(
    ts: Seq<TokenView>,
    pos: int,
    bad: Set<Seq<char>>,
    name: Seq<char>,
    ms: Seq<MatcherView>,
    end: int,
)
    ensures
        found_at(ts, pos) == Some(TokenView::LBrace) && matchers_in(ts, pos + 1, bad) == Ok::<
            (Seq<MatcherView>, int),
            Fault,
        >((ms, end)) ==> atom_at(ts, pos, bad) == Ok::<(ExprView, int), Fault>(
            (ExprView::Selector(selector_of(None, ms)), end),
        ),
        found_at(ts, pos) == Some(TokenView::Ident(name)) && name != "sum"@ && name != "rate"@ && name
            != "irate"@ ==> {
            &&& found_at(ts, pos + 1) != Some(TokenView::LBrace) ==> atom_at(ts, pos, bad) == Ok::<
                (ExprView, int),
                Fault,
            >((ExprView::Selector(selector_of(Some(name), seq![])), pos + 1))
            &&& found_at(ts, pos + 1) == Some(TokenView::LBrace) && matchers_in(ts, pos + 2, bad) == Ok::<
                (Seq<MatcherView>, int),
                Fault,
            >((ms, end)) ==> atom_at(ts, pos, bad) == Ok::<(ExprView, int), Fault>(
                (ExprView::Selector(selector_of(Some(name), ms)), end),
            )
        },
{
}

/// How many seconds a unit is.
pub open spec fn seconds_in(unit: Seq<char>, seconds: int) -> bool {
    ||| unit == "s"@ && seconds == 1
    ||| unit == "m"@ && seconds == 60
    ||| unit == "h"@ && seconds == 3600
    ||| unit == "d"@ && seconds == 86400
}

/// A window of so many seconds, minutes, hours or days is that long.
pub proof fn law_windows_are_measured_in_seconds(
    ts: Seq<TokenView>,
    pos: int,
    n: int,
    unit: Seq<char>,
    seconds: int,
)
    requires
        found_at(ts, pos) == Some(TokenView::LBracket),
        found_at(ts, pos + 1) == Some(TokenView::Number(double::of_int(n))),
        found_at(ts, pos + 2) == Some(TokenView::Ident(unit)),
        found_at(ts, pos + 3) == Some(TokenView::RBracket),
        seconds_in(unit, seconds),
        0 <= n <= 0x20_0000_0000_0000,
        n * seconds <= 0x20_0000_0000_0000,
    ensures
        window_at(ts, pos) == Ok::<(i64, int), Fault>(((n * seconds) as i64, pos + 4)),
{
    reveal_strlit("s");
    reveal_strlit("m");
    reveal_strlit("h");
    reveal_strlit("d");
    assert("s"@[0] != "m"@[0] && "s"@[0] != "h"@[0] && "s"@[0] != "d"@[0]);
    assert("m"@[0] != "h"@[0] && "m"@[0] != "d"@[0] && "h"@[0] != "d"@[0]);
    assert(n * seconds >= 0) by (nonlinear_arith)
        requires
            n >= 0,
            seconds >= 0,
    ;
    double::law_small_integers_multiply(n, seconds);
    double::law_whole_numbers_truncate(n * seconds);
}

/// A rate is that of what is named or matched, over the window behind it.
pub proof fn law_rate_is_read_with_its_window(
    ts: Seq<TokenView>,
    pos: int,
    bad: Set<Seq<char>>,
    word: Seq<char>,
    selector: SelectorView,
    behind: int,
    window: i64,
    end: int,
)
    requires
        word == "rate"@ || word == "irate"@,
        found_at(ts, pos) == Some(TokenView::Ident(word)),
        found_at(ts, pos + 1) == Some(TokenView::LParen),
        atom_at(ts, pos + 2, bad) == Ok::<(ExprView, int), Fault>(
            (ExprView::Selector(selector), behind),
        ),
        found_at(ts, pos + 2) is Some,
        !(found_at(ts, pos + 2) is Some && found_at(ts, pos + 2)->0 is LParen),
        found_at(ts, pos + 2) != Some(TokenView::Ident("sum"@)),
        found_at(ts, pos + 2) != Some(TokenView::Ident("rate"@)),
        found_at(ts, pos + 2) != Some(TokenView::Ident("irate"@)),
        window_at(ts, behind) == Ok::<(i64, int), Fault>((window, end)),
        found_at(ts, end) == Some(TokenView::RParen),
    ensures
        atom_at(ts, pos, bad) == Ok::<(ExprView, int), Fault>(
            (ExprView::Rate(selector, window), end + 1),
        ),
{
    reveal_strlit("sum");
    reveal_strlit("rate");
    reveal_strlit("irate");
    assert("sum"@.len() == 3 && "rate"@.len() == 4 && "irate"@.len() == 5);
}

/// Whether tokens hold the labels of a `by` clause from `pos` on, commas
/// between them and a closing parenthesis behind.
pub open spec fn holds_labels(ts: Seq<TokenView>, pos: int, names: Seq<Seq<char>>) -> bool {
    &&& forall|i: int|
        0 <= i < names.len() ==> {
            &&& found_at(ts, pos + 2 * i) == Some(TokenView::Ident(#[trigger] names[i]))
            &&& found_at(ts, pos + 2 * i + 1) == Some(
                if i + 1 < names.len() {
                    TokenView::Comma
                } else {
                    TokenView::RParen
                },
            )
        }
    &&& names.len() == 0 ==> found_at(ts, pos) == Some(TokenView::RParen)
}

/// Where the labels of a `by` clause end.
pub open spec fn labels_end(pos: int, names: Seq<Seq<char>>) -> int {
    if names.len() == 0 {
        pos + 1
    } else {
        pos + 2 * names.len()
    }
}

proof fn lemma_by_labels(ts: Seq<TokenView>, pos: int, names: Seq<Seq<char>>, i: int)
    requires
        holds_labels(ts, pos, names),
        0 <= i < names.len(),
    ensures
        by_labels(ts, pos + 2 * i, names.take(i)) == Ok::<(Seq<Seq<char>>, int), Fault>(
            (names, pos + 2 * names.len()),
        ),
    decreases names.len() - i,
{
    assert(found_at(ts, pos + 2 * i) == Some(TokenView::Ident(names[i])));
    assert(names.take(i).push(names[i]) =~= names.take(i + 1));
    if i + 1 < names.len() {
        assert(pos + 2 * i + 2 == pos + 2 * (i + 1));
        lemma_by_labels(ts, pos, names, i + 1);
    } else {
        assert(names.take(i + 1) =~= names);
    }
}

/// Whether tokens hold a `by` clause at `pos`.
pub open spec fn holds_by(ts: Seq<TokenView>, pos: int, names: Seq<Seq<char>>) -> bool {
    &&& found_at(ts, pos) == Some(TokenView::Ident("by"@))
    &&& found_at(ts, pos + 1) == Some(TokenView::LParen)
    &&& holds_labels(ts, pos + 2, names)
}

proof fn lemma_by(ts: Seq<TokenView>, pos: int, names: Seq<Seq<char>>)
    requires
        holds_by(ts, pos, names),
    ensures
        by_clause(ts, pos) == Ok::<(Option<Seq<Seq<char>>>, int), Fault>(
            (Some(names), labels_end(pos + 2, names)),
        ),
{
    if names.len() == 0 {
        assert(names =~= seq![]);
    } else {
        assert(names.take(0) =~= seq![]);
        lemma_by_labels(ts, pos + 2, names, 0);
    }
}

/// A sum may say by which labels it groups in front of what it sums, behind
/// it or not at all, and groups by those labels, in the order in which they
/// are written.
pub proof fn law_sum_groups_by_what_is_written(
    ts: Seq<TokenView>,
    pos: int,
    bad: Set<Seq<char>>,
    names: Seq<Seq<char>>,
    inner: ExprView,
    behind: int,
)
    requires
        found_at(ts, pos) == Some(TokenView::Ident("sum"@)),
    ensures
        holds_by(ts, pos + 1, names) && ({
            let open = labels_end(pos + 3, names);
            &&& found_at(ts, open) == Some(TokenView::LParen)
            &&& expr_at(ts, open + 1, 0, bad) == Ok::<(ExprView, int), Fault>((inner, behind))
            &&& found_at(ts, behind) == Some(TokenView::RParen)
        }) ==> atom_at(ts, pos, bad) == Ok::<(ExprView, int), Fault>(
            (ExprView::Sum(Box::new(inner), Some(names)), behind + 1),
        ),
        found_at(ts, pos + 1) == Some(TokenView::LParen) && expr_at(ts, pos + 2, 0, bad) == Ok::<
            (ExprView, int),
            Fault,
        >((inner, behind)) && found_at(ts, behind) == Some(TokenView::RParen) ==> {
            &&& holds_by(ts, behind + 1, names) ==> atom_at(ts, pos, bad) == Ok::<
                (ExprView, int),
                Fault,
            >((ExprView::Sum(Box::new(inner), Some(names)), labels_end(behind + 3, names)))
            &&& found_at(ts, behind + 1) != Some(TokenView::Ident("by"@)) ==> atom_at(ts, pos, bad)
                == Ok::<(ExprView, int), Fault>(
                (ExprView::Sum(Box::new(inner), None), behind + 1),
            )
        },
{
    if holds_by(ts, pos + 1, names) {
        lemma_by(ts, pos + 1, names);
    }
    if holds_by(ts, behind + 1, names) {
        lemma_by(ts, behind + 1, names);
    }
}

} // verus!
