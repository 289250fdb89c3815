//! What a query is refused for: where a token is missing or is not what it
//! has to be.

use super::grammar::{compiles, holds_run, law_operators_group, match_sign, Run, Written};
use super::parser::{
    atom_at, by_clause, by_labels, expr_at, found_at, lexed, matcher_list, matcher_of, parsed_tokens, parsed_under,
    window_at, Fault, TokenView,
};
use super::{pattern_language, ExprView, MatcherView};
use vstd::prelude::*;

verus! {

/// The token at a place is the one that stands there, and behind the last
/// there is none.
pub proof fn law_tokens_are_found_where_they_stand(ts: Seq<TokenView>, pos: int)
    ensures
        0 <= pos < ts.len() ==> found_at(ts, pos) == Some(ts[pos]),
        pos >= ts.len() ==> found_at(ts, pos) is None,
{
}

/// A query is read as a whole: what stands behind its expression is refused,
/// and an empty one is none.
pub proof fn law_queries_are_read_to_their_end(ts: Seq<TokenView>, bad: Set<Seq<char>>, run: Run)
    ensures
        ts.len() == 0 ==> parsed_tokens(ts, bad) == Err::<ExprView, Fault>(
            Fault::UnexpectedToken(None),
        ),
        holds_run(ts, bad, run) && run.at[0] == 0 && run.ends.last() < ts.len() ==> parsed_tokens(
            ts,
            bad,
        ) == Err::<ExprView, Fault>(Fault::TrailingTokens),
{
    if holds_run(ts, bad, run) {
        law_operators_group(ts, bad, run);
    }
}

/// What is wrong with the words of a query, or else with what they make, is
/// what it is refused for.
pub proof fn law_first_words_then_grammar(s: Seq<char>, bad: Set<Seq<char>>)
    ensures
        lexed(s) matches Err(e) ==> parsed_under(s, bad) == Err::<ExprView, Fault>(e),
        lexed(s) matches Ok(ts) ==> parsed_under(s, bad) == parsed_tokens(ts, bad),
{
}

/// Whether a token starts an atom.
pub open spec fn starts_atom(token: TokenView) -> bool {
    token is Ident || token is Number || token is LParen || token is LBrace
}

/// Where an atom has to stand, nothing else will do.
pub proof fn law_atoms_have_to_stand(ts: Seq<TokenView>, pos: int, min: nat, bad: Set<Seq<char>>)
    ensures
        found_at(ts, pos) is None ==> atom_at(ts, pos, bad) == Err::<(ExprView, int), Fault>(
            Fault::UnexpectedToken(None),
        ),
        found_at(ts, pos) is Some && !starts_atom(found_at(ts, pos)->0) ==> atom_at(ts, pos, bad) == Err::<
            (ExprView, int),
            Fault,
        >(Fault::UnexpectedToken(found_at(ts, pos))),
        atom_at(ts, pos, bad) matches Err(e) ==> (expr_at(ts, pos, min, bad) matches Err(other)
            && other == e),
{
}

/// A parenthesis that is opened has to be closed, and what is wrong inside
/// is told first.
pub proof fn law_parentheses_are_closed(ts: Seq<TokenView>, pos: int, bad: Set<Seq<char>>)
    requires
        found_at(ts, pos) == Some(TokenView::LParen),
    ensures
        match expr_at(ts, pos + 1, 0, bad) {
            Err(e) => atom_at(ts, pos, bad) == Err::<(ExprView, int), Fault>(e),
            Ok((inner, behind)) => found_at(ts, behind) != Some(TokenView::RParen) ==> atom_at(
                ts,
                pos,
                bad,
            ) == Err::<(ExprView, int), Fault>(
                Fault::Expected(TokenView::RParen, found_at(ts, behind)),
            ),
        },
{
}

/// Whether tokens hold matchers from `pos` on, each with a comma behind it.
pub open spec fn holds_more(ts: Seq<TokenView>, pos: int, ms: Seq<Written>) -> bool {
    forall|i: int|
        0 <= i < ms.len() ==> {
            &&& found_at(ts, pos + 4 * i) == Some(TokenView::Ident((#[trigger] ms[i]).label))
            &&& found_at(ts, pos + 4 * i + 1) == Some(match_sign(ms[i].op))
            &&& found_at(ts, pos + 4 * i + 2) == Some(TokenView::Text(ms[i].value))
            &&& found_at(ts, pos + 4 * i + 3) == Some(TokenView::Comma)
        }
}

proof fn lemma_more(
    ts: Seq<TokenView>,
    pos: int,
    ms: Seq<Written>,
    bad: Set<Seq<char>>,
    i: int,
    out: Seq<MatcherView>,
) -> (views: Seq<MatcherView>)
    requires
        holds_more(ts, pos, ms),
        0 <= i <= ms.len(),
        forall|j: int| 0 <= j < ms.len() ==> compiles(#[trigger] ms[j], bad),
    ensures
        matcher_list(ts, pos + 4 * i, out, bad) == matcher_list(ts, pos + 4 * ms.len(), views, bad),
    decreases ms.len() - i,
{
    if i == ms.len() {
        out
    } else {
        let m = ms[i];
        assert(found_at(ts, pos + 4 * i) == Some(TokenView::Ident(m.label)));
        assert(compiles(m, bad));
        let more = out.push(matcher_of(m.label, m.op, m.value));
        assert(pos + 4 * i + 4 == pos + 4 * (i + 1));
        lemma_more(ts, pos, ms, bad, i + 1, more)
    }
}

/// Whether a token is a matcher's operator.
pub open spec fn is_match_sign(token: Option<TokenView>) -> bool {
    token == Some(TokenView::Eq) || token == Some(TokenView::Ne) || token == Some(TokenView::Re)
        || token == Some(TokenView::NotRe)
}

/// Behind an opening brace and after every comma a matcher has to stand: a
/// label, an operator and a string, with a comma or the closing brace behind
/// it. What is missing first is told, and so is a pattern that does not
/// compile.
pub proof fn law_matchers_have_to_be_whole(
    ts: Seq<TokenView>,
    pos: int,
    ms: Seq<Written>,
    bad: Set<Seq<char>>,
)
    requires
        found_at(ts, pos) == Some(TokenView::LBrace),
        holds_more(ts, pos + 1, ms),
        forall|j: int| 0 <= j < ms.len() ==> compiles(#[trigger] ms[j], bad),
    ensures
        ({
            let p = pos + 1 + 4 * ms.len();
            let got = atom_at(ts, pos, bad);
            &&& !(found_at(ts, p) matches Some(TokenView::Ident(_))) && !(ms.len() == 0 && found_at(ts, p)
                == Some(TokenView::RBrace)) ==> got == Err::<(ExprView, int), Fault>(
                Fault::ExpectedLabel(found_at(ts, p)),
            )
            &&& found_at(ts, p) matches Some(TokenView::Ident(label)) ==> {
                &&& !is_match_sign(found_at(ts, p + 1)) ==> got == Err::<(ExprView, int), Fault>(
                    Fault::ExpectedOperator(found_at(ts, p + 1)),
                )
                &&& is_match_sign(found_at(ts, p + 1)) && !(found_at(ts, p + 2) matches Some(
                    TokenView::Text(_),
                )) ==> got == Err::<(ExprView, int), Fault>(
                    Fault::ExpectedValue(found_at(ts, p + 2)),
                )
                &&& (found_at(ts, p + 1) == Some(TokenView::Re) || found_at(ts, p + 1) == Some(
                    TokenView::NotRe,
                )) && (found_at(ts, p + 2) matches Some(TokenView::Text(value)) && (pattern_language(
                    "^(?:"@ + value + ")$"@,
                ) is None || bad.contains(value))) ==> (got matches Err(Fault::BadRegex(pattern))
                    && found_at(ts, p + 2) == Some(TokenView::Text(pattern)))
                &&& (found_at(ts, p + 1) == Some(TokenView::Eq) || found_at(ts, p + 1) == Some(
                    TokenView::Ne,
                )) && (found_at(ts, p + 2) matches Some(TokenView::Text(_))) && found_at(ts, p + 3)
                    != Some(TokenView::Comma) && found_at(ts, p + 3) != Some(TokenView::RBrace)
                    ==> got == Err::<(ExprView, int), Fault>(
                    Fault::ExpectedCommaInSelector(found_at(ts, p + 3)),
                )
            }
        }),
{
    let none: Seq<MatcherView> = seq![];
    if ms.len() > 0 {
        assert(found_at(ts, pos + 1 + 4 * 0) == Some(TokenView::Ident(ms[0].label)));
    }
    let views = lemma_more(ts, pos + 1, ms, bad, 0, none);
    assert(pos + 1 + 4 * 0 == pos + 1);
}

/// A window is a number and a unit in brackets: seconds, minutes, hours or
/// days. What is missing first is told.
pub proof fn law_windows_have_to_be_whole(ts: Seq<TokenView>, pos: int)
    ensures
        found_at(ts, pos) != Some(TokenView::LBracket) ==> window_at(ts, pos) == Err::<(i64, int), Fault>(
            Fault::Expected(TokenView::LBracket, found_at(ts, pos)),
        ),
        found_at(ts, pos) == Some(TokenView::LBracket) ==> {
            &&& !(found_at(ts, pos + 1) matches Some(TokenView::Number(_))) ==> window_at(ts, pos) == Err::<
                (i64, int),
                Fault,
            >(Fault::ExpectedDuration(found_at(ts, pos + 1)))
            &&& found_at(ts, pos + 1) matches Some(TokenView::Number(_)) ==> {
                &&& !(found_at(ts, pos + 2) matches Some(TokenView::Ident(_))) ==> window_at(ts, pos)
                    == Err::<(i64, int), Fault>(Fault::ExpectedUnit(found_at(ts, pos + 2)))
                &&& found_at(ts, pos + 2) matches Some(TokenView::Ident(unit)) ==> {
                    &&& found_at(ts, pos + 3) != Some(TokenView::RBracket) ==> window_at(ts, pos) == Err::<
                        (i64, int),
                        Fault,
                    >(Fault::Expected(TokenView::RBracket, found_at(ts, pos + 3)))
                    &&& found_at(ts, pos + 3) == Some(TokenView::RBracket) && unit != "s"@ && unit
                        != "m"@ && unit != "h"@ && unit != "d"@ ==> window_at(ts, pos) == Err::<
                        (i64, int),
                        Fault,
                    >(Fault::UnsupportedUnit(unit))
                }
            }
        },
{
}

/// A rate is over a selector in parentheses, with a window behind it. What
/// is missing first is told.
pub proof fn law_rates_have_to_be_whole(ts: Seq<TokenView>, pos: int, bad: Set<Seq<char>>, word: Seq<char>)
    requires
        word == "rate"@ || word == "irate"@,
        found_at(ts, pos) == Some(TokenView::Ident(word)),
    ensures
        found_at(ts, pos + 1) != Some(TokenView::LParen) ==> atom_at(ts, pos, bad) == Err::<
            (ExprView, int),
            Fault,
        >(Fault::Expected(TokenView::LParen, found_at(ts, pos + 1))),
        found_at(ts, pos + 1) == Some(TokenView::LParen) ==> {
            &&& !(found_at(ts, pos + 2) matches Some(TokenView::Ident(_))) && found_at(ts, pos + 2)
                != Some(TokenView::LBrace) ==> atom_at(ts, pos, bad) == Err::<(ExprView, int), Fault>(
                Fault::ExpectedSelector(found_at(ts, pos + 2)),
            )
            &&& (found_at(ts, pos + 2) matches Some(TokenView::Ident(_))) && found_at(ts, pos + 3)
                != Some(TokenView::LBrace) ==> (match window_at(ts, pos + 3) {
                Err(e) => atom_at(ts, pos, bad) == Err::<(ExprView, int), Fault>(e),
                Ok((_, end)) => found_at(ts, end) != Some(TokenView::RParen) ==> atom_at(ts, pos, bad)
                    == Err::<(ExprView, int), Fault>(
                    Fault::Expected(TokenView::RParen, found_at(ts, end)),
                ),
            })
        },
{
    reveal_strlit("sum");
    reveal_strlit("rate");
    reveal_strlit("irate");
    assert("sum"@.len() == 3 && "rate"@.len() == 4 && "irate"@.len() == 5);
}

/// Whether tokens hold labels from `pos` on, each with a comma behind it.
pub open spec fn holds_more_labels(ts: Seq<TokenView>, pos: int, names: Seq<Seq<char>>) -> bool {
    forall|i: int|
        0 <= i < names.len() ==> {
            &&& found_at(ts, pos + 2 * i) == Some(TokenView::Ident(#[trigger] names[i]))
            &&& found_at(ts, pos + 2 * i + 1) == Some(TokenView::Comma)
        }
}

proof fn lemma_more_labels(ts: Seq<TokenView>, pos: int, names: Seq<Seq<char>>, i: int, out: Seq<Seq<char>>)
    requires
        holds_more_labels(ts, pos, names),
        0 <= i <= names.len(),
        out == names.take(i),
    ensures
        by_labels(ts, pos + 2 * i, out) == by_labels(ts, pos + 2 * names.len(), names),
    decreases names.len() - i,
{
    if i == names.len() {
        assert(out =~= names);
    } else {
        assert(found_at(ts, pos + 2 * i) == Some(TokenView::Ident(names[i])));
        assert(out.push(names[i]) =~= names.take(i + 1));
        assert(pos + 2 * i + 2 == pos + 2 * (i + 1));
        lemma_more_labels(ts, pos, names, i + 1, out.push(names[i]));
    }
}

/// The labels of a `by` clause stand in parentheses with commas between
/// them, and one may stand behind the last. What is missing first is told.
pub proof fn law_by_clauses_have_to_be_whole(ts: Seq<TokenView>, pos: int, names: Seq<Seq<char>>)
    ensures
        found_at(ts, pos) != Some(TokenView::Ident("by"@)) ==> by_clause(ts, pos) == Ok::<
            (Option<Seq<Seq<char>>>, int),
            Fault,
        >((None, pos)),
        found_at(ts, pos) == Some(TokenView::Ident("by"@)) && found_at(ts, pos + 1) != Some(
            TokenView::LParen,
        ) ==> by_clause(ts, pos) == Err::<(Option<Seq<Seq<char>>>, int), Fault>(
            Fault::Expected(TokenView::LParen, found_at(ts, pos + 1)),
        ),
        found_at(ts, pos) == Some(TokenView::Ident("by"@)) && found_at(ts, pos + 1) == Some(
            TokenView::LParen,
        ) && holds_more_labels(ts, pos + 2, names) ==> {
            let p = pos + 2 + 2 * names.len();
            &&& found_at(ts, p) == Some(TokenView::RParen) ==> by_clause(ts, pos) == Ok::<
                (Option<Seq<Seq<char>>>, int),
                Fault,
            >((Some(names), p + 1))
            &&& found_at(ts, p) != Some(TokenView::RParen) && !(found_at(ts, p) matches Some(
                TokenView::Ident(_),
            )) ==> by_clause(ts, pos) == Err::<(Option<Seq<Seq<char>>>, int), Fault>(
                Fault::ExpectedLabelInBy(found_at(ts, p)),
            )
            &&& (found_at(ts, p) matches Some(TokenView::Ident(_))) && found_at(ts, p + 1) != Some(
                TokenView::Comma,
            ) && found_at(ts, p + 1) != Some(TokenView::RParen) ==> by_clause(ts, pos) == Err::<
                (Option<Seq<Seq<char>>>, int),
                Fault,
            >(Fault::ExpectedCommaInBy(found_at(ts, p + 1)))
        },
{
    if holds_more_labels(ts, pos + 2, names) {
        let none: Seq<Seq<char>> = seq![];
        assert(names.take(0) =~= none);
        lemma_more_labels(ts, pos + 2, names, 0, none);
        assert(pos + 2 + 2 * 0 == pos + 2);
    }
}

/// A sum is over an expression in parentheses. What is missing first is
/// told.
pub proof fn law_sums_have_to_be_whole(ts: Seq<TokenView>, pos: int, bad: Set<Seq<char>>)
    requires
        found_at(ts, pos) == Some(TokenView::Ident("sum"@)),
    ensures
        by_clause(ts, pos + 1) matches Err(e) ==> atom_at(ts, pos, bad) == Err::<
            (ExprView, int),
            Fault,
        >(e),
        found_at(ts, pos + 1) != Some(TokenView::Ident("by"@)) && found_at(ts, pos + 1) != Some(
            TokenView::LParen,
        ) ==> atom_at(ts, pos, bad) == Err::<(ExprView, int), Fault>(
            Fault::Expected(TokenView::LParen, found_at(ts, pos + 1)),
        ),
        found_at(ts, pos + 1) == Some(TokenView::LParen) ==> (match expr_at(ts, pos + 2, 0, bad) {
            Err(e) => atom_at(ts, pos, bad) == Err::<(ExprView, int), Fault>(e),
            Ok((inner, behind)) => if found_at(ts, behind) != Some(TokenView::RParen) {
                atom_at(ts, pos, bad) == Err::<(ExprView, int), Fault>(
                    Fault::Expected(TokenView::RParen, found_at(ts, behind)),
                )
            } else {
                by_clause(ts, behind + 1) matches Err(e) ==> atom_at(ts, pos, bad) == Err::<
                    (ExprView, int),
                    Fault,
                >(e)
            },
        }),
{
}

} // verus!
