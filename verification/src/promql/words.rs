//! How a query falls into words: names, numbers, strings and marks, with
//! blanks between them or none.

use super::parser::{
    in_name, in_number, lexed, name_end, number_end, quoted, token_at, tokens_from, unescaped, Fault, TokenView,
};
use crate::decimal;
use crate::text;
use vstd::prelude::*;

verus! {

/// A word of a query: what is written, what it says, and the blanks behind
/// it.
pub struct Word {
    pub text: Seq<char>,
    pub token: TokenView,
    pub gap: Seq<char>,
}

/// Whether a character can stand in a name. A digit cannot stand first.
pub open spec fn of_name(c: char, first: bool) -> bool {
    'a' <= c <= 'z' || 'A' <= c <= 'Z' || c == '_' || c == ':' || (!first && '0' <= c <= '9')
}

/// How a character is written inside a string.
pub open spec fn escaped(c: char) -> Seq<char> {
    if c == '\n' {
        seq!['\\', 'n']
    } else if c == '\t' {
        seq!['\\', 't']
    } else if c == '"' || c == '\'' || c == '\\' {
        seq!['\\', c]
    } else {
        seq![c]
    }
}

/// How a text is written inside a string.
pub open spec fn all_escaped(v: Seq<char>) -> Seq<char>
    decreases v.len(),
{
    if v.len() == 0 {
        seq![]
    } else {
        escaped(v[0]) + all_escaped(v.drop_first())
    }
}

/// Whether a text is how a token is written.
pub open spec fn spells(s: Seq<char>, token: TokenView) -> bool {
    match token {
        TokenView::Ident(name) => s == name && s.len() > 0 && of_name(s[0], true) && forall|i: int|
            0 <= i < s.len() ==> of_name(#[trigger] s[i], false),
        TokenView::Number(bits) => s.len() > 0 && '0' <= s[0] <= '9' && (forall|i: int|
            0 <= i < s.len() ==> '0' <= (#[trigger] s[i]) <= '9' || s[i] == '.')
            && decimal::spelled(s) == Some(bits),
        TokenView::Text(value) => s == seq!['"'] + all_escaped(value) + seq!['"'] || s == seq!['\'']
            + all_escaped(value) + seq!['\''],
        TokenView::LParen => s == seq!['('],
        TokenView::RParen => s == seq![')'],
        TokenView::LBrace => s == seq!['{'],
        TokenView::RBrace => s == seq!['}'],
        TokenView::LBracket => s == seq!['['],
        TokenView::RBracket => s == seq![']'],
        TokenView::Comma => s == seq![','],
        TokenView::Eq => s == seq!['='] || s == seq!['=', '='],
        TokenView::Ne => s == seq!['!', '='],
        TokenView::Re => s == seq!['=', '~'],
        TokenView::NotRe => s == seq!['!', '~'],
        TokenView::Plus => s == seq!['+'],
        TokenView::Minus => s == seq!['-'],
        TokenView::Star => s == seq!['*'],
        TokenView::Slash => s == seq!['/'],
    }
}

/// Whether a token ends where a character follows it at once.
pub open spec fn ends_before(token: TokenView, c: char) -> bool {
    match token {
        TokenView::Ident(_) => !of_name(c, false),
        TokenView::Number(_) => !('0' <= c <= '9' || c == '.'),
        TokenView::Eq => c != '=' && c != '~',
        _ => true,
    }
}

/// Words one behind the other.
pub open spec fn joined(words: Seq<Word>) -> Seq<char>
    decreases words.len(),
{
    if words.len() == 0 {
        seq![]
    } else {
        words[0].text + words[0].gap + joined(words.drop_first())
    }
}

/// What words say.
pub open spec fn said(words: Seq<Word>) -> Seq<TokenView> {
    Seq::new(words.len(), |i: int| words[i].token)
}

/// Whether each word is written as it should be, has nothing but blanks
/// behind it, and does not run on into what follows where it has none.
pub open spec fn well_written(words: Seq<Word>, rest: Seq<char>) -> bool
    decreases words.len(),
{
    words.len() > 0 ==> {
        let w = words[0];
        let behind = joined(words.drop_first()) + rest;
        &&& spells(w.text, w.token)
        &&& forall|i: int|
            0 <= i < w.gap.len() ==> (#[trigger] w.gap[i] == ' ' || w.gap[i] == '\t' || w.gap[i]
                == '\n')
        &&& w.gap.len() == 0 && behind.len() > 0 ==> ends_before(w.token, behind[0])
        &&& well_written(words.drop_first(), rest)
    }
}

proof fn lemma_name_ends(s: Seq<char>, i: int, j: int)
    requires
        0 <= i <= j <= s.len(),
        forall|k: int| i <= k < j ==> in_name(#[trigger] s[k]),
        j < s.len() ==> !in_name(s[j]),
    ensures
        name_end(s, i) == j,
    decreases j - i,
{
    if i < j {
        lemma_name_ends(s, i + 1, j);
    }
}

proof fn lemma_number_ends(s: Seq<char>, i: int, j: int)
    requires
        0 <= i <= j <= s.len(),
        forall|k: int| i <= k < j ==> in_number(#[trigger] s[k]),
        j < s.len() ==> !in_number(s[j]),
    ensures
        number_end(s, i) == j,
    decreases j - i,
{
    if i < j {
        lemma_number_ends(s, i + 1, j);
    }
}

proof fn lemma_string_ends(s: Seq<char>, i: int, quote: char, v: Seq<char>, out: Seq<char>)
    requires
        0 <= i,
        quote == '"' || quote == '\'',
        i + all_escaped(v).len() < s.len(),
        s.subrange(i, i + all_escaped(v).len()) == all_escaped(v),
        s[i + all_escaped(v).len()] == quote,
    ensures
        quoted(s, i, quote, out) == Some((out + v, i + all_escaped(v).len() + 1)),
    decreases v.len(),
{
    let e = all_escaped(v);
    if v.len() == 0 {
        assert(out + v =~= out);
    } else {
        let c = v[0];
        let first = escaped(c);
        let tail = v.drop_first();
        let n = first.len() as int;
        let rest = all_escaped(tail);
        let here = s.subrange(i, i + e.len());
        assert(e == first + rest);
        assert forall|k: int| 0 <= k < n implies s[i + k] == first[k] by {
            assert(here[k] == s[i + k]);
        }
        assert(s.subrange(i + n, i + n + rest.len()) =~= rest) by {
            assert forall|k: int| 0 <= k < rest.len() implies s[i + n + k] == rest[k] by {
                assert(here[n + k] == s[i + (n + k)]);
            }
        }
        assert(v =~= seq![c] + tail);
        if n == 2 {
            assert(s[i + 0] == '\\' && s[i + 1] == first[1]);
            assert(unescaped(first[1]) =~= seq![c]);
            lemma_string_ends(s, i + 2, quote, tail, out + unescaped(s[i + 1]));
            assert(out + unescaped(s[i + 1]) + tail =~= out + v);
        } else {
            assert(s[i + 0] == c);
            lemma_string_ends(s, i + 1, quote, tail, out.push(c));
            assert(out.push(c) + tail =~= out + v);
        }
    }
}

/// A word that stands at `i` is read as what it says.
proof fn lemma_word(s: Seq<char>, i: int, w: Seq<char>, token: TokenView)
    requires
        0 <= i,
        i + w.len() <= s.len(),
        s.subrange(i, i + w.len()) == w,
        spells(w, token),
        i + w.len() < s.len() ==> ends_before(token, s[i + w.len()]),
    ensures
        w.len() > 0,
        token_at(s, i) == Ok::<(TokenView, int), Fault>((token, i + w.len())),
        !text::white(s[i]),
{
    let here = s.subrange(i, i + w.len());
    let j = i + w.len();
    assert forall|k: int| 0 <= k < w.len() implies s[i + k] == w[k] by {
        assert(here[k] == s[i + k]);
    }
    match token {
        TokenView::Ident(name) => {
            assert(s[i + 0] == w[0]);
            assert forall|k: int| i <= k < j implies in_name(#[trigger] s[k]) by {
                assert(s[i + (k - i)] == w[k - i]);
                assert(of_name(w[k - i], false));
            }
            lemma_name_ends(s, i, j);
        },
        TokenView::Number(bits) => {
            assert(s[i + 0] == w[0]);
            assert forall|k: int| i <= k < j implies in_number(#[trigger] s[k]) by {
                assert(s[i + (k - i)] == w[k - i]);
            }
            lemma_number_ends(s, i, j);
        },
        TokenView::Text(value) => {
            let e = all_escaped(value);
            let quote = w[0];
            assert(quote == '"' || quote == '\'');
            assert(w =~= seq![quote] + e + seq![quote]);
            assert(s[i + 0] == quote);
            assert(w[w.len() - 1] == quote);
            assert(s[i + (w.len() - 1)] == quote);
            assert(s.subrange(i + 1, i + 1 + e.len()) =~= e) by {
                assert forall|k: int| 0 <= k < e.len() implies s[i + 1 + k] == e[k] by {
                    assert(s[i + (k + 1)] == w[k + 1]);
                }
            }
            lemma_string_ends(s, i + 1, quote, value, seq![]);
            assert(Seq::<char>::empty() + value =~= value);
        },
        _ => {
            assert(s[i + 0] == w[0]);
            if w.len() == 2 {
                assert(s[i + 1] == w[1]);
            }
        },
    }
}

proof fn lemma_gap(s: Seq<char>, i: int, j: int, out: Seq<TokenView>)
    requires
        0 <= i <= j <= s.len(),
        forall|k: int| i <= k < j ==> text::white(#[trigger] s[k]),
    ensures
        tokens_from(s, i, out) == tokens_from(s, j, out),
    decreases j - i,
{
    if i < j {
        assert(text::white(s[i]));
        lemma_gap(s, i + 1, j, out);
    }
}

proof fn lemma_words(front: Seq<char>, words: Seq<Word>, rest: Seq<char>, out: Seq<TokenView>)
    requires
        well_written(words, rest),
    ensures
        tokens_from(front + joined(words) + rest, front.len() as int, out) == tokens_from(
            front + joined(words) + rest,
            (front.len() + joined(words).len()) as int,
            out + said(words),
        ),
    decreases words.len(),
{
    let s = front + joined(words) + rest;
    if words.len() == 0 {
        assert(out + said(words) =~= out);
    } else {
        let w = words[0];
        let tail = words.drop_first();
        let i = front.len() as int;
        let j = i + w.text.len();
        let k = j + w.gap.len();
        let behind = joined(tail) + rest;
        assert(joined(words) == w.text + w.gap + joined(tail));
        assert(s =~= front + w.text + w.gap + behind);
        assert(s.subrange(i, j) =~= w.text);
        if j < s.len() {
            if w.gap.len() == 0 {
                assert(s[j] == behind[0]);
            } else {
                assert(s[j] == w.gap[0]);
            }
        }
        lemma_word(s, i, w.text, w.token);
        let more = out.push(w.token);
        assert(tokens_from(s, i, out) == tokens_from(s, j, more));
        assert forall|x: int| j <= x < k implies text::white(#[trigger] s[x]) by {
            assert(s[x] == w.gap[x - j]);
        }
        lemma_gap(s, j, k, more);
        let next = front + w.text + w.gap;
        assert(next + joined(tail) + rest =~= s);
        lemma_words(next, tail, rest, more);
        assert(more + said(tail) =~= out + said(words)) by {
            assert forall|x: int| 0 <= x < said(words).len() implies (more + said(tail))[out.len() + x]
                == said(words)[x] by {
                if x > 0 {
                    assert(tail[x - 1] == words[x]);
                }
            }
        }
    }
}

/// A query is read word by word: each name, number, string and mark as what
/// it is, with blanks behind it or none, as long as none runs on into the
/// next.
pub proof fn law_queries_are_read_word_by_word(words: Seq<Word>)
    requires
        well_written(words, seq![]),
    ensures
        lexed(joined(words)) == Ok::<Seq<TokenView>, Fault>(said(words)),
{
    let s = joined(words);
    assert(Seq::<char>::empty() + s + Seq::<char>::empty() =~= s);
    lemma_words(seq![], words, seq![], seq![]);
    assert(Seq::<TokenView>::empty() + said(words) =~= said(words));
}

/// Whether a query's words can start with a character.
pub open spec fn starts_word(c: char) -> bool {
    of_name(c, false) || seq![
        '"',
        '\'',
        '=',
        '!',
        '(',
        ')',
        '{',
        '}',
        '[',
        ']',
        ',',
        '+',
        '-',
        '*',
        '/',
    ].contains(c)
}

/// A character that starts no word is refused, whatever follows it.
pub proof fn law_strange_characters_are_refused(words: Seq<Word>, c: char, more: Seq<char>)
    requires
        !starts_word(c),
        !text::white(c),
        well_written(words, seq![c] + more),
    ensures
        lexed(joined(words) + (seq![c] + more)) == Err::<Seq<TokenView>, Fault>(
            Fault::UnexpectedCharacter(c),
        ),
{
    let rest = seq![c] + more;
    let s = joined(words) + rest;
    assert(Seq::<char>::empty() + joined(words) + rest =~= s);
    lemma_words(seq![], words, rest, seq![]);
    assert(s[joined(words).len() as int] == rest[0]);
    let known = seq!['"', '\'', '=', '!', '(', ')', '{', '}', '[', ']', ',', '+', '-', '*', '/'];
    assert(known[0] == '"' && known[1] == '\'' && known[2] == '=' && known[3] == '!' && known[4]
        == '(' && known[5] == ')' && known[6] == '{' && known[7] == '}' && known[8] == '['
        && known[9] == ']' && known[10] == ',' && known[11] == '+' && known[12] == '-' && known[13]
        == '*' && known[14] == '/');
    assert(forall|i: int| 0 <= i < known.len() ==> #[trigger] known[i] != c);
}

proof fn lemma_never_closed(s: Seq<char>, i: int, quote: char, out: Seq<char>)
    requires
        0 <= i,
        forall|k: int| i <= k < s.len() ==> (#[trigger] s[k]) != quote,
    ensures
        quoted(s, i, quote, out) is None,
    decreases s.len() - i,
{
    if i < s.len() {
        assert(s[i] != quote);
        if s[i] == '\\' && i + 1 < s.len() {
            lemma_never_closed(s, i + 2, quote, out + unescaped(s[i + 1]));
        } else {
            lemma_never_closed(s, i + 1, quote, out.push(s[i]));
        }
    }
}

/// A string that is not closed is refused.
pub proof fn law_open_strings_are_refused(words: Seq<Word>, quote: char, more: Seq<char>)
    requires
        quote == '"' || quote == '\'',
        !more.contains(quote),
        well_written(words, seq![quote] + more),
    ensures
        lexed(joined(words) + (seq![quote] + more)) == Err::<Seq<TokenView>, Fault>(
            Fault::UnterminatedString,
        ),
{
    let rest = seq![quote] + more;
    let s = joined(words) + rest;
    assert(Seq::<char>::empty() + joined(words) + rest =~= s);
    lemma_words(seq![], words, rest, seq![]);
    let at = joined(words).len() as int;
    assert(s[at] == rest[0]);
    assert forall|k: int| at + 1 <= k < s.len() implies (#[trigger] s[k]) != quote by {
        assert(s[k] == more[k - at - 1]);
        assert(more.contains(more[k - at - 1]));
    }
    lemma_never_closed(s, at + 1, quote, seq![]);
}

/// Characters, each behind a backslash.
pub open spec fn slashed(cs: Seq<char>) -> Seq<char>
    decreases cs.len(),
{
    if cs.len() == 0 {
        seq![]
    } else {
        seq!['\\', cs[0]] + slashed(cs.drop_first())
    }
}

proof fn lemma_slashed(s: Seq<char>, i: int, quote: char, cs: Seq<char>, out: Seq<char>)
    requires
        0 <= i,
        quote == '"' || quote == '\'',
        i + slashed(cs).len() < s.len(),
        s.subrange(i, i + slashed(cs).len()) == slashed(cs),
        s[i + slashed(cs).len()] == quote,
        forall|k: int|
            0 <= k < cs.len() ==> (#[trigger] cs[k]) != 'n' && cs[k] != 't' && cs[k] != '"' && cs[k]
                != '\'' && cs[k] != '\\',
    ensures
        quoted(s, i, quote, out) == Some((out + slashed(cs), i + slashed(cs).len() + 1)),
    decreases cs.len(),
{
    let e = slashed(cs);
    if cs.len() == 0 {
        assert(out + e =~= out);
    } else {
        let tail = cs.drop_first();
        let rest = slashed(tail);
        let here = s.subrange(i, i + e.len());
        assert(e == seq!['\\', cs[0]] + rest);
        assert(here[0] == s[i + 0] && here[1] == s[i + 1]);
        assert(s[i + 0] == '\\' && s[i + 1] == cs[0]);
        assert(s.subrange(i + 2, i + 2 + rest.len()) =~= rest) by {
            assert forall|k: int| 0 <= k < rest.len() implies s[i + 2 + k] == rest[k] by {
                assert(here[k + 2] == s[i + (k + 2)]);
            }
        }
        assert forall|k: int| 0 <= k < tail.len() implies (#[trigger] tail[k]) != 'n' && tail[k]
            != 't' && tail[k] != '"' && tail[k] != '\'' && tail[k] != '\\' by {
            assert(tail[k] == cs[k + 1]);
        }
        lemma_slashed(s, i + 2, quote, tail, out + unescaped(s[i + 1]));
        assert(out + unescaped(s[i + 1]) + rest =~= out + e);
    }
}

/// Escapes that belong to patterns stay in a string as they are written.
pub proof fn law_other_escapes_stay(quote: char, cs: Seq<char>)
    requires
        quote == '"' || quote == '\'',
        forall|k: int|
            0 <= k < cs.len() ==> (#[trigger] cs[k]) != 'n' && cs[k] != 't' && cs[k] != '"' && cs[k]
                != '\'' && cs[k] != '\\',
    ensures
        lexed(seq![quote] + slashed(cs) + seq![quote]) == Ok::<Seq<TokenView>, Fault>(
            seq![TokenView::Text(slashed(cs))],
        ),
{
    let e = slashed(cs);
    let s = seq![quote] + e + seq![quote];
    assert(s[0] == quote);
    assert(s[e.len() as int + 1] == quote);
    assert(s.subrange(1, e.len() as int + 1) =~= e);
    lemma_slashed(s, 1, quote, cs, seq![]);
    assert(Seq::<char>::empty() + e =~= e);
    assert(Seq::<TokenView>::empty().push(TokenView::Text(e)) =~= seq![TokenView::Text(e)]);
    assert(tokens_from(s, s.len() as int, seq![TokenView::Text(e)]) == Ok::<
        Seq<TokenView>,
        Fault,
    >(seq![TokenView::Text(e)]));
}

} // verus!
