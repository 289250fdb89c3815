//! Tokeniser and recursive-descent parser for the subset in [`super`].

use super::{
    compile, expr_view, matcher_views, modest, name_views, pattern_language, BinOp, Expr, ExprView, MatchOp, Matcher,
    MatcherView, Selector, SelectorView,
};
use crate::decimal;
use crate::double;
use crate::store::NAME_LABEL;
use crate::text;
use regex_lite::Regex;
use vstd::prelude::*;
use vstd::slice::slice_subrange;

verus! {

#[derive(Debug)]
pub enum Token {
    Ident(String),
    Text(String),
    /// The bits of a double.
    Number(u64),
    LParen,
    RParen,
    LBrace,
    RBrace,
    LBracket,
    RBracket,
    Comma,
    Eq,
    Ne,
    Re,
    NotRe,
    Plus,
    Minus,
    Star,
    Slash,
}

pub enum TokenView {
    Ident(Seq<char>),
    Text(Seq<char>),
    Number(u64),
    LParen,
    RParen,
    LBrace,
    RBrace,
    LBracket,
    RBracket,
    Comma,
    Eq,
    Ne,
    Re,
    NotRe,
    Plus,
    Minus,
    Star,
    Slash,
}

impl View for Token {
    type V = TokenView;

    open spec fn view(&self) -> TokenView {
        match self {
            Token::Ident(s) => TokenView::Ident(s@),
            Token::Text(s) => TokenView::Text(s@),
            Token::Number(n) => TokenView::Number(*n),
            Token::LParen => TokenView::LParen,
            Token::RParen => TokenView::RParen,
            Token::LBrace => TokenView::LBrace,
            Token::RBrace => TokenView::RBrace,
            Token::LBracket => TokenView::LBracket,
            Token::RBracket => TokenView::RBracket,
            Token::Comma => TokenView::Comma,
            Token::Eq => TokenView::Eq,
            Token::Ne => TokenView::Ne,
            Token::Re => TokenView::Re,
            Token::NotRe => TokenView::NotRe,
            Token::Plus => TokenView::Plus,
            Token::Minus => TokenView::Minus,
            Token::Star => TokenView::Star,
            Token::Slash => TokenView::Slash,
        }
    }
}

impl Token {
    /// A token of its own that says the same.
    fn copy(&self) -> (token: Token)
        ensures
            token@ == self@,
    {
        match self {
            Token::Ident(s) => Token::Ident(s.clone()),
            Token::Text(s) => Token::Text(s.clone()),
            Token::Number(n) => Token::Number(*n),
            Token::LParen => Token::LParen,
            Token::RParen => Token::RParen,
            Token::LBrace => Token::LBrace,
            Token::RBrace => Token::RBrace,
            Token::LBracket => Token::LBracket,
            Token::RBracket => Token::RBracket,
            Token::Comma => Token::Comma,
            Token::Eq => Token::Eq,
            Token::Ne => Token::Ne,
            Token::Re => Token::Re,
            Token::NotRe => Token::NotRe,
            Token::Plus => Token::Plus,
            Token::Minus => Token::Minus,
            Token::Star => Token::Star,
            Token::Slash => Token::Slash,
        }
    }
}

/// Tokens as what they say.
pub open spec fn token_views(tokens: Seq<Token>) -> Seq<TokenView> {
    tokens.map_values(|t: Token| t@)
}

pub open spec fn found_view(found: Option<Token>) -> Option<TokenView> {
    match found {
        Some(token) => Some(token@),
        None => None,
    }
}

/// Why a query is not one of ours.
#[derive(Debug)]
pub enum ParseError {
    UnexpectedCharacter(char),
    BadNumber,
    UnterminatedString,
    TrailingTokens,
    /// What was expected, and what stood there.
    Expected(Token, Option<Token>),
    UnexpectedToken(Option<Token>),
    ExpectedLabelInBy(Option<Token>),
    ExpectedCommaInBy(Option<Token>),
    ExpectedSelector(Option<Token>),
    ExpectedDuration(Option<Token>),
    ExpectedUnit(Option<Token>),
    UnsupportedUnit(String),
    ExpectedLabel(Option<Token>),
    ExpectedOperator(Option<Token>),
    ExpectedValue(Option<Token>),
    ExpectedCommaInSelector(Option<Token>),
    /// The pattern as it was written, and what is wrong with it.
    BadRegex(String, regex_lite::Error),
}

pub enum Fault {
    UnexpectedCharacter(char),
    BadNumber,
    UnterminatedString,
    TrailingTokens,
    Expected(TokenView, Option<TokenView>),
    UnexpectedToken(Option<TokenView>),
    ExpectedLabelInBy(Option<TokenView>),
    ExpectedCommaInBy(Option<TokenView>),
    ExpectedSelector(Option<TokenView>),
    ExpectedDuration(Option<TokenView>),
    ExpectedUnit(Option<TokenView>),
    UnsupportedUnit(Seq<char>),
    ExpectedLabel(Option<TokenView>),
    ExpectedOperator(Option<TokenView>),
    ExpectedValue(Option<TokenView>),
    ExpectedCommaInSelector(Option<TokenView>),
    BadRegex(Seq<char>),
}

impl View for ParseError {
    type V = Fault;

    open spec fn view(&self) -> Fault {
        match self {
            ParseError::UnexpectedCharacter(c) => Fault::UnexpectedCharacter(*c),
            ParseError::BadNumber => Fault::BadNumber,
            ParseError::UnterminatedString => Fault::UnterminatedString,
            ParseError::TrailingTokens => Fault::TrailingTokens,
            ParseError::Expected(want, found) => Fault::Expected(want@, found_view(*found)),
            ParseError::UnexpectedToken(found) => Fault::UnexpectedToken(found_view(*found)),
            ParseError::ExpectedLabelInBy(found) => Fault::ExpectedLabelInBy(found_view(*found)),
            ParseError::ExpectedCommaInBy(found) => Fault::ExpectedCommaInBy(found_view(*found)),
            ParseError::ExpectedSelector(found) => Fault::ExpectedSelector(found_view(*found)),
            ParseError::ExpectedDuration(found) => Fault::ExpectedDuration(found_view(*found)),
            ParseError::ExpectedUnit(found) => Fault::ExpectedUnit(found_view(*found)),
            ParseError::UnsupportedUnit(unit) => Fault::UnsupportedUnit(unit@),
            ParseError::ExpectedLabel(found) => Fault::ExpectedLabel(found_view(*found)),
            ParseError::ExpectedOperator(found) => Fault::ExpectedOperator(found_view(*found)),
            ParseError::ExpectedValue(found) => Fault::ExpectedValue(found_view(*found)),
            ParseError::ExpectedCommaInSelector(found) => Fault::ExpectedCommaInSelector(
                found_view(*found),
            ),
            ParseError::BadRegex(pattern, _) => Fault::BadRegex(pattern@),
        }
    }
}

/// Whether an identifier can start with a character. Identifiers double as
/// metric names, label names, function names and keywords.
pub open spec fn starts_name(c: char) -> bool {
    text::letter(c) || c == '_' || c == ':'
}

pub open spec fn in_name(c: char) -> bool {
    starts_name(c) || text::digit(c)
}

pub open spec fn in_number(c: char) -> bool {
    text::digit(c) || c == '.'
}

/// Where an identifier ends that reaches at least to `i`.
pub open spec fn name_end(s: Seq<char>, i: int) -> int
    decreases s.len() - i,
{
    if 0 <= i < s.len() && in_name(s[i]) {
        name_end(s, i + 1)
    } else {
        i
    }
}

/// Where a number ends that reaches at least to `i`.
pub open spec fn number_end(s: Seq<char>, i: int) -> int
    decreases s.len() - i,
{
    if 0 <= i < s.len() && in_number(s[i]) {
        number_end(s, i + 1)
    } else {
        i
    }
}

/// What a character stands for behind a backslash. Escapes that are none of
/// ours stay as they are, because regular expressions have their own.
pub open spec fn unescaped(c: char) -> Seq<char> {
    if c == 'n' {
        seq!['\n']
    } else if c == 't' {
        seq!['\t']
    } else if c == '"' || c == '\'' || c == '\\' {
        seq![c]
    } else {
        seq!['\\', c]
    }
}

/// The rest of a string literal from `i` on, behind `out`, and where it
/// ends.
pub open spec fn quoted(s: Seq<char>, i: int, quote: char, out: Seq<char>) -> Option<(Seq<char>, int)>
    decreases s.len() - i,
{
    if i < 0 || i >= s.len() {
        None
    } else if s[i] == quote {
        Some((out, i + 1))
    } else if s[i] == '\\' && i + 1 < s.len() {
        quoted(s, i + 2, quote, out + unescaped(s[i + 1]))
    } else {
        quoted(s, i + 1, quote, out.push(s[i]))
    }
}

/// The token of one or two characters at `i`, and how many it takes.
pub open spec fn mark(s: Seq<char>, i: int) -> Option<(TokenView, int)> {
    let c = s[i];
    let next = if i + 1 < s.len() {
        Some(s[i + 1])
    } else {
        None
    };
    if c == '=' && next == Some('~') {
        Some((TokenView::Re, 2))
    } else if c == '!' && next == Some('~') {
        Some((TokenView::NotRe, 2))
    } else if c == '!' && next == Some('=') {
        Some((TokenView::Ne, 2))
    } else if c == '=' && next == Some('=') {
        Some((TokenView::Eq, 2))
    } else if c == '=' {
        Some((TokenView::Eq, 1))
    } else if c == '(' {
        Some((TokenView::LParen, 1))
    } else if c == ')' {
        Some((TokenView::RParen, 1))
    } else if c == '{' {
        Some((TokenView::LBrace, 1))
    } else if c == '}' {
        Some((TokenView::RBrace, 1))
    } else if c == '[' {
        Some((TokenView::LBracket, 1))
    } else if c == ']' {
        Some((TokenView::RBracket, 1))
    } else if c == ',' {
        Some((TokenView::Comma, 1))
    } else if c == '+' {
        Some((TokenView::Plus, 1))
    } else if c == '-' {
        Some((TokenView::Minus, 1))
    } else if c == '*' {
        Some((TokenView::Star, 1))
    } else if c == '/' {
        Some((TokenView::Slash, 1))
    } else {
        None
    }
}

/// The token that starts at `i`, which is not white space, and where it
/// ends.
pub open spec fn token_at(s: Seq<char>, i: int) -> Result<(TokenView, int), Fault> {
    let c = s[i];
    if starts_name(c) {
        Ok((TokenView::Ident(s.subrange(i, name_end(s, i))), name_end(s, i)))
    } else if text::digit(c) {
        match decimal::spelled(s.subrange(i, number_end(s, i))) {
            Some(n) => Ok((TokenView::Number(n), number_end(s, i))),
            None => Err(Fault::BadNumber),
        }
    } else if c == '"' || c == '\'' {
        match quoted(s, i + 1, c, seq![]) {
            Some((value, end)) => Ok((TokenView::Text(value), end)),
            None => Err(Fault::UnterminatedString),
        }
    } else {
        match mark(s, i) {
            Some((token, width)) => Ok((token, i + width)),
            None => Err(Fault::UnexpectedCharacter(c)),
        }
    }
}

/// The tokens from `i` on, behind those in `out`.
pub open spec fn tokens_from(s: Seq<char>, i: int, out: Seq<TokenView>) -> Result<
    Seq<TokenView>,
    Fault,
>
    decreases
            (if i < s.len() {
                s.len() - i
            } else {
                0
            }),
{
    if i < 0 || i >= s.len() {
        Ok(out)
    } else if text::white(s[i]) {
        tokens_from(s, i + 1, out)
    } else {
        match token_at(s, i) {
            Err(e) => Err(e),
            Ok((token, end)) => tokens_from(
                s,
                if end > i {
                    end
                } else {
                    i + 1
                },
                out.push(token),
            ),
        }
    }
}

/// The tokens of a query.
pub open spec fn lexed(s: Seq<char>) -> Result<Seq<TokenView>, Fault> {
    tokens_from(s, 0, seq![])
}

fn name_stop(s: &[char], from: usize) -> (end: usize)
    requires
        from <= s@.len(),
    ensures
        end == name_end(s@, from as int),
        from <= end <= s@.len(),
{
    let mut i = from;
    while i < s.len() && (text::is_letter(s[i]) || text::is_digit(s[i]) || s[i] == '_' || s[i] == ':')
        invariant
            from <= i <= s@.len(),
            name_end(s@, from as int) == name_end(s@, i as int),
        decreases s@.len() - i,
    {
        i += 1;
    }
    i
}

fn number_stop(s: &[char], from: usize) -> (end: usize)
    requires
        from <= s@.len(),
    ensures
        end == number_end(s@, from as int),
        from <= end <= s@.len(),
{
    let mut i = from;
    while i < s.len() && (text::is_digit(s[i]) || s[i] == '.')
        invariant
            from <= i <= s@.len(),
            number_end(s@, from as int) == number_end(s@, i as int),
        decreases s@.len() - i,
    {
        i += 1;
    }
    i
}

/// Reads a string literal whose opening quote stands at `at`.
fn lex_string(s: &[char], at: usize) -> (r: Option<(String, usize)>)
    requires
        at < s@.len(),
    ensures
        match r {
            Some((value, end)) => quoted(s@, at + 1, s@[at as int], seq![]) == Some(
                (value@, end as int),
            ) && at < end <= s@.len(),
            None => quoted(s@, at + 1, s@[at as int], seq![]) is None,
        },
{
    let quote = s[at];
    let mut value = String::new();
    let mut i: usize = at + 1;
    while i < s.len() && s[i] != quote
        invariant
            at < i <= s@.len(),
            quoted(s@, at + 1, quote, seq![]) == quoted(s@, i as int, quote, value@),
        decreases s@.len() - i,
    {
        let ghost before = value@;
        if s[i] == '\\' && i + 1 < s.len() {
            i += 1;
            let c = s[i];
            if c == 'n' {
                value.push('\n');
            } else if c == 't' {
                value.push('\t');
            } else {
                if c != '"' && c != '\'' && c != '\\' {
                    value.push('\\');
                }
                value.push(c);
            }
            proof {
                assert(value@ =~= before + unescaped(c));
            }
        } else {
            value.push(s[i]);
        }
        i += 1;
    }
    if i >= s.len() {
        return None;
    }
    Some((value, i + 1))
}

/// Reads a token of one or two characters.
fn lex_mark(s: &[char], i: usize) -> (r: Option<(Token, usize)>)
    requires
        i < s@.len(),
    ensures
        match r {
            Some((token, width)) => mark(s@, i as int) == Some((token@, width as int)) && 0 < width
                && i + width <= s@.len(),
            None => mark(s@, i as int) is None,
        },
{
    let c = s[i];
    let next: Option<char> = if i + 1 < s.len() {
        Some(s[i + 1])
    } else {
        None
    };
    let twiddle = match next {
        Some(n) => n == '~',
        None => false,
    };
    let equals = match next {
        Some(n) => n == '=',
        None => false,
    };
    if c == '=' && twiddle {
        Some((Token::Re, 2))
    } else if c == '!' && twiddle {
        Some((Token::NotRe, 2))
    } else if c == '!' && equals {
        Some((Token::Ne, 2))
    } else if c == '=' && equals {
        Some((Token::Eq, 2))
    } else if c == '=' {
        Some((Token::Eq, 1))
    } else if c == '(' {
        Some((Token::LParen, 1))
    } else if c == ')' {
        Some((Token::RParen, 1))
    } else if c == '{' {
        Some((Token::LBrace, 1))
    } else if c == '}' {
        Some((Token::RBrace, 1))
    } else if c == '[' {
        Some((Token::LBracket, 1))
    } else if c == ']' {
        Some((Token::RBracket, 1))
    } else if c == ',' {
        Some((Token::Comma, 1))
    } else if c == '+' {
        Some((Token::Plus, 1))
    } else if c == '-' {
        Some((Token::Minus, 1))
    } else if c == '*' {
        Some((Token::Star, 1))
    } else if c == '/' {
        Some((Token::Slash, 1))
    } else {
        None
    }
}

/// Takes a query apart into tokens.
pub fn lex(input: &str) -> (r: Result<Vec<Token>, ParseError>)
    ensures
        match r {
            Ok(tokens) => lexed(input@) == Ok::<Seq<TokenView>, Fault>(token_views(tokens@)),
            Err(e) => lexed(input@) == Err::<Seq<TokenView>, Fault>(e@),
        },
{
    let held = text::chars_of(input);
    let chars = held.as_slice();
    let mut out: Vec<Token> = Vec::new();
    let mut i: usize = 0;
    proof {
        assert(token_views(out@) =~= seq![]);
    }
    while i < chars.len()
        invariant
            chars@ == input@,
            i <= chars@.len(),
            lexed(input@) == tokens_from(chars@, i as int, token_views(out@)),
        decreases chars@.len() - i,
    {
        let c = chars[i];
        if text::is_white(c) {
            i += 1;
            continue;
        }
        let ghost before = out@;
        let (token, end) = if text::is_letter(c) || c == '_' || c == ':' {
            let end = name_stop(chars, i + 1);
            let name = slice_subrange(chars, i, end);
            (Token::Ident(text::string_of(name)), end)
        } else if text::is_digit(c) {
            let end = number_stop(chars, i + 1);
            match decimal::parse_double(slice_subrange(chars, i, end)) {
                Some(n) => (Token::Number(n), end),
                None => return Err(ParseError::BadNumber),
            }
        } else if c == '"' || c == '\'' {
            match lex_string(chars, i) {
                Some((value, end)) => (Token::Text(value), end),
                None => return Err(ParseError::UnterminatedString),
            }
        } else {
            match lex_mark(chars, i) {
                Some((token, width)) => (token, i + width),
                None => return Err(ParseError::UnexpectedCharacter(c)),
            }
        };
        out.push(token);
        proof {
            assert(token_views(out@) =~= token_views(before).push(token@));
        }
        i = end;
    }
    Ok(out)
}

/// The token at a place, if there is one.
pub open spec fn found_at(ts: Seq<TokenView>, pos: int) -> Option<TokenView> {
    if 0 <= pos < ts.len() {
        Some(ts[pos])
    } else {
        None
    }
}

/// How many tokens are left.
pub open spec fn left(ts: Seq<TokenView>, pos: int) -> nat {
    if 0 <= pos < ts.len() {
        (ts.len() - pos) as nat
    } else {
        0
    }
}

/// A place behind `pos`: the one that was reached.
pub open spec fn later(pos: int, reached: int) -> int {
    if reached > pos {
        reached
    } else {
        pos + 1
    }
}

/// A place not before `pos`: the one that was reached.
pub open spec fn no_earlier(pos: int, reached: int) -> int {
    if reached > pos {
        reached
    } else {
        pos
    }
}

/// Steps over a token that has to be there.
pub open spec fn expected(ts: Seq<TokenView>, pos: int, want: TokenView) -> Result<int, Fault> {
    if found_at(ts, pos) == Some(want) {
        Ok(pos + 1)
    } else {
        Err(Fault::Expected(want, found_at(ts, pos)))
    }
}

/// The labels of a `by` clause from `pos` on, behind those in `out`, and
/// where the clause ends.
pub open spec fn by_labels(ts: Seq<TokenView>, pos: int, out: Seq<Seq<char>>) -> Result<
    (Seq<Seq<char>>, int),
    Fault,
>
    decreases left(ts, pos),
{
    match found_at(ts, pos) {
        Some(TokenView::Ident(label)) => match found_at(ts, pos + 1) {
            Some(TokenView::Comma) => by_labels(ts, pos + 2, out.push(label)),
            Some(TokenView::RParen) => Ok((out.push(label), pos + 2)),
            other => Err(Fault::ExpectedCommaInBy(other)),
        },
        Some(TokenView::RParen) => Ok((out, pos + 1)),
        other => Err(Fault::ExpectedLabelInBy(other)),
    }
}

/// A `by` clause, if one stands at `pos`.
pub open spec fn by_clause(ts: Seq<TokenView>, pos: int) -> Result<
    (Option<Seq<Seq<char>>>, int),
    Fault,
> {
    if found_at(ts, pos) == Some(TokenView::Ident("by"@)) {
        match expected(ts, pos + 1, TokenView::LParen) {
            Err(e) => Err(e),
            Ok(inside) => match by_labels(ts, inside, seq![]) {
                Err(e) => Err(e),
                Ok((labels, end)) => Ok((Some(labels), end)),
            },
        }
    } else {
        Ok((None, pos))
    }
}

/// A pattern anchored at both ends.
pub open spec fn anchored(value: Seq<char>) -> Seq<char> {
    "^(?:"@ + value + ")$"@
}

/// Whether a pattern is malformed.
pub open spec fn malformed(value: Seq<char>) -> bool {
    pattern_language(anchored(value)) is None
}

/// Whether a matcher's value is a pattern, which has to be compiled.
pub open spec fn compiled_for(op: MatchOp) -> bool {
    op == MatchOp::Re || op == MatchOp::NotRe
}

/// What a matcher that is written so asks for.
pub open spec fn matcher_of(label: Seq<char>, op: MatchOp, value: Seq<char>) -> MatcherView {
    MatcherView {
        label,
        op,
        value,
        regex: match op {
            MatchOp::Re | MatchOp::NotRe => pattern_language(anchored(value)),
            _ => None,
        },
    }
}

/// The operator of a matcher.
pub open spec fn match_op(token: Option<TokenView>) -> Option<MatchOp> {
    match token {
        Some(TokenView::Eq) => Some(MatchOp::Eq),
        Some(TokenView::Ne) => Some(MatchOp::Ne),
        Some(TokenView::Re) => Some(MatchOp::Re),
        Some(TokenView::NotRe) => Some(MatchOp::NotRe),
        _ => None,
    }
}

/// Matchers from `pos` on, behind those in `out`, up to and including the
/// closing brace. A pattern that is malformed, or one in `bad`, is refused
/// when it is reached.
pub open spec fn matcher_list(
    ts: Seq<TokenView>,
    pos: int,
    out: Seq<MatcherView>,
    bad: Set<Seq<char>>,
) -> Result<
    (Seq<MatcherView>, int),
    Fault,
>
    decreases left(ts, pos),
{
    match found_at(ts, pos) {
        Some(TokenView::Ident(label)) => match match_op(found_at(ts, pos + 1)) {
            None => Err(Fault::ExpectedOperator(found_at(ts, pos + 1))),
            Some(op) => match found_at(ts, pos + 2) {
                Some(TokenView::Text(value)) => if compiled_for(op) && (malformed(value)
                    || bad.contains(value)) {
                    Err(Fault::BadRegex(value))
                } else {
                    let more = out.push(matcher_of(label, op, value));
                    match found_at(ts, pos + 3) {
                        Some(TokenView::Comma) => matcher_list(ts, pos + 4, more, bad),
                        Some(TokenView::RBrace) => Ok((more, pos + 4)),
                        other => Err(Fault::ExpectedCommaInSelector(other)),
                    }
                },
                other => Err(Fault::ExpectedValue(other)),
            },
        },
        other => Err(Fault::ExpectedLabel(other)),
    }
}

/// The matchers behind an opening brace.
pub open spec fn matchers_in(ts: Seq<TokenView>, pos: int, bad: Set<Seq<char>>) -> Result<
    (Seq<MatcherView>, int),
    Fault,
> {
    if found_at(ts, pos) == Some(TokenView::RBrace) {
        Ok((seq![], pos + 1))
    } else {
        matcher_list(ts, pos, seq![], bad)
    }
}

/// The matchers at `pos`, if there are braces.
pub open spec fn braces(ts: Seq<TokenView>, pos: int, bad: Set<Seq<char>>) -> Result<
    (Seq<MatcherView>, int),
    Fault,
> {
    if found_at(ts, pos) == Some(TokenView::LBrace) {
        matchers_in(ts, pos + 1, bad)
    } else {
        Ok((seq![], pos))
    }
}

/// Whether a matcher says what the name has to be.
pub open spec fn names(m: MatcherView) -> bool {
    m.label == NAME_LABEL@ && m.op == MatchOp::Eq
}

/// A selector made of a name and matchers. One that says what the name has
/// to be takes the place of the name, so that the store can use its index.
pub open spec fn selector_of(name: Option<Seq<char>>, matchers: Seq<MatcherView>) -> SelectorView
    decreases matchers.len(),
{
    if matchers.len() == 0 {
        SelectorView { name, matchers: seq![] }
    } else {
        let before = selector_of(name, matchers.drop_last());
        let last = matchers.last();
        if names(last) {
            SelectorView { name: Some(last.value), matchers: before.matchers }
        } else {
            SelectorView { name: before.name, matchers: before.matchers.push(last) }
        }
    }
}

/// How many seconds a unit stands for.
pub open spec fn unit_seconds(unit: Seq<char>) -> Option<int> {
    if unit == "s"@ {
        Some(1)
    } else if unit == "m"@ {
        Some(60)
    } else if unit == "h"@ {
        Some(3600)
    } else if unit == "d"@ {
        Some(86400)
    } else {
        None
    }
}

/// A range in brackets, in seconds.
pub open spec fn window_at(ts: Seq<TokenView>, pos: int) -> Result<(i64, int), Fault> {
    match expected(ts, pos, TokenView::LBracket) {
        Err(e) => Err(e),
        Ok(inside) => match found_at(ts, inside) {
            Some(TokenView::Number(value)) => match found_at(ts, inside + 1) {
                Some(TokenView::Ident(unit)) => match expected(ts, inside + 2, TokenView::RBracket) {
                    Err(e) => Err(e),
                    Ok(end) => match unit_seconds(unit) {
                        Some(seconds) => Ok(
                            (double::truncated(double::product(value, double::of_int(seconds))), end),
                        ),
                        None => Err(Fault::UnsupportedUnit(unit)),
                    },
                },
                other => Err(Fault::ExpectedUnit(other)),
            },
            other => Err(Fault::ExpectedDuration(other)),
        },
    }
}

/// The window and the closing parenthesis of a rate over a selector.
pub open spec fn rate_over(ts: Seq<TokenView>, pos: int, selector: SelectorView) -> Result<
    (ExprView, int),
    Fault,
> {
    match window_at(ts, pos) {
        Err(e) => Err(e),
        Ok((window, behind)) => match expected(ts, behind, TokenView::RParen) {
            Err(e) => Err(e),
            Ok(end) => Ok((ExprView::Rate(selector, window), end)),
        },
    }
}

/// What stands behind the word `rate`.
pub open spec fn rate_at(ts: Seq<TokenView>, pos: int, bad: Set<Seq<char>>) -> Result<
    (ExprView, int),
    Fault,
> {
    match expected(ts, pos, TokenView::LParen) {
        Err(e) => Err(e),
        Ok(inside) => match found_at(ts, inside) {
            Some(TokenView::Ident(name)) => match braces(ts, inside + 1, bad) {
                Err(e) => Err(e),
                Ok((matchers, behind)) => rate_over(ts, behind, selector_of(Some(name), matchers)),
            },
            Some(TokenView::LBrace) => match matchers_in(ts, inside + 1, bad) {
                Err(e) => Err(e),
                Ok((matchers, behind)) => rate_over(ts, behind, selector_of(None, matchers)),
            },
            other => Err(Fault::ExpectedSelector(other)),
        },
    }
}

/// A binary operator and how tightly it binds.
pub open spec fn operator(token: Option<TokenView>) -> Option<(BinOp, nat)> {
    match token {
        Some(TokenView::Plus) => Some((BinOp::Add, 1)),
        Some(TokenView::Minus) => Some((BinOp::Sub, 1)),
        Some(TokenView::Star) => Some((BinOp::Mul, 2)),
        Some(TokenView::Slash) => Some((BinOp::Div, 2)),
        _ => None,
    }
}

/// An expression at `pos` whose operators bind at least as tightly as
/// `min`, and where it ends.
pub open spec fn expr_at(ts: Seq<TokenView>, pos: int, min: nat, bad: Set<Seq<char>>) -> Result<
    (ExprView, int),
    Fault,
>
    decreases left(ts, pos), 3nat,
{
    if found_at(ts, pos) is None {
        Err(Fault::UnexpectedToken(None))
    } else {
        match atom_at(ts, pos, bad) {
            Err(e) => Err(e),
            Ok((lhs, reached)) => climbed(ts, later(pos, reached), min, lhs, bad),
        }
    }
}

/// An expression that goes on at `pos`, behind its left side.
pub open spec fn climbed(
    ts: Seq<TokenView>,
    pos: int,
    min: nat,
    lhs: ExprView,
    bad: Set<Seq<char>>,
) -> Result<
    (ExprView, int),
    Fault,
>
    decreases left(ts, pos), 2nat,
{
    match operator(found_at(ts, pos)) {
        None => Ok((lhs, pos)),
        Some((op, binding)) => if binding < min {
            Ok((lhs, pos))
        } else {
            match expr_at(ts, pos + 1, binding + 1, bad) {
                Err(e) => Err(e),
                Ok((rhs, reached)) => climbed(
                    ts,
                    later(pos + 1, reached),
                    min,
                    ExprView::Binary(op, Box::new(lhs), Box::new(rhs)),
                    bad,
                ),
            }
        },
    }
}

/// What an operator works on, at `pos`, and where it ends.
pub open spec fn atom_at(ts: Seq<TokenView>, pos: int, bad: Set<Seq<char>>) -> Result<(ExprView, int), Fault>
    decreases left(ts, pos), 1nat,
{
    match found_at(ts, pos) {
        Some(TokenView::LParen) => match expr_at(ts, pos + 1, 0, bad) {
            Err(e) => Err(e),
            Ok((inner, behind)) => match expected(ts, behind, TokenView::RParen) {
                Err(e) => Err(e),
                Ok(end) => Ok((inner, end)),
            },
        },
        Some(TokenView::Number(n)) => Ok((ExprView::Number(n), pos + 1)),
        Some(TokenView::LBrace) => match matchers_in(ts, pos + 1, bad) {
            Err(e) => Err(e),
            Ok((matchers, end)) => Ok((ExprView::Selector(selector_of(None, matchers)), end)),
        },
        Some(TokenView::Ident(name)) => if name == "sum"@ {
            sum_at(ts, pos + 1, bad)
        } else if name == "rate"@ || name == "irate"@ {
            rate_at(ts, pos + 1, bad)
        } else {
            match braces(ts, pos + 1, bad) {
                Err(e) => Err(e),
                Ok((matchers, end)) => Ok(
                    (ExprView::Selector(selector_of(Some(name), matchers)), end),
                ),
            }
        },
        other => Err(Fault::UnexpectedToken(other)),
    }
}

/// What stands behind the word `sum`: the labels to sum by may come first
/// or last.
pub open spec fn sum_at(ts: Seq<TokenView>, pos: int, bad: Set<Seq<char>>) -> Result<(ExprView, int), Fault>
    decreases left(ts, pos), 4nat,
{
    match by_clause(ts, pos) {
        Err(e) => Err(e),
        Ok((leading, reached)) => match expected(ts, no_earlier(pos, reached), TokenView::LParen) {
            Err(e) => Err(e),
            Ok(inside) => match expr_at(ts, inside, 0, bad) {
                Err(e) => Err(e),
                Ok((inner, behind)) => match expected(ts, behind, TokenView::RParen) {
                    Err(e) => Err(e),
                    Ok(end) => match leading {
                        Some(by) => Ok((ExprView::Sum(Box::new(inner), Some(by)), end)),
                        None => match by_clause(ts, end) {
                            Err(e) => Err(e),
                            Ok((by, last)) => Ok((ExprView::Sum(Box::new(inner), by), last)),
                        },
                    },
                },
            },
        },
    }
}

/// The expression that tokens make, where the patterns in `bad` are
/// refused beside the malformed ones.
pub open spec fn parsed_tokens(ts: Seq<TokenView>, bad: Set<Seq<char>>) -> Result<ExprView, Fault> {
    match expr_at(ts, 0, 0, bad) {
        Err(e) => Err(e),
        Ok((expr, end)) => if end != ts.len() {
            Err(Fault::TrailingTokens)
        } else {
            Ok(expr)
        },
    }
}

/// The expression that a query asks for where the patterns in `bad` are
/// refused beside the malformed ones, or the first thing wrong with it: the
/// first such pattern that is reached, unless its form is at fault before.
pub open spec fn parsed_under(s: Seq<char>, bad: Set<Seq<char>>) -> Result<ExprView, Fault> {
    match lexed(s) {
        Err(e) => Err(e),
        Ok(ts) => parsed_tokens(ts, bad),
    }
}

/// The expression that a query asks for where no pattern is refused but the
/// malformed ones.
pub open spec fn parsed(s: Seq<char>) -> Result<ExprView, Fault> {
    parsed_under(s, Set::empty())
}

/// One pattern by itself.
pub open spec fn only(pattern: Seq<char>) -> Set<Seq<char>> {
    Set::empty().insert(pattern)
}

/// A pattern by itself where the compiler may refuse it though it is well
/// formed; a modest one leaves no such doubt.
pub open spec fn doubted(pattern: Seq<char>) -> Set<Seq<char>> {
    if modest(anchored(pattern)) {
        Set::empty()
    } else {
        only(pattern)
    }
}

/// The pattern that an outcome says was refused, if it says so of one that
/// may have been well formed.
pub open spec fn refusals<T>(got: Result<T, Fault>) -> Set<Seq<char>> {
    match got {
        Err(Fault::BadRegex(pattern)) => doubted(pattern),
        _ => Set::empty(),
    }
}

/// Whether a query has a matcher with this pattern.
pub open spec fn has_pattern(ts: Seq<TokenView>, pattern: Seq<char>) -> bool {
    exists|i: int|
        0 <= i && i + 1 < ts.len() && (ts[i] == TokenView::Re || ts[i] == TokenView::NotRe) && (
        #[trigger] ts[i + 1]) == TokenView::Text(pattern)
}

/// Whether what comes of refusing patterns is what would come of refusing
/// none, or is that one of them was met.
spec fn differs_by<T>(
    ts: Seq<TokenView>,
    bad: Set<Seq<char>>,
    none: Result<T, Fault>,
    some: Result<T, Fault>,
) -> bool {
    some == none || (some matches Err(Fault::BadRegex(pattern)) && bad.contains(pattern)
        && has_pattern(ts, pattern))
}

proof fn lemma_list_under(ts: Seq<TokenView>, pos: int, out: Seq<MatcherView>, bad: Set<Seq<char>>)
    ensures
        differs_by(
            ts,
            bad,
            matcher_list(ts, pos, out, Set::empty()),
            matcher_list(ts, pos, out, bad),
        ),
    decreases left(ts, pos),
{
    if let Some(TokenView::Ident(label)) = found_at(ts, pos) {
        if let Some(op) = match_op(found_at(ts, pos + 1)) {
            if let Some(TokenView::Text(value)) = found_at(ts, pos + 2) {
                if compiled_for(op) && !malformed(value) && bad.contains(value) {
                    assert(ts[pos + 1 + 1] == TokenView::Text(value));
                    assert(has_pattern(ts, value));
                } else if found_at(ts, pos + 3) == Some(TokenView::Comma) {
                    lemma_list_under(ts, pos + 4, out.push(matcher_of(label, op, value)), bad);
                }
            }
        }
    }
}

proof fn lemma_braces_under(ts: Seq<TokenView>, pos: int, bad: Set<Seq<char>>)
    ensures
        differs_by(ts, bad, matchers_in(ts, pos, Set::empty()), matchers_in(ts, pos, bad)),
        differs_by(ts, bad, braces(ts, pos, Set::empty()), braces(ts, pos, bad)),
{
    lemma_list_under(ts, pos, seq![], bad);
    lemma_list_under(ts, pos + 1, seq![], bad);
}

proof fn lemma_rate_under(ts: Seq<TokenView>, pos: int, bad: Set<Seq<char>>)
    ensures
        differs_by(ts, bad, rate_at(ts, pos, Set::empty()), rate_at(ts, pos, bad)),
{
    if let Ok(inside) = expected(ts, pos, TokenView::LParen) {
        lemma_braces_under(ts, inside + 1, bad);
    }
}

proof fn lemma_expr_under(ts: Seq<TokenView>, pos: int, min: nat, bad: Set<Seq<char>>)
    ensures
        differs_by(ts, bad, expr_at(ts, pos, min, Set::empty()), expr_at(ts, pos, min, bad)),
    decreases left(ts, pos), 3nat,
{
    if found_at(ts, pos) is Some {
        lemma_atom_under(ts, pos, bad);
        if let Ok((lhs, reached)) = atom_at(ts, pos, Set::empty()) {
            lemma_climbed_under(ts, later(pos, reached), min, lhs, bad);
        }
    }
}

proof fn lemma_climbed_under(
    ts: Seq<TokenView>,
    pos: int,
    min: nat,
    lhs: ExprView,
    bad: Set<Seq<char>>,
)
    ensures
        differs_by(
            ts,
            bad,
            climbed(ts, pos, min, lhs, Set::empty()),
            climbed(ts, pos, min, lhs, bad),
        ),
    decreases left(ts, pos), 2nat,
{
    if let Some((op, binding)) = operator(found_at(ts, pos)) {
        if binding >= min {
            lemma_expr_under(ts, pos + 1, binding + 1, bad);
            if let Ok((rhs, reached)) = expr_at(ts, pos + 1, binding + 1, Set::empty()) {
                lemma_climbed_under(
                    ts,
                    later(pos + 1, reached),
                    min,
                    ExprView::Binary(op, Box::new(lhs), Box::new(rhs)),
                    bad,
                );
            }
        }
    }
}

proof fn lemma_atom_under(ts: Seq<TokenView>, pos: int, bad: Set<Seq<char>>)
    ensures
        differs_by(ts, bad, atom_at(ts, pos, Set::empty()), atom_at(ts, pos, bad)),
    decreases left(ts, pos), 1nat,
{
    match found_at(ts, pos) {
        Some(TokenView::LParen) => lemma_expr_under(ts, pos + 1, 0, bad),
        Some(TokenView::LBrace) => lemma_braces_under(ts, pos + 1, bad),
        Some(TokenView::Ident(name)) => {
            lemma_braces_under(ts, pos + 1, bad);
            lemma_rate_under(ts, pos + 1, bad);
            if name == "sum"@ {
                lemma_sum_under(ts, pos + 1, bad);
            }
        },
        _ => {},
    }
}

proof fn lemma_sum_under(ts: Seq<TokenView>, pos: int, bad: Set<Seq<char>>)
    ensures
        differs_by(ts, bad, sum_at(ts, pos, Set::empty()), sum_at(ts, pos, bad)),
    decreases left(ts, pos), 4nat,
{
    if let Ok((_, reached)) = by_clause(ts, pos) {
        if let Ok(inside) = expected(ts, no_earlier(pos, reached), TokenView::LParen) {
            lemma_expr_under(ts, inside, 0, bad);
        }
    }
}

/// Refusing well formed patterns changes nothing of what a query comes to,
/// unless the query has one of them and is told so.
pub proof fn law_only_a_pattern_is_refused(s: Seq<char>, bad: Set<Seq<char>>)
    ensures
        parsed_under(s, bad) == parsed(s) || (parsed_under(s, bad) matches Err(Fault::BadRegex(pattern))
            && bad.contains(pattern) && (lexed(s) matches Ok(ts) && has_pattern(ts, pattern))),
{
    if let Ok(ts) = lexed(s) {
        lemma_expr_under(ts, 0, 0, bad);
    }
}

/// A query whose patterns are all modest comes to one thing, whatever the
/// compiler's limits.
pub proof fn law_modest_queries_come_to_one_thing(s: Seq<char>, got: Result<ExprView, Fault>)
    requires
        got == parsed_under(s, refusals(got)),
        forall|ts: Seq<TokenView>, pattern: Seq<char>|
            lexed(s) == Ok::<Seq<TokenView>, Fault>(ts) && #[trigger] has_pattern(ts, pattern)
                ==> modest(anchored(pattern)),
    ensures
        got == parsed(s),
{
    law_only_a_pattern_is_refused(s, refusals(got));
}

proof fn lemma_by_fault(ts: Seq<TokenView>, pos: int, out: Seq<Seq<char>>)
    ensures
        by_labels(ts, pos, out) matches Err(e) ==> !(e is BadRegex),
    decreases left(ts, pos),
{
    if let Some(TokenView::Ident(label)) = found_at(ts, pos) {
        if found_at(ts, pos + 1) == Some(TokenView::Comma) {
            lemma_by_fault(ts, pos + 2, out.push(label));
        }
    }
}

impl Token {
    /// Whether two tokens say the same.
    fn is(&self, other: &Token) -> (r: bool)
        ensures
            r == (self@ == other@),
    {
        match (self, other) {
            (Token::Ident(a), Token::Ident(b)) => text::same(a.as_str(), b.as_str()),
            (Token::Text(a), Token::Text(b)) => text::same(a.as_str(), b.as_str()),
            (Token::Number(a), Token::Number(b)) => *a == *b,
            (Token::LParen, Token::LParen) => true,
            (Token::RParen, Token::RParen) => true,
            (Token::LBrace, Token::LBrace) => true,
            (Token::RBrace, Token::RBrace) => true,
            (Token::LBracket, Token::LBracket) => true,
            (Token::RBracket, Token::RBracket) => true,
            (Token::Comma, Token::Comma) => true,
            (Token::Eq, Token::Eq) => true,
            (Token::Ne, Token::Ne) => true,
            (Token::Re, Token::Re) => true,
            (Token::NotRe, Token::NotRe) => true,
            (Token::Plus, Token::Plus) => true,
            (Token::Minus, Token::Minus) => true,
            (Token::Star, Token::Star) => true,
            (Token::Slash, Token::Slash) => true,
            _ => false,
        }
    }
}

/// The matcher that a label, an operator and a value make, once the pattern
/// of a `=~` or `!~` has been handed to the compiler of regular expressions.
pub fn matcher_with(
    label: String,
    op: MatchOp,
    value: String,
    compiled: Option<Result<Regex, regex_lite::Error>>,
) -> (r: Result<Matcher, ParseError>)
    ensures
        match compiled {
            None => r matches Ok(m) && m.label@ == label@ && m.op == op && m.value@ == value@
                && m.regex is None,
            Some(Ok(regex)) => r matches Ok(m) && m.label@ == label@ && m.op == op && m.value@
                == value@ && m.regex == Some(regex),
            Some(Err(e)) => r matches Err(ParseError::BadRegex(pattern, why)) && pattern@ == value@
                && why == e,
        },
{
    match compiled {
        None => Ok(Matcher { label, op, value, regex: None }),
        Some(Ok(regex)) => Ok(Matcher { label, op, value, regex: Some(regex) }),
        Some(Err(e)) => Err(ParseError::BadRegex(value, e)),
    }
}

/// A pattern anchored at both ends.
fn anchor(value: &str) -> (pattern: String)
    ensures
        pattern@ == anchored(value@),
{
    let mut pattern = "^(?:".to_owned();
    pattern.append(value);
    pattern.append(")$");
    pattern
}

/// Folds matchers into a selector.
pub fn selector_from(name: Option<String>, matchers: Vec<Matcher>) -> (selector: Selector)
    ensures
        selector@ == selector_of(text::some_text(name), matcher_views(matchers@)),
{
    let ghost first = text::some_text(name);
    let ghost all = matcher_views(matchers@);
    let mut name = name;
    let mut kept: Vec<Matcher> = Vec::with_capacity(matchers.len());
    proof {
        assert(matcher_views(kept@) =~= seq![]);
    }
    for matcher in it: matchers.into_iter()
        invariant
            it.seq() == matchers@,
            all == matcher_views(matchers@),
            selector_of(first, all.take(it.index())) == (SelectorView {
                name: text::some_text(name),
                matchers: matcher_views(kept@),
            }),
    {
        let ghost i = it.index();
        let ghost before = kept@;
        proof {
            assert(all.take(i + 1).drop_last() =~= all.take(i));
            assert(all.take(i + 1).last() == matcher@);
        }
        if text::same(matcher.label.as_str(), NAME_LABEL) && matcher.op == MatchOp::Eq {
            name = Some(matcher.value);
        } else {
            kept.push(matcher);
            proof {
                assert(matcher_views(kept@) =~= matcher_views(before).push(matcher@));
            }
        }
    }
    proof {
        assert(all.take(matchers@.len() as int) =~= all);
    }
    Selector { name, matchers: kept }
}

struct Parser {
    tokens: Vec<Token>,
    pos: usize,
}

impl Parser {
    spec fn ts(&self) -> Seq<TokenView> {
        token_views(self.tokens@)
    }

    /// Whether the place is among the tokens or right behind them.
    spec fn ok(&self) -> bool {
        self.pos <= self.tokens@.len()
    }

    fn next(&mut self) -> (r: Option<Token>)
        requires
            old(self).ok(),
        ensures
            final(self).ok(),
            final(self).tokens == old(self).tokens,
            found_view(r) == found_at(old(self).ts(), old(self).pos as int),
            final(self).pos == old(self).pos + if r is Some {
                1int
            } else {
                0
            },
    {
        if self.pos < self.tokens.len() {
            let token = self.tokens[self.pos].copy();
            self.pos += 1;
            Some(token)
        } else {
            None
        }
    }

    /// Whether a token comes next.
    fn at(&self, want: &Token) -> (r: bool)
        requires
            self.ok(),
        ensures
            r == (found_at(self.ts(), self.pos as int) == Some(want@)),
            r ==> self.pos < self.tokens@.len() && self.pos < usize::MAX,
    {
        self.pos < self.tokens.len() && self.tokens[self.pos].is(want)
    }

    fn expect(&mut self, want: Token) -> (r: Result<(), ParseError>)
        requires
            old(self).ok(),
        ensures
            final(self).ok(),
            final(self).tokens == old(self).tokens,
            final(self).pos >= old(self).pos,
            match r {
                Ok(()) => expected(old(self).ts(), old(self).pos as int, want@) == Ok::<int, Fault>(
                    final(self).pos as int,
                ),
                Err(e) => expected(old(self).ts(), old(self).pos as int, want@) == Err::<int, Fault>(
                    e@,
                ),
            },
    {
        match self.next() {
            Some(got) => if got.is(&want) {
                Ok(())
            } else {
                Err(ParseError::Expected(want, Some(got)))
            },
            None => Err(ParseError::Expected(want, None)),
        }
    }

    fn by_list(&mut self) -> (r: Result<Vec<String>, ParseError>)
        requires
            old(self).ok(),
        ensures
            final(self).ok(),
            final(self).tokens == old(self).tokens,
            final(self).pos >= old(self).pos,
            match r {
                Ok(labels) => by_labels(old(self).ts(), old(self).pos as int, seq![]) == Ok::<
                    (Seq<Seq<char>>, int),
                    Fault,
                >((name_views(labels@), final(self).pos as int)),
                Err(e) => by_labels(old(self).ts(), old(self).pos as int, seq![]) == Err::<
                    (Seq<Seq<char>>, int),
                    Fault,
                >(e@),
            },
    {
        let mut labels: Vec<String> = Vec::new();
        proof {
            assert(name_views(labels@) =~= seq![]);
        }
        loop
            invariant
                self.ok(),
                self.tokens == old(self).tokens,
                self.pos >= old(self).pos,
                by_labels(old(self).ts(), old(self).pos as int, seq![]) == by_labels(
                    old(self).ts(),
                    self.pos as int,
                    name_views(labels@),
                ),
            decreases self.tokens@.len() - self.pos,
        {
            let ghost before = labels@;
            match self.next() {
                Some(Token::Ident(label)) => {
                    labels.push(label);
                    proof {
                        assert(name_views(labels@) =~= name_views(before).push(label@));
                    }
                },
                Some(Token::RParen) => return Ok(labels),
                other => return Err(ParseError::ExpectedLabelInBy(other)),
            }
            match self.next() {
                Some(Token::Comma) => {},
                Some(Token::RParen) => return Ok(labels),
                other => return Err(ParseError::ExpectedCommaInBy(other)),
            }
        }
    }

    fn take_by(&mut self) -> (r: Result<Option<Vec<String>>, ParseError>)
        requires
            old(self).ok(),
        ensures
            final(self).ok(),
            final(self).tokens == old(self).tokens,
            final(self).pos >= old(self).pos,
            match r {
                Ok(by) => by_clause(old(self).ts(), old(self).pos as int) == Ok::<
                    (Option<Seq<Seq<char>>>, int),
                    Fault,
                >((super::by_view(by), final(self).pos as int)),
                Err(e) => by_clause(old(self).ts(), old(self).pos as int) == Err::<
                    (Option<Seq<Seq<char>>>, int),
                    Fault,
                >(e@) && !(e@ is BadRegex),
            },
    {
        let word = Token::Ident("by".to_owned());
        if !self.at(&word) {
            return Ok(None);
        }
        self.pos += 1;
        match self.expect(Token::LParen) {
            Ok(()) => {},
            Err(e) => return Err(e),
        }
        proof {
            lemma_by_fault(self.ts(), self.pos as int, seq![]);
        }
        match self.by_list() {
            Ok(labels) => Ok(Some(labels)),
            Err(e) => Err(e),
        }
    }

    /// Consumes matchers up to and including the closing brace.
    fn parse_matchers(&mut self) -> (r: Result<Vec<Matcher>, ParseError>)
        requires
            old(self).ok(),
        ensures
            final(self).ok(),
            final(self).tokens == old(self).tokens,
            final(self).pos >= old(self).pos,
            ({
                let got = match r {
                    Ok(matchers) => Ok((matcher_views(matchers@), final(self).pos as int)),
                    Err(e) => Err(e@),
                };
                got == matchers_in(old(self).ts(), old(self).pos as int, refusals(got))
            }),
    {
        let mut out: Vec<Matcher> = Vec::new();
        let ghost ts = self.ts();
        proof {
            assert(matcher_views(out@) =~= seq![]);
        }
        if self.at(&Token::RBrace) {
            self.pos += 1;
            return Ok(out);
        }
        loop
            invariant
                self.ok(),
                self.tokens == old(self).tokens,
                self.pos >= old(self).pos,
                ts == self.ts(),
                ts == old(self).ts(),
                matchers_in(ts, old(self).pos as int, Set::empty()) == matcher_list(
                    ts,
                    self.pos as int,
                    matcher_views(out@),
                    Set::empty(),
                ),
                forall|p: Seq<char>|
                    matchers_in(ts, old(self).pos as int, #[trigger] only(p)) == matcher_list(
                        ts,
                        self.pos as int,
                        matcher_views(out@),
                        only(p),
                    ) || matchers_in(ts, old(self).pos as int, only(p)) == Err::<
                        (Seq<MatcherView>, int),
                        Fault,
                    >(Fault::BadRegex(p)),
            decreases self.tokens@.len() - self.pos,
        {
            let label = match self.next() {
                Some(Token::Ident(label)) => label,
                other => return Err(ParseError::ExpectedLabel(other)),
            };
            let op = match self.next() {
                Some(Token::Eq) => MatchOp::Eq,
                Some(Token::Ne) => MatchOp::Ne,
                Some(Token::Re) => MatchOp::Re,
                Some(Token::NotRe) => MatchOp::NotRe,
                other => return Err(ParseError::ExpectedOperator(other)),
            };
            let value = match self.next() {
                Some(Token::Text(value)) => value,
                other => return Err(ParseError::ExpectedValue(other)),
            };
            let compiled = match op {
                MatchOp::Re | MatchOp::NotRe => {
                    let pattern = anchor(value.as_str());
                    Some(compile(pattern.as_str()))
                },
                _ => None,
            };
            let ghost before = out@;
            let ghost want = matcher_of(label@, op, value@);
            match matcher_with(label, op, value, compiled) {
                Ok(matcher) => {
                    out.push(matcher);
                    proof {
                        assert(matcher@ == want);
                        assert(matcher_views(out@) =~= matcher_views(before).push(want));
                    }
                },
                Err(e) => {
                    proof {
                        assert(e@ == Fault::BadRegex(want.value));
                        assert(only(want.value).contains(want.value));
                        assert(modest(anchored(want.value)) ==> malformed(want.value));
                    }
                    return Err(e);
                },
            }
            match self.next() {
                Some(Token::Comma) => {},
                Some(Token::RBrace) => return Ok(out),
                other => return Err(ParseError::ExpectedCommaInSelector(other)),
            }
        }
    }

    /// Consumes matchers if there are braces.
    fn take_braces(&mut self) -> (r: Result<Vec<Matcher>, ParseError>)
        requires
            old(self).ok(),
        ensures
            final(self).ok(),
            final(self).tokens == old(self).tokens,
            final(self).pos >= old(self).pos,
            ({
                let got = match r {
                    Ok(matchers) => Ok((matcher_views(matchers@), final(self).pos as int)),
                    Err(e) => Err(e@),
                };
                got == braces(old(self).ts(), old(self).pos as int, refusals(got))
            }),
    {
        if self.at(&Token::LBrace) {
            self.pos += 1;
            self.parse_matchers()
        } else {
            let none: Vec<Matcher> = Vec::new();
            proof {
                assert(matcher_views(none@) =~= seq![]);
            }
            Ok(none)
        }
    }

    fn parse_window(&mut self) -> (r: Result<i64, ParseError>)
        requires
            old(self).ok(),
        ensures
            final(self).ok(),
            final(self).tokens == old(self).tokens,
            final(self).pos >= old(self).pos,
            match r {
                Ok(window) => window_at(old(self).ts(), old(self).pos as int) == Ok::<
                    (i64, int),
                    Fault,
                >((window, final(self).pos as int)),
                Err(e) => window_at(old(self).ts(), old(self).pos as int) == Err::<
                    (i64, int),
                    Fault,
                >(e@),
            },
    {
        match self.expect(Token::LBracket) {
            Ok(()) => {},
            Err(e) => return Err(e),
        }
        // The lexer splits `1m` into a number and an identifier.
        let value = match self.next() {
            Some(Token::Number(n)) => n,
            other => return Err(ParseError::ExpectedDuration(other)),
        };
        let unit = match self.next() {
            Some(Token::Ident(unit)) => unit,
            other => return Err(ParseError::ExpectedUnit(other)),
        };
        match self.expect(Token::RBracket) {
            Ok(()) => {},
            Err(e) => return Err(e),
        }
        let seconds: i64 = if text::same(unit.as_str(), "s") {
            1
        } else if text::same(unit.as_str(), "m") {
            60
        } else if text::same(unit.as_str(), "h") {
            3600
        } else if text::same(unit.as_str(), "d") {
            86400
        } else {
            return Err(ParseError::UnsupportedUnit(unit));
        };
        Ok(double::to_int(double::times(value, double::from_int(seconds))))
    }

    /// Consumes the window and the closing parenthesis of a rate.
    fn finish_rate(&mut self, selector: Selector) -> (r: Result<Expr, ParseError>)
        requires
            old(self).ok(),
        ensures
            final(self).ok(),
            final(self).tokens == old(self).tokens,
            final(self).pos >= old(self).pos,
            match r {
                Ok(expr) => rate_over(old(self).ts(), old(self).pos as int, selector@) == Ok::<
                    (ExprView, int),
                    Fault,
                >((expr@, final(self).pos as int)),
                Err(e) => rate_over(old(self).ts(), old(self).pos as int, selector@) == Err::<
                    (ExprView, int),
                    Fault,
                >(e@),
            },
    {
        let window = match self.parse_window() {
            Ok(window) => window,
            Err(e) => return Err(e),
        };
        match self.expect(Token::RParen) {
            Ok(()) => {},
            Err(e) => return Err(e),
        }
        Ok(Expr::Rate(selector, window))
    }

    fn parse_rate(&mut self) -> (r: Result<Expr, ParseError>)
        requires
            old(self).ok(),
        ensures
            final(self).ok(),
            final(self).tokens == old(self).tokens,
            final(self).pos >= old(self).pos,
            ({
                let got = match r {
                    Ok(expr) => Ok((expr@, final(self).pos as int)),
                    Err(e) => Err(e@),
                };
                got == rate_at(old(self).ts(), old(self).pos as int, refusals(got))
            }),
    {
        match self.expect(Token::LParen) {
            Ok(()) => {},
            Err(e) => return Err(e),
        }
        match self.next() {
            Some(Token::Ident(name)) => {
                let matchers = match self.take_braces() {
                    Ok(matchers) => matchers,
                    Err(e) => return Err(e),
                };
                let selector = selector_from(Some(name), matchers);
                self.finish_rate(selector)
            },
            Some(Token::LBrace) => {
                let matchers = match self.parse_matchers() {
                    Ok(matchers) => matchers,
                    Err(e) => return Err(e),
                };
                let selector = selector_from(None, matchers);
                self.finish_rate(selector)
            },
            other => Err(ParseError::ExpectedSelector(other)),
        }
    }

    /// Precedence climbing. `+` and `-` bind at 1, `*` and `/` at 2 --
    /// enough for `A - (B + C)` and for the division in a few ratios.
    fn parse_expr(&mut self, min: u8) -> (r: Result<Expr, ParseError>)
        requires
            old(self).ok(),
            min <= 3,
        ensures
            final(self).ok(),
            final(self).tokens == old(self).tokens,
            r is Ok ==> final(self).pos > old(self).pos,
            ({
                let got = match r {
                    Ok(expr) => Ok((expr@, final(self).pos as int)),
                    Err(e) => Err(e@),
                };
                got == expr_at(old(self).ts(), old(self).pos as int, min as nat, refusals(got))
            }),
        decreases old(self).tokens@.len() - old(self).pos, 3nat,
    {
        let ghost ts = self.ts();
        let ghost start = self.pos as int;
        let mut lhs = match self.parse_atom() {
            Ok(expr) => expr,
            Err(e) => return Err(e),
        };
        proof {
            assert forall|p: Seq<char>|
                expr_at(ts, start, min as nat, #[trigger] only(p)) == climbed(
                    ts,
                    self.pos as int,
                    min as nat,
                    lhs@,
                    only(p),
                ) || expr_at(ts, start, min as nat, only(p)) == Err::<(ExprView, int), Fault>(
                    Fault::BadRegex(p),
                ) by {
                lemma_atom_under(ts, start, only(p));
            }
        }
        loop
            invariant
                self.ok(),
                min <= 3,
                self.tokens == old(self).tokens,
                ts == self.ts(),
                ts == old(self).ts(),
                self.pos > old(self).pos,
                start == old(self).pos,
                expr_at(ts, start, min as nat, Set::empty()) == climbed(
                    ts,
                    self.pos as int,
                    min as nat,
                    lhs@,
                    Set::empty(),
                ),
                forall|p: Seq<char>|
                    expr_at(ts, start, min as nat, #[trigger] only(p)) == climbed(
                        ts,
                        self.pos as int,
                        min as nat,
                        lhs@,
                        only(p),
                    ) || expr_at(ts, start, min as nat, only(p)) == Err::<(ExprView, int), Fault>(
                        Fault::BadRegex(p),
                    ),
            decreases self.tokens@.len() - self.pos,
        {
            if self.pos >= self.tokens.len() {
                return Ok(lhs);
            }
            let (op, binding): (BinOp, u8) = match &self.tokens[self.pos] {
                Token::Plus => (BinOp::Add, 1),
                Token::Minus => (BinOp::Sub, 1),
                Token::Star => (BinOp::Mul, 2),
                Token::Slash => (BinOp::Div, 2),
                _ => return Ok(lhs),
            };
            if binding < min {
                return Ok(lhs);
            }
            self.pos += 1;
            let ghost at = self.pos as int;
            let rhs = match self.parse_expr(binding + 1) {
                Ok(expr) => expr,
                Err(e) => return Err(e),
            };
            proof {
                assert forall|p: Seq<char>|
                    differs_by(
                        ts,
                        #[trigger] only(p),
                        expr_at(ts, at, (binding + 1) as nat, Set::empty()),
                        expr_at(ts, at, (binding + 1) as nat, only(p)),
                    ) by {
                    lemma_expr_under(ts, at, (binding + 1) as nat, only(p));
                }
            }
            lhs = Expr::Binary { op, lhs: Box::new(lhs), rhs: Box::new(rhs) };
        }
    }

    fn parse_atom(&mut self) -> (r: Result<Expr, ParseError>)
        requires
            old(self).ok(),
        ensures
            final(self).ok(),
            final(self).tokens == old(self).tokens,
            r is Ok ==> final(self).pos > old(self).pos,
            ({
                let got = match r {
                    Ok(expr) => Ok((expr@, final(self).pos as int)),
                    Err(e) => Err(e@),
                };
                got == atom_at(old(self).ts(), old(self).pos as int, refusals(got))
            }),
        decreases old(self).tokens@.len() - old(self).pos, 2nat,
    {
        match self.next() {
            Some(Token::LParen) => {
                let inner = match self.parse_expr(0) {
                    Ok(expr) => expr,
                    Err(e) => return Err(e),
                };
                match self.expect(Token::RParen) {
                    Ok(()) => Ok(inner),
                    Err(e) => Err(e),
                }
            },
            Some(Token::Number(n)) => Ok(Expr::Number(n)),
            // A bare `{...}` selector.
            Some(Token::LBrace) => {
                let matchers = match self.parse_matchers() {
                    Ok(matchers) => matchers,
                    Err(e) => return Err(e),
                };
                Ok(Expr::Selector(selector_from(None, matchers)))
            },
            Some(Token::Ident(name)) => {
                if text::same(name.as_str(), "sum") {
                    self.parse_sum()
                } else if text::same(name.as_str(), "rate") || text::same(name.as_str(), "irate") {
                    self.parse_rate()
                } else {
                    let matchers = match self.take_braces() {
                        Ok(matchers) => matchers,
                        Err(e) => return Err(e),
                    };
                    Ok(Expr::Selector(selector_from(Some(name), matchers)))
                }
            },
            other => Err(ParseError::UnexpectedToken(other)),
        }
    }

    /// `sum by (x) (expr)` and `sum(expr) by (x)` are both legal.
    fn parse_sum(&mut self) -> (r: Result<Expr, ParseError>)
        requires
            old(self).ok(),
        ensures
            final(self).ok(),
            final(self).tokens == old(self).tokens,
            r is Ok ==> final(self).pos > old(self).pos,
            ({
                let got = match r {
                    Ok(expr) => Ok((expr@, final(self).pos as int)),
                    Err(e) => Err(e@),
                };
                got == sum_at(old(self).ts(), old(self).pos as int, refusals(got))
            }),
        decreases old(self).tokens@.len() - old(self).pos, 4nat,
    {
        let leading = match self.take_by() {
            Ok(by) => by,
            Err(e) => return Err(e),
        };
        match self.expect(Token::LParen) {
            Ok(()) => {},
            Err(e) => return Err(e),
        }
        let inner = match self.parse_expr(0) {
            Ok(expr) => expr,
            Err(e) => return Err(e),
        };
        match self.expect(Token::RParen) {
            Ok(()) => {},
            Err(e) => return Err(e),
        }
        let by = match leading {
            Some(by) => Some(by),
            None => match self.take_by() {
                Ok(by) => by,
                Err(e) => return Err(e),
            },
        };
        Ok(Expr::Sum { expr: Box::new(inner), by })
    }
}

/// The view of what a query came to.
pub open spec fn parse_outcome(r: Result<Expr, ParseError>) -> Result<ExprView, Fault> {
    match r {
        Ok(expr) => Ok(expr@),
        Err(e) => Err(e@),
    }
}

/// Parses a query.
///
/// The form of a query decides what it asks for, or what is wrong with it.
/// Beyond that, a query fails where one of its patterns is malformed, and
/// can fail where one that is long or repeats by count is too large, if the
/// pattern is reached before the form is at fault.
pub fn parse(input: &str) -> (r: Result<Expr, ParseError>)
    ensures
        parse_outcome(r) == parsed_under(input@, refusals(parse_outcome(r))),
{
    let tokens = match lex(input) {
        Ok(tokens) => tokens,
        Err(e) => return Err(e),
    };
    let mut parser = Parser { tokens, pos: 0 };
    let expr = match parser.parse_expr(0) {
        Ok(expr) => expr,
        Err(e) => return Err(e),
    };
    if parser.pos != parser.tokens.len() {
        return Err(ParseError::TrailingTokens);
    }
    Ok(expr)
}

} // verus!
