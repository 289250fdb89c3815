//! What a query may look like, and what is said of one that may not.

use kubeloupe::promql::parser::{lex, matcher_with, parse, selector_from, ParseError, Token};
use kubeloupe::promql::{BinOp, Expr, MatchOp};
use kubeloupe::text;

#[test]
fn every_way_a_query_can_be_wrong_is_told_apart() {
    assert!(matches!(parse("a ; b"), Err(ParseError::UnexpectedCharacter(';'))));
    assert!(matches!(parse("1.2.3"), Err(ParseError::BadNumber)));
    assert!(matches!(parse("x{a=\"b"), Err(ParseError::UnterminatedString)));
    assert!(matches!(parse("a b"), Err(ParseError::TrailingTokens)));
    assert!(matches!(
        parse("sum(x"),
        Err(ParseError::Expected(Token::RParen, None))
    ));
    assert!(matches!(
        parse("(x]"),
        Err(ParseError::Expected(Token::RParen, Some(Token::RBracket)))
    ));
    assert!(matches!(
        parse("+"),
        Err(ParseError::UnexpectedToken(Some(Token::Plus)))
    ));
    assert!(matches!(parse(""), Err(ParseError::UnexpectedToken(None))));
    assert!(matches!(
        parse("sum(x) by (1)"),
        Err(ParseError::ExpectedLabelInBy(Some(Token::Number(_))))
    ));
    assert!(matches!(
        parse("sum(x) by (a b)"),
        Err(ParseError::ExpectedCommaInBy(Some(Token::Ident(_))))
    ));
    assert!(matches!(
        parse("rate(1)"),
        Err(ParseError::ExpectedSelector(Some(Token::Number(_))))
    ));
    assert!(matches!(
        parse("rate(x[m])"),
        Err(ParseError::ExpectedDuration(Some(Token::Ident(_))))
    ));
    assert!(matches!(
        parse("rate(x[5])"),
        Err(ParseError::ExpectedUnit(Some(Token::RBracket)))
    ));
    assert!(matches!(parse("rate(x[5y])"), Err(ParseError::UnsupportedUnit(u)) if u == "y"));
    assert!(matches!(
        parse("x{1}"),
        Err(ParseError::ExpectedLabel(Some(Token::Number(_))))
    ));
    assert!(matches!(
        parse("x{a 1}"),
        Err(ParseError::ExpectedOperator(Some(Token::Number(_))))
    ));
    assert!(matches!(
        parse("x{a=1}"),
        Err(ParseError::ExpectedValue(Some(Token::Number(_))))
    ));
    assert!(matches!(
        parse("x{a=\"b\" c=\"d\"}"),
        Err(ParseError::ExpectedCommaInSelector(Some(Token::Ident(_))))
    ));
    assert!(matches!(parse("x{a=~\"(\"}"), Err(ParseError::BadRegex(p, _)) if p == "("));
}

#[test]
fn functions_outside_the_subset_are_refused() {
    for query in [
        "avg(x)",
        "topk(3, x)",
        "x offset 5m",
        "histogram_quantile(0.9, x)",
        "rate(x[5m:1m])",
    ] {
        assert!(parse(query).is_err(), "{query}");
    }
}

#[test]
fn a_refused_pattern_is_handed_on_with_what_was_said_of_it() {
    let why = match regex_lite::Regex::new("(") {
        Err(why) => why,
        Ok(_) => panic!("an open group compiles"),
    };
    let r = matcher_with("a".to_string(), MatchOp::Re, "(".to_string(), Some(Err(why)));
    assert!(matches!(r, Err(ParseError::BadRegex(p, _)) if p == "("));
    let regex = regex_lite::Regex::new("^(?:b)$").expect("compiles");
    let m = matcher_with("a".to_string(), MatchOp::Re, "b".to_string(), Some(Ok(regex)))
        .expect("a matcher");
    assert!(m.matches("b"));
    assert!(!m.matches("bb"));
    let m = matcher_with("a".to_string(), MatchOp::Ne, "b".to_string(), None).expect("a matcher");
    assert!(m.matches("bb"));
    assert!(!m.matches("b"));
}

#[test]
fn the_first_fault_that_is_reached_is_told() {
    let refused = |query: &str, pattern: &str| match parse(query) {
        Err(ParseError::BadRegex(p, _)) => assert_eq!(p, pattern, "{query}"),
        _ => panic!("{query}"),
    };
    refused("x{a=~\"(\" b=\"c\"}", "(");
    refused("x{a=~\"(\",b=~\"[\"}", "(");
    refused("sum(x{a=~\"(\"} by", "(");
    refused("x{a!~\"[\"} + y{a=~\"(\"}", "[");
    assert!(matches!(
        parse("x{a=\"b\" c=~\"(\"}"),
        Err(ParseError::ExpectedCommaInSelector(Some(Token::Ident(_))))
    ));
    assert!(matches!(
        parse("x{a=\"(\"} y{a=~\"(\"}"),
        Err(ParseError::TrailingTokens)
    ));
    assert!(matches!(
        parse("+ x{a=~\"(\"}"),
        Err(ParseError::UnexpectedToken(Some(Token::Plus)))
    ));
    // What is not even a token is told before anything is read.
    assert!(matches!(
        parse("x{a=~\"(\"} ;"),
        Err(ParseError::UnexpectedCharacter(';'))
    ));
}

#[test]
fn a_pattern_is_refused_if_it_is_malformed_or_too_large() {
    for pattern in ["(", "a)", "[", "*", "a**)", "(?<n>a)(?<n>b)", "[b-a]"] {
        let query = format!("x{{a=~\"{pattern}\"}}");
        assert!(matches!(parse(&query), Err(ParseError::BadRegex(p, _)) if p == pattern), "{query}");
    }
    // Well formed, and short enough whatever they hold.
    let long = "(a|b*)+?[^c]".repeat(300);
    let empty = "|".repeat(4_000);
    let wide = format!("(?i)[{}]", "\\\\W".repeat(1_000));
    for pattern in ["", "a|b", ".*", long.as_str(), empty.as_str(), wide.as_str()] {
        assert!(parse(&format!("x{{a=~\"{pattern}\"}}")).is_ok(), "{pattern}");
    }
    // Well formed, and far too large.
    let query = "x{a=~\"(a{1000}){1000}\"}";
    assert!(matches!(parse(query), Err(ParseError::BadRegex(_, _))));
}

#[test]
fn patterns_are_anchored_at_both_ends() {
    let matches = |query: &str, value: &str| match parse(query) {
        Ok(Expr::Selector(selector)) => selector.matchers[0].matches(value),
        _ => panic!("{query} is no selector"),
    };
    assert!(matches("x{pod=~\"web\"}", "web"));
    assert!(!matches("x{pod=~\"web\"}", "web-2"));
    assert!(!matches("x{pod=~\"web\"}", "a-web"));
    // An alternative is anchored as a whole.
    assert!(!matches("x{pod=~\"a|b\"}", "ab"));
    assert!(matches("x{pod=~\"a|b\"}", "b"));
    assert!(matches("x{pod!~\"a|b\"}", "ab"));
    assert!(!matches("x{pod!~\"a|b\"}", "a"));
}

#[test]
fn a_name_in_the_braces_is_the_name() {
    let selector = match parse("{__name__=\"up\",job=\"x\"}") {
        Ok(Expr::Selector(selector)) => selector,
        _ => panic!("no selector"),
    };
    assert_eq!(selector.name.as_deref(), Some("up"));
    let bare = selector_from(Some("up".to_string()), Vec::new());
    assert_eq!(bare.name.as_deref(), Some("up"));
    let many = match parse("{__name__=~\"up|down\"}") {
        Ok(Expr::Selector(selector)) => selector,
        _ => panic!("no selector"),
    };
    assert_eq!(many.name, None);
}

#[test]
fn products_bind_tighter_than_sums_and_both_to_the_left() {
    let expr = parse("a - b - c * d").expect("parses");
    match expr {
        Expr::Binary { op: BinOp::Sub, lhs, rhs } => {
            assert!(matches!(*lhs, Expr::Binary { op: BinOp::Sub, .. }));
            assert!(matches!(*rhs, Expr::Binary { op: BinOp::Mul, .. }));
        }
        other => panic!("{other:?}"),
    }
}

#[test]
fn a_by_clause_may_stand_on_either_side() {
    for query in ["sum(x) by (a, b)", "sum by (a, b) (x)", "sum by (a,b,) (x)"] {
        match parse(query).expect(query) {
            Expr::Sum { by: Some(by), .. } => assert_eq!(by, ["a", "b"], "{query}"),
            other => panic!("{query}: {other:?}"),
        }
    }
    assert!(matches!(
        parse("sum(x)").expect("parses"),
        Expr::Sum { by: None, .. }
    ));
}

#[test]
fn windows_are_measured_in_seconds() {
    for (query, want) in [
        ("rate(x[30s])", 30),
        ("rate(x[1m])", 60),
        ("irate(x[2h])", 7_200),
        ("rate({a=\"b\"}[1d])", 86_400),
    ] {
        match parse(query).expect(query) {
            Expr::Rate(_, window) => assert_eq!(window, want, "{query}"),
            other => panic!("{query}: {other:?}"),
        }
    }
}

#[test]
fn escapes_in_a_string_are_undone() {
    let tokens = lex("\"a\\\"b\\\\d\" 'c'").expect("lexes");
    assert!(matches!(&tokens[0], Token::Text(s) if s == "a\"b\\d"));
    assert!(matches!(&tokens[1], Token::Text(s) if s == "c"));
    assert_eq!(tokens.len(), 2);
    let tokens = lex("1.5 != =~ !~").expect("lexes");
    assert!(matches!(tokens[0], Token::Number(n) if n == 1.5f64.to_bits()));
    assert!(matches!(tokens[1], Token::Ne));
    assert!(matches!(tokens[2], Token::Re));
    assert!(matches!(tokens[3], Token::NotRe));
}

#[test]
fn each_operator_decides_by_its_own_test() {
    assert!(MatchOp::Eq.decide(true, false));
    assert!(!MatchOp::Ne.decide(true, true));
    assert!(MatchOp::Re.decide(false, true));
    assert!(MatchOp::NotRe.decide(true, false));
}

#[test]
fn text_is_taken_apart_and_put_together() {
    assert_eq!(text::order("a", "b"), text::Order::Before);
    assert_eq!(text::order("ab", "a"), text::Order::After);
    assert_eq!(text::order("é", "é"), text::Order::Same);
    assert!(text::same("x", "x") && !text::same("x", "y"));
    let chars = text::chars_of(" aé ");
    assert_eq!(chars, [' ', 'a', 'é', ' ']);
    assert_eq!(text::string_of(text::trim(&chars)), "aé");
    assert!(text::is_digit('7') && !text::is_digit('a'));
    assert!(text::is_letter('z') && !text::is_letter('_'));
    for c in ['\u{9}', ' ', '\u{85}', '\u{a0}', '\u{2003}', '\u{3000}', 'x', '\u{200b}'] {
        assert_eq!(text::is_white(c), c.is_whitespace(), "{c:?}");
    }
}
