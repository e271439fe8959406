use std::borrow::Cow;

use jexpr::engine::{entry_list, expr_list, paren, Input, Step};
use jexpr::syntax::Dialect;
use jexpr::{combinator, parser, Expression, Literal, Number};

fn num(n: f64) -> Expression<'static> {
    Expression::literal(Literal::Number(Number {
        negative: n.is_sign_negative(),
        text: format!("{}", n.abs()),
    }))
}

fn names<'a>(items: &[Expression<'a>]) -> Vec<&'a str> {
    items.iter().map(|e| e.as_id().unwrap()).collect()
}

fn parsed_paren(d: Dialect, text: &str) -> Expression<'_> {
    match paren(d, &Input::new(text), 0) {
        Step::Parsed(_, e) => e,
        _ => panic!("not a parenthesised expression"),
    }
}

#[test]
fn combinator_test_comma_separated() {
    let input = Input::new("abc, def, ad,");
    let (rest, parsed) = expr_list(Dialect::Combinator, &input, 0);
    assert!(rest == input.cs.len());
    assert_eq!(names(&parsed), vec!["abc", "def", "ad"]);
}

#[test]
fn combinator_string_lit() {
    let (_, parsed) = combinator::string_literal("'abc'").unwrap();
    assert_eq!(parsed, "abc".to_string());
}

#[test]
fn combinator_test_comma_separated_fields() {
    let (_, parsed) = entry_list(Dialect::Combinator, &Input::new("'a': bc, b: 12"), 0);
    assert_eq!(
        parsed,
        vec![
            (Cow::Borrowed("a"), Expression::id("bc")),
            (Cow::Borrowed("b"), num(12.0)),
        ]
    );
}

#[test]
fn combinator_try_stuff() {
    let parsed = parsed_paren(Dialect::Combinator, "(abc)");
    assert_eq!(parsed, Expression::paren(Expression::id("abc")));
}

#[test]
fn parser_test_comma_separated() {
    let input = Input::new("abc, def, ad,");
    let (rest, parsed) = expr_list(Dialect::Parser, &input, 0);
    assert!(rest == input.cs.len());
    assert_eq!(names(&parsed), vec!["abc", "def", "ad"]);
}

#[test]
fn parser_string_lit() {
    let (_, parsed) = parser::string_literal("'abc'").unwrap();
    assert_eq!(parsed, "abc".to_string());
}

#[test]
fn parser_test_comma_separated_fields() {
    let (_, parsed) = entry_list(Dialect::Parser, &Input::new("'a': bc, b: 12"), 0);
    assert_eq!(
        parsed,
        vec![
            (Cow::Borrowed("a"), Expression::id("bc")),
            (Cow::Borrowed("b"), num(12.0)),
        ]
    );
}

#[test]
fn parser_try_stuff() {
    let parsed = parsed_paren(Dialect::Parser, "(abc)");
    assert_eq!(parsed, Expression::paren(Expression::id("abc")));
}
