use std::borrow::Cow;

use jexpr::engine::{binary, entry_list, map_entry, postfix_steps, unary, Input, Step};
use jexpr::scan::escape_of;
use jexpr::iter::comma_separated_iter;
use jexpr::syntax::{Dialect, ErrorKind, SyntaxError};
use jexpr::{combinator, parser, AssignTarget, BinOp, Expression, Literal, Number, UnaryOp};

fn id(name: &'static str) -> Expression<'static> {
    Expression::id(name)
}

fn number(negative: bool, text: &str) -> Expression<'static> {
    Expression::literal(Literal::Number(Number { negative, text: text.to_string() }))
}

fn both(text: &str, expected: Expression<'_>) {
    assert_eq!(parser::parse(text).unwrap(), expected);
    assert_eq!(combinator::parse(text).unwrap(), expected);
}

#[test]
fn blank_input_is_the_empty_expression() {
    both("", Expression::empty());
    both(" \t  ", Expression::empty());
}

#[test]
fn blanks_around_an_expression_are_skipped() {
    both("  a  ", id("a"));
    both("\ta +\tb ", Expression::binary(id("a"), BinOp::Add, id("b")));
}

#[test]
fn binary_operators_of_one_level_group_to_the_left() {
    both(
        "a - b - c",
        Expression::binary(Expression::binary(id("a"), BinOp::Subtract, id("b")), BinOp::Subtract, id("c")),
    );
    both(
        "a * b / c % d",
        Expression::binary(
            Expression::binary(Expression::binary(id("a"), BinOp::Multiply, id("b")), BinOp::Divide, id("c")),
            BinOp::Modulo,
            id("d"),
        ),
    );
    both(
        "a |> b |> c",
        Expression::binary(Expression::binary(id("a"), BinOp::Pipe, id("b")), BinOp::Pipe, id("c")),
    );
}

#[test]
fn a_tighter_operator_binds_first() {
    both(
        "a || b && c",
        Expression::binary(id("a"), BinOp::LogicalOr, Expression::binary(id("b"), BinOp::LogicalAnd, id("c"))),
    );
    both(
        "a ?? b |> c",
        Expression::binary(Expression::binary(id("a"), BinOp::NullishCoalesce, id("b")), BinOp::Pipe, id("c")),
    );
    both(
        "a < b == c",
        Expression::binary(Expression::binary(id("a"), BinOp::LessThan, id("b")), BinOp::Equal, id("c")),
    );
    both(
        "a & b ^ c | d",
        Expression::binary(
            Expression::binary(Expression::binary(id("a"), BinOp::BitwiseAnd, id("b")), BinOp::BitwiseXor, id("c")),
            BinOp::BitwiseOr,
            id("d"),
        ),
    );
}

#[test]
fn assignment_and_ternary_group_to_the_right() {
    both(
        "a = b = c",
        Expression::binary(id("a"), BinOp::Assign, Expression::binary(id("b"), BinOp::Assign, id("c"))),
    );
    both(
        "a ? b : c ? d : e",
        Expression::ternary(id("a"), id("b"), Expression::ternary(id("c"), id("d"), id("e"))),
    );
}

#[test]
fn signs_fold_into_number_literals() {
    both("-2.5", number(true, "2.5"));
    both("--2", number(false, "2"));
    both("+7", number(false, "7"));
    both("!3", Expression::unary(UnaryOp::Not, number(false, "3")));
    both("-nan", number(true, "nan"));
    both("Infinity", number(false, "Infinity"));
}

#[test]
fn a_number_keeps_the_text_that_was_read() {
    both("1.50", number(false, "1.50"));
    both("2e3", number(false, "2e3"));
    assert_eq!(
        parser::parse("1.5x"),
        Err("Parsing Error: Error { input: \"x\", code: Eof }".to_string())
    );
}

#[test]
fn a_word_starting_with_inf_reads_as_a_number() {
    assert_eq!(
        parser::parse("info"),
        Err("Parsing Error: Error { input: \"o\", code: Eof }".to_string())
    );
}

#[test]
fn an_exponent_without_digits_stops_the_parse() {
    let expected = Err("Parsing Failure: Error { input: \"1e\", code: Float }".to_string());
    assert_eq!(parser::parse("1e"), expected);
    assert_eq!(combinator::parse("a + 1e"), expected);
}

#[test]
fn an_unread_rest_is_reported() {
    let expected = Err("Parsing Error: Error { input: \"b\", code: Eof }".to_string());
    assert_eq!(parser::parse("a b"), expected);
    assert_eq!(combinator::parse("a b"), expected);
    assert_eq!(
        parser::parse(")"),
        Err("Parsing Error: Error { input: \")\", code: Eof }".to_string())
    );
}

#[test]
fn custom_names_keep_what_stands_between_the_braces() {
    both("${a b}", Expression::custom_id("a b"));
    both("${}.x", Expression::getter(Expression::custom_id(""), "x"));
}

#[test]
fn a_later_map_entry_replaces_an_earlier_one() {
    both(
        "{a: 1, a: 2}",
        Expression::map(vec![(Cow::Borrowed("a"), number(false, "2"))]),
    );
    assert_eq!(
        combinator::parse("{b: 1, a: 2, b: 3,}").unwrap(),
        Expression::map(vec![
            (Cow::Borrowed("b"), number(false, "3")),
            (Cow::Borrowed("a"), number(false, "2")),
        ])
    );
    assert_eq!(
        Expression::map(vec![(Cow::Borrowed("k"), id("x")), (Cow::Borrowed("k"), id("y"))]),
        Expression::map(vec![(Cow::Borrowed("k"), id("y"))])
    );
}

#[test]
fn map_literals_hold_any_number_of_entries_and_one_trailing_comma() {
    let three = Expression::map(vec![
        (Cow::Borrowed("a"), number(false, "1")),
        (Cow::Borrowed("b"), number(false, "2")),
        (Cow::Borrowed("c"), number(false, "3")),
    ]);
    both("{a: 1, b: 2, c: 3}", three);
    both("{a: 1,}", Expression::map(vec![(Cow::Borrowed("a"), number(false, "1"))]));
    both("{a: 1, b: 2, c: 3, }", Expression::map(vec![
        (Cow::Borrowed("a"), number(false, "1")),
        (Cow::Borrowed("b"), number(false, "2")),
        (Cow::Borrowed("c"), number(false, "3")),
    ]));
    both("{}", Expression::map(vec![]));
    assert!(parser::parse("{a: 1,,}").is_err());
    assert!(combinator::parse("{a: 1,,}").is_err());
}

#[test]
fn parser_map_literal_ending_after_an_entry_asks_for_more() {
    assert_eq!(
        parser::parse("{a: 1"),
        Err("Parsing requires 1 bytes/chars".to_string())
    );
    assert_eq!(
        combinator::parse("{a: 1"),
        Err("Parsing Error: Error { input: \"{a: 1\", code: Eof }".to_string())
    );
}

#[test]
fn parameter_lists() {
    both("(a,) => a", Expression::arrow_func(vec!["a"], id("a")));
    both("(a, b, c) => c", Expression::arrow_func(vec!["a", "b", "c"], id("c")));
    assert_eq!(
        combinator::parse("(a, 1) => x"),
        Err("Parsing Error: Error { input: \"(a, 1) => x\", code: Eof }".to_string())
    );
    assert_eq!(
        combinator::parse("(1) => x"),
        Err("Parsing Error: Error { input: \"=> x\", code: Eof }".to_string())
    );
}

#[test]
fn string_literal_escapes() {
    assert_eq!(
        parser::string_literal("'a\\u'"),
        Err(SyntaxError { input: "\\u'", code: ErrorKind::Char })
    );
    let (rest, text) = parser::string_literal("'a\\nb\\t' rest").unwrap();
    assert_eq!(rest, " rest");
    assert_eq!(text, "a\nb\t");
    assert!(matches!(text, Cow::Owned(_)));
    let (rest, text) = parser::string_literal("\"plain\"!").unwrap();
    assert_eq!(rest, "!");
    assert!(matches!(text, Cow::Borrowed("plain")));
    assert_eq!(parser::string_literal("'it\\'s'").unwrap().1, "it's");
    assert_eq!(combinator::string_literal("\"a\\/b\\\\\"").unwrap(), ("", "a/b\\".to_string()));
}

#[test]
fn string_literal_errors() {
    assert_eq!(parser::string_literal("abc"), Err(SyntaxError { input: "abc", code: ErrorKind::Char }));
    assert_eq!(parser::string_literal("'ab"), Err(SyntaxError { input: "", code: ErrorKind::Eof }));
    assert_eq!(parser::string_literal("'a\\qb'"), Err(SyntaxError { input: "\\qb'", code: ErrorKind::Char }));
    assert_eq!(combinator::string_literal("''"), Ok(("", String::new())));
    assert_eq!(combinator::string_literal("'"), Err(SyntaxError { input: "", code: ErrorKind::Char }));
    assert_eq!(combinator::string_literal("'it\\'s'"), Err(SyntaxError { input: "\\'s'", code: ErrorKind::Char }));
    assert_eq!(parser::string_literal("''"), Ok(("", Cow::Borrowed(""))));
}

#[test]
fn empty_strings_are_literals() {
    both("''", Expression::literal(Literal::String(Cow::Borrowed(""))));
    both("\"\"", Expression::literal(Literal::String(Cow::Borrowed(""))));
}

#[test]
fn targets_convert_to_expressions_and_back() {
    let target = AssignTarget::Getter(id("a"), "b");
    let expr = Expression::from(target);
    assert_eq!(expr, Expression::getter(id("a"), "b"));
    assert_eq!(AssignTarget::try_from(expr), Ok(AssignTarget::Getter(id("a"), "b")));
    assert_eq!(AssignTarget::try_from(id("x")), Ok(AssignTarget::ID("x")));
    assert_eq!(AssignTarget::try_from(Expression::empty()), Err(Expression::empty()));
    assert_eq!(
        Expression::assign(AssignTarget::ID("x"), number(false, "1")),
        Expression::Assign(Box::new(AssignTarget::ID("x")), Box::new(number(false, "1")))
    );
}

#[test]
fn postfix_steps_chain_to_the_left() {
    both(
        "a.b[c](d).e",
        Expression::getter(
            Expression::invoke(Expression::index(Expression::getter(id("a"), "b"), Some(id("c"))), None, vec![id("d")]),
            "e",
        ),
    );
    assert_eq!(id("q").as_id(), Some("q"));
    assert_eq!(Expression::paren(id("q")).as_id(), None);
}

#[test]
fn prefix_operators_nest_to_the_right() {
    both(
        "!-a",
        Expression::unary(UnaryOp::Not, Expression::unary(UnaryOp::Minus, id("a"))),
    );
    both(
        "-+a",
        Expression::unary(UnaryOp::Minus, Expression::unary(UnaryOp::Plus, id("a"))),
    );
}

#[test]
fn precedence_without_blanks() {
    both(
        "a+b*c",
        Expression::binary(id("a"), BinOp::Add, Expression::binary(id("b"), BinOp::Multiply, id("c"))),
    );
    both(
        "a||b|c",
        Expression::binary(id("a"), BinOp::LogicalOr, Expression::binary(id("b"), BinOp::BitwiseOr, id("c"))),
    );
    both(
        "a|b||c",
        Expression::binary(Expression::binary(id("a"), BinOp::BitwiseOr, id("b")), BinOp::LogicalOr, id("c")),
    );
    both(
        "a&&b&c",
        Expression::binary(id("a"), BinOp::LogicalAnd, Expression::binary(id("b"), BinOp::BitwiseAnd, id("c"))),
    );
    both(
        "a|>b|c",
        Expression::binary(id("a"), BinOp::Pipe, Expression::binary(id("b"), BinOp::BitwiseOr, id("c"))),
    );
    both(
        "a===b!=c",
        Expression::binary(Expression::binary(id("a"), BinOp::StrictEqual, id("b")), BinOp::NotEqual, id("c")),
    );
}

#[test]
fn names_that_begin_like_literals() {
    assert_eq!(
        parser::parse("trueish"),
        Err("Parsing Error: Error { input: \"ish\", code: Eof }".to_string())
    );
    both("items", id("items"));
    both("nap", id("nap"));
}

#[test]
fn map_literals_compare_whatever_the_order_of_their_entries() {
    let parsed = combinator::parse("{b: 1, a: 2}").unwrap();
    assert_eq!(
        parsed,
        Expression::map(vec![
            (Cow::Borrowed("a"), number(false, "2")),
            (Cow::Borrowed("b"), number(false, "1")),
        ])
    );
    assert_eq!(parsed, parser::parse("{a: 2, b: 1}").unwrap());
    match parsed {
        Expression::MapLiteral(entries) => {
            let keys: Vec<&str> = entries.iter().map(|(k, _)| k.as_ref()).collect();
            assert_eq!(keys, vec!["a", "b"]);
        }
        _ => panic!("not a map literal"),
    }
}

#[test]
fn a_clone_equals_what_it_copies() {
    let parsed = parser::parse("{a: [1, 'x\\n'], b: c.d(e)[f]} ? (g) => -h : i = j").unwrap();
    assert_eq!(parsed.clone(), parsed);
    let target = AssignTarget::Getter(id("a"), "b");
    assert_eq!(target.clone(), target);
}


#[test]
fn numbers_take_every_shape_that_the_recognizer_knows() {
    both(".5", number(false, ".5"));
    both("7.", number(false, "7."));
    both("1E+2", number(false, "1E+2"));
    both("3.25e-10", number(false, "3.25e-10"));
    both("iNfInItY", number(false, "iNfInItY"));
    both("NaN", number(false, "NaN"));
    both("12 + 3", Expression::binary(number(false, "12"), BinOp::Add, number(false, "3")));
    assert_eq!(
        parser::parse("infinit"),
        Err("Parsing Error: Error { input: \"init\", code: Eof }".to_string())
    );
    assert_eq!(
        parser::parse("1.2.3"),
        Err("Parsing Error: Error { input: \".3\", code: Eof }".to_string())
    );
    assert_eq!(
        parser::parse("2e+"),
        Err("Parsing Failure: Error { input: \"2e+\", code: Float }".to_string())
    );
}

#[test]
fn a_prefix_operator_applies_after_blanks() {
    both("- a", Expression::unary(UnaryOp::Minus, id("a")));
    both("! (a)", Expression::unary(UnaryOp::Not, Expression::paren(id("a"))));
}

#[test]
fn an_operand_without_postfix_steps_is_kept() {
    both("a", id("a"));
    both("(a) + b", Expression::binary(Expression::paren(id("a")), BinOp::Add, id("b")));
    both("(a, b) => a", Expression::arrow_func(vec!["a", "b"], id("a")));
}

#[test]
fn escaping_then_reading_gives_the_text_back() {
    for raw in ["", "plain", "back\\slash", "say \"hi\"", "\\\"\\", "a'b"] {
        let escaped = raw.replace('\\', "\\\\").replace('"', "\\\"");
        let text = format!("\"{}\" tail", escaped);
        let (rest, read) = parser::string_literal(&text).unwrap();
        assert_eq!(rest, " tail");
        assert_eq!(read, raw);
        let (rest, read) = combinator::string_literal(&text).unwrap();
        assert_eq!(rest, " tail");
        assert_eq!(read, raw);
    }
}

#[test]
fn the_entry_iterator_stays_stopped() {
    let input = Input::new("a: 1, b: 2, c: 3 }");
    let mut it = comma_separated_iter(0);
    let mut keys = Vec::new();
    while let Some((k, _)) = it.next(Dialect::Parser, &input) {
        keys.push(k.into_owned());
    }
    assert_eq!(keys, vec!["a", "b", "c"]);
    assert!(it.next(Dialect::Parser, &input).is_none());
    assert!(it.next(Dialect::Parser, &input).is_none());
    assert_eq!(it.finish(), Ok(17));
}

#[test]
fn assignment_and_conditional_take_whole_expressions() {
    both(
        "x.y = a + b = c",
        Expression::binary(
            Expression::getter(id("x"), "y"),
            BinOp::Assign,
            Expression::binary(Expression::binary(id("a"), BinOp::Add, id("b")), BinOp::Assign, id("c")),
        ),
    );
    both(
        "a < b ? f(c) : d ? e : -1",
        Expression::ternary(
            Expression::binary(id("a"), BinOp::LessThan, id("b")),
            Expression::invoke(id("f"), None, vec![id("c")]),
            Expression::ternary(id("d"), id("e"), number(true, "1")),
        ),
    );
}

#[test]
fn map_keys_stay_borrowed_where_they_hold_no_escape() {
    let owned = Input::new("'a\\tb': 1");
    match map_entry(Dialect::Parser, &owned, 0) {
        Step::Parsed(_, (key, _)) => assert!(matches!(key, Cow::Owned(ref k) if k == "a\tb")),
        _ => panic!("no entry"),
    }
    let quoted = Input::new("'ab': 1");
    match map_entry(Dialect::Parser, &quoted, 0) {
        Step::Parsed(_, (key, _)) => assert!(matches!(key, Cow::Borrowed("ab"))),
        _ => panic!("no entry"),
    }
    match map_entry(Dialect::Combinator, &quoted, 0) {
        Step::Parsed(_, (key, _)) => assert!(matches!(key, Cow::Owned(ref k) if k == "ab")),
        _ => panic!("no entry"),
    }
    let name = Input::new("ab : 1");
    match map_entry(Dialect::Combinator, &name, 0) {
        Step::Parsed(_, (key, _)) => assert!(matches!(key, Cow::Borrowed("ab"))),
        _ => panic!("no entry"),
    }
    match parser::parse("{'x\\/': 1, \"x/\": 2}").unwrap() {
        Expression::MapLiteral(entries) => {
            assert_eq!(entries.len(), 1);
            assert!(matches!(entries[0].0, Cow::Owned(ref k) if k == "x/"));
            assert_eq!(entries[0].1, number(false, "2"));
        },
        _ => panic!("no map literal"),
    }
}

#[test]
fn entry_lists_say_which_keys_are_borrowed() {
    let input = Input::new("a: 1, 'b\\n': 2, \"c\": 3");
    let (_, entries) = entry_list(Dialect::Parser, &input, 0);
    let flags: Vec<bool> = entries.iter().map(|e| matches!(e.0, Cow::Borrowed(_))).collect();
    assert_eq!(flags, vec![true, false, true]);
    let (_, entries) = entry_list(Dialect::Combinator, &input, 0);
    let flags: Vec<bool> = entries.iter().map(|e| matches!(e.0, Cow::Borrowed(_))).collect();
    assert_eq!(flags, vec![true, false, false]);
    let mut it = comma_separated_iter(0);
    let first = it.next(Dialect::Parser, &input).unwrap();
    assert!(matches!(first.0, Cow::Borrowed("a")));
    let second = it.next(Dialect::Parser, &input).unwrap();
    assert!(matches!(second.0, Cow::Owned(ref k) if k == "b\n"));
}

#[test]
fn grammar_levels_can_be_called_on_their_own() {
    let input = Input::new("-x + y");
    match unary(Dialect::Parser, &input, 0) {
        Step::Parsed(k, e) => {
            assert_eq!(k, 3);
            assert_eq!(e, Expression::unary(UnaryOp::Minus, id("x")));
        },
        _ => panic!("no operand"),
    }
    let chain = Input::new("a | b | c");
    match binary(Dialect::Combinator, &chain, 0, 4) {
        Step::Parsed(k, e) => {
            assert_eq!(k, 9);
            assert_eq!(
                e,
                Expression::binary(Expression::binary(id("a"), BinOp::BitwiseOr, id("b")), BinOp::BitwiseOr, id("c"))
            );
        },
        _ => panic!("no chain"),
    }
    let steps = Input::new(".b(c) + d");
    match postfix_steps(Dialect::Parser, &steps, 0, id("a")) {
        Step::Parsed(k, e) => {
            assert_eq!(k, 6);
            assert_eq!(e, Expression::invoke(id("a"), Some("b"), vec![id("c")]));
        },
        _ => panic!("no steps"),
    }
    let none = Input::new(" + d");
    assert!(matches!(postfix_steps(Dialect::Parser, &none, 0, id("a")), Step::Parsed(0, _)));
    assert_eq!(escape_of(Dialect::Parser, 'n'), Some('\n'));
    assert_eq!(escape_of(Dialect::Parser, 'u'), None);
    assert_eq!(escape_of(Dialect::Combinator, '\''), None);
}

#[test]
fn a_map_literal_keeps_each_key_as_it_was_first_read() {
    match combinator::parse("{b: 1, 'a': 2, b: 3}").unwrap() {
        Expression::MapLiteral(entries) => {
            assert_eq!(entries.len(), 2);
            assert!(matches!(entries[0].0, Cow::Owned(ref k) if k == "a"));
            assert!(matches!(entries[1].0, Cow::Borrowed("b")));
            assert_eq!(entries[1].1, number(false, "3"));
        },
        _ => panic!("no map literal"),
    }
}
