//! The second grammar revision: a parenthesised parameter list is read as
//! a list of expressions that must all be names, a string literal does not
//! know the escape `\'`, and the entries of a map literal are read as a
//! comma-separated list.
use crate::ast::{ExprV, Expression};
use crate::engine::{parse_with, Input};
use crate::outside::string_from_chars;
use crate::scan;
use crate::syntax;
use crate::syntax::{Dialect, SyntaxError};
use vstd::prelude::*;

verus! {

/// Parses the whole of `input` as one expression (see `parser::parse`).
pub fn parse<'a>(input: &'a str) -> (r: Result<Expression<'a>, String>)
    ensures
        match r {
            Ok(e) => syntax::parse_result(Dialect::Combinator, input@) == Ok::<ExprV, Seq<char>>(
                e.deep_view(),
            ),
            Err(m) => syntax::parse_result(Dialect::Combinator, input@) == Err::<ExprV, Seq<char>>(
                m@,
            ),
        },
{
    parse_with(Dialect::Combinator, input)
}

/// Reads a string literal at the start of `input`: the rest after the
/// closing quote and the text the literal stands for.
pub fn string_literal<'a>(input: &'a str) -> (r: Result<(&'a str, String), SyntaxError<'a>>)
    ensures
        syntax::literal_answer(Dialect::Combinator, input@) == match r {
            Ok((rest, v)) => Ok((rest@, v@)),
            Err(e) => Err((e.input@, e.code)),
        },
{
    let inp = Input::new(input);
    let n = inp.cs.len();
    match scan::string_literal(Dialect::Combinator, &inp.cs, 0) {
        Ok((j, None)) => Ok((inp.slice(j, n), inp.slice(1, j - 1).to_owned())),
        Ok((j, Some(v))) => Ok((inp.slice(j, n), string_from_chars(v.as_slice()))),
        Err((j, code)) => Err(SyntaxError { input: inp.slice(j, n), code }),
    }
}

} // verus!
