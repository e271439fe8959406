//! The grammar revision that the crate root re-exports: a parenthesised
//! parameter list is read name by name, a string literal knows the escape
//! `\'`, and the entries of a map literal are read through an iterator that
//! asks for more input where the input ends right after an entry.
use crate::ast::{ExprV, Expression};
use crate::engine::{parse_with, Input};
use crate::outside::string_from_chars;
use crate::scan;
use crate::syntax;
use crate::syntax::{Dialect, SyntaxError};
use std::borrow::Cow;
use vstd::prelude::*;

verus! {

/// Parses the whole of `input` as one expression. Blanks around it are
/// skipped, and an input of blanks only is the empty expression. The error
/// is nom's message: for the unread rest of the input, or for what stopped
/// the parse.
pub fn parse<'a>(input: &'a str) -> (r: Result<Expression<'a>, String>)
    ensures
        match r {
            Ok(e) => syntax::parse_result(Dialect::Parser, input@) == Ok::<ExprV, Seq<char>>(
                e.deep_view(),
            ),
            Err(m) => syntax::parse_result(Dialect::Parser, input@) == Err::<ExprV, Seq<char>>(
                m@,
            ),
        },
{
    parse_with(Dialect::Parser, input)
}

/// Reads a string literal at the start of `input`. The answer is the rest
/// after the closing quote and the text the literal stands for, borrowed
/// from the input where the literal holds no escape.
pub fn string_literal<'a>(input: &'a str) -> (r: Result<(&'a str, Cow<'a, str>), SyntaxError<'a>>)
    ensures
        syntax::literal_answer(Dialect::Parser, input@) == match r {
            Ok((rest, v)) => Ok((rest@, v@)),
            Err(e) => Err((e.input@, e.code)),
        },
        r matches Ok((rest, v)) ==> (v is Borrowed <==> forall|k: int|
            0 < k < input@.len() - rest@.len() - 1 ==> input@[k] != '\\'),
{
    let inp = Input::new(input);
    let n = inp.cs.len();
    match scan::string_literal(Dialect::Parser, &inp.cs, 0) {
        Ok((j, None)) => Ok((inp.slice(j, n), Cow::Borrowed(inp.slice(1, j - 1)))),
        Ok((j, Some(v))) => Ok((inp.slice(j, n), Cow::Owned(string_from_chars(v.as_slice())))),
        Err((j, code)) => Err(SyntaxError { input: inp.slice(j, n), code }),
    }
}

} // verus!
