//! The calls into nom and std that the parser makes, each with the
//! contract that the library relies on.
use crate::syntax::float_shape;
use nom::error::Error as NomError;
use nom::Parser;
use vstd::prelude::*;

verus! {

/// What nom displays for the abort of `recognize_float_or_exceptions` on a
/// text (an exponent letter without digits after it); the message holds a
/// copy of the text.
pub uninterp spec fn float_abort_text(text: Seq<char>) -> Seq<char>;

/// What nom displays for the error of `eof` on a text that is not empty.
pub uninterp spec fn eof_error_text(rest: Seq<char>) -> Seq<char>;

/// What nom displays for an input that ended where one more character was
/// needed.
pub open spec fn incomplete_text() -> Seq<char> {
    "Parsing requires 1 bytes/chars"@
}

/// Calls nom's `recognize_float_or_exceptions`, the recognizer through which
/// `double` reads a number (`double` converts the recognized text with
/// `str::parse`, which accepts every text this recognizer accepts). nom
/// tries `recognize_float` first: an optional sign, then digits with an
/// optional dot and optional digits, or a dot and digits, then optionally
/// `e` or `E`, an optional sign and digits, where missing digits after the
/// exponent letter abort (`cut`). Where `recognize_float` fails without
/// aborting, nom tries the words `nan`, `infinity` and `inf` with
/// `tag_no_case`, which compares lower-cased characters (no character but
/// the ASCII letters lower-cases to these letters). `float_shape` states
/// that grammar: on success the answer is the recognized prefix of `rest`;
/// on an abort it is nom's message, named `float_abort_text`.
#[verifier::external_body]
pub(crate) fn scan_float<'a>(rest: &'a str) -> (r: Result<&'a str, Option<String>>)
    ensures
        match r {
            Ok(t) => {
                &&& float_shape(rest@) == Ok::<nat, bool>(t@.len())
                &&& t@ == rest@.subrange(0, t@.len() as int)
            },
            Err(None) => float_shape(rest@) == Err::<nat, bool>(false),
            Err(Some(m)) => {
                &&& float_shape(rest@) == Err::<nat, bool>(true)
                &&& m@ == float_abort_text(rest@)
            },
        },
{
    match nom::number::complete::recognize_float_or_exceptions::<&str, NomError<&str>>(rest) {
        Ok((_, t)) => Ok(t),
        Err(nom::Err::Error(_)) => Err(None),
        Err(e) => Err(Some(e.to_string())),
    }
}

/// Calls nom's `eof` on the rest of the input: it succeeds exactly on an
/// empty rest; otherwise the answer is its error as nom displays it.
#[verifier::external_body]
pub(crate) fn expect_end(rest: &str) -> (r: Result<(), String>)
    ensures
        r is Ok <==> rest@.len() == 0,
        r matches Err(m) ==> m@ == eof_error_text(rest@),
{
    match nom::combinator::eof::<&str, NomError<&str>>(rest) {
        Ok(_) => Ok(()),
        Err(e) => Err(e.to_string()),
    }
}

/// Calls nom's streaming parser `character::char(',')`: on a rest that is
/// not empty it answers whether the rest starts with a comma; on an empty
/// rest it asks for one more character, and the answer is that request as
/// nom displays it.
#[verifier::external_body]
pub(crate) fn streaming_comma(rest: &str) -> (r: Result<bool, String>)
    ensures
        match r {
            Ok(b) => rest@.len() > 0 && b == (rest@[0] == ','),
            Err(m) => rest@.len() == 0 && m@ == incomplete_text(),
        },
{
    match nom::character::char::<&str, NomError<&str>>(',').parse(rest) {
        Ok(_) => Ok(true),
        Err(nom::Err::Error(_)) => Ok(false),
        Err(e) => Err(e.to_string()),
    }
}

/// Collects characters into a `String` with std's `FromIterator`: the
/// string holds exactly these characters.
#[verifier::external_body]
pub(crate) fn string_from_chars(cs: &[char]) -> (r: String)
    ensures
        r@ == cs@,
{
    String::from_iter(cs.iter())
}

} // verus!
