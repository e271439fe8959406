//! The grammar, stated as functions on the character sequence of the input.
//!
//! Every grammar function reads the input `s` from position `i` on and
//! answers with an `Outcome`: the position just after what it read together
//! with the value read, a mismatch (the next alternative may be tried), or an
//! abort that no alternative recovers from, carrying the message that
//! `parse` reports.
use crate::ast::{BinOp, ExprV, LiteralV, UnaryOp};
use crate::outside::{eof_error_text, float_abort_text, incomplete_text};
use vstd::prelude::*;

verus! {

/// The two revisions of the grammar. They differ in parenthesised arrow
/// functions, in string literals and in map literals.
#[derive(Debug, Clone, Copy, PartialEq, Eq, Structural)]
pub enum Dialect {
    /// The grammar of module `parser`.
    Parser,
    /// The grammar of module `combinator`.
    Combinator,
}

pub enum Outcome<T> {
    Parsed(int, T),
    Mismatch,
    Abort(Seq<char>),
}

impl<T> Outcome<T> {
    /// The outcome, kept only where it reports a position from `i` to `n`.
    /// Every grammar function, started at a position `i` from 0 on, only ever
    /// reports such positions; reading
    /// sub-results through `within` keeps the definitions well founded.
    pub open spec fn within(self, i: int, n: int) -> Outcome<T> {
        match self {
            Outcome::Parsed(j, v) => if 0 <= i <= j <= n {
                self
            } else {
                Outcome::Mismatch
            },
            _ => self,
        }
    }
}

/// Classes of characters that the lexer skips or collects in runs.
#[derive(Debug, Clone, Copy, PartialEq, Eq, Structural)]
pub enum CharClass {
    /// Blanks: space and tab.
    Space,
    /// ASCII letters and digits.
    Alnum,
    /// ASCII digits.
    Digit,
    /// Anything but a closing brace.
    NotBrace,
    /// Anything but the given quote and the backslash.
    Plain(char),
}

pub open spec fn is_space(c: char) -> bool {
    c == ' ' || c == '\t'
}

pub open spec fn is_alpha(c: char) -> bool {
    ('a' <= c && c <= 'z') || ('A' <= c && c <= 'Z')
}

pub open spec fn is_digit(c: char) -> bool {
    '0' <= c && c <= '9'
}

pub open spec fn is_alnum(c: char) -> bool {
    is_alpha(c) || is_digit(c)
}

pub open spec fn class_has(k: CharClass, c: char) -> bool {
    match k {
        CharClass::Space => is_space(c),
        CharClass::Alnum => is_alnum(c),
        CharClass::Digit => is_digit(c),
        CharClass::NotBrace => c != '}',
        CharClass::Plain(q) => c != q && c != '\\',
    }
}

/// The end of the run of characters of class `k` that starts at `i`.
pub open spec fn run_end(s: Seq<char>, i: int, k: CharClass) -> int
    decreases s.len() - i,
{
    if 0 <= i < s.len() && class_has(k, s[i]) {
        run_end(s, i + 1, k)
    } else {
        i
    }
}

pub proof fn lemma_run_end(s: Seq<char>, i: int, k: CharClass)
    requires
        0 <= i <= s.len(),
    ensures
        i <= run_end(s, i, k) <= s.len(),
        forall|m: int| i <= m < run_end(s, i, k) ==> class_has(k, #[trigger] s[m]),
        run_end(s, i, k) < s.len() ==> !class_has(k, s[run_end(s, i, k)]),
    decreases s.len() - i,
{
    if i < s.len() && class_has(k, s[i]) {
        lemma_run_end(s, i + 1, k);
    }
}

/// Does `p` stand in `s` at `i`?
pub open spec fn occurs_at(s: Seq<char>, i: int, p: Seq<char>) -> bool {
    0 <= i && i + p.len() <= s.len() && s.subrange(i, i + p.len()) == p
}

/// A token: the text `p` followed by blanks, which are skipped.
pub open spec fn tok(s: Seq<char>, i: int, p: Seq<char>) -> Option<int> {
    if occurs_at(s, i, p) {
        Some(run_end(s, i + p.len(), CharClass::Space))
    } else {
        None
    }
}

/// A one-character token.
pub open spec fn tokc(s: Seq<char>, i: int, c: char) -> Option<int> {
    tok(s, i, seq![c])
}

pub proof fn lemma_tok(s: Seq<char>, i: int, p: Seq<char>)
    requires
        0 <= i <= s.len(),
    ensures
        tok(s, i, p) matches Some(j) ==> i + p.len() <= j <= s.len(),
{
    if occurs_at(s, i, p) {
        lemma_run_end(s, i + p.len(), CharClass::Space);
    }
}

/// A name: an ASCII letter followed by ASCII letters and digits. The answer
/// is the end of the name; blanks after it are not read.
pub open spec fn ident_name(s: Seq<char>, i: int) -> Option<int> {
    if 0 <= i < s.len() && is_alpha(s[i]) {
        Some(run_end(s, i, CharClass::Alnum))
    } else {
        None
    }
}

pub proof fn lemma_ident_name(s: Seq<char>, i: int)
    requires
        0 <= i <= s.len(),
    ensures
        ident_name(s, i) matches Some(j) ==> i < j <= s.len(),
{
    if 0 <= i < s.len() && is_alpha(s[i]) {
        lemma_run_end(s, i, CharClass::Alnum);
        lemma_run_end(s, i + 1, CharClass::Alnum);
    }
}

/// A custom name `${...}`: the answer is the end of the closing brace; the
/// name is what stands between the braces. Blanks after it are not read.
pub open spec fn custom_ident(s: Seq<char>, i: int) -> Option<int> {
    if occurs_at(s, i, seq!['$', '{']) && run_end(s, i + 2, CharClass::NotBrace) < s.len() {
        Some(run_end(s, i + 2, CharClass::NotBrace) + 1)
    } else {
        None
    }
}

/// The character that an escape `\c` stands for, in the given dialect.
pub open spec fn escape_of(d: Dialect, c: char) -> Option<char> {
    if c == '"' || c == '\\' || c == '/' || (c == '\'' && d == Dialect::Parser) {
        Some(c)
    } else if c == 'b' {
        Some('\x08')
    } else if c == 'f' {
        Some('\x0C')
    } else if c == 'n' {
        Some('\n')
    } else if c == 'r' {
        Some('\r')
    } else if c == 't' {
        Some('\t')
    } else {
        None
    }
}

/// The longest run of string items from `j` on, inside a literal quoted by
/// `q`: an item is an escape or a character other than `q` and the
/// backslash. The answer is the end of the run and the characters it stands
/// for.
pub open spec fn string_body(d: Dialect, s: Seq<char>, j: int, q: char) -> (int, Seq<char>)
    decreases s.len() - j,
{
    if 0 <= j < s.len() {
        if s[j] == '\\' && j + 1 < s.len() && escape_of(d, s[j + 1]) is Some {
            let (k, cs) = string_body(d, s, j + 2, q);
            (k, seq![escape_of(d, s[j + 1])->0] + cs)
        } else if s[j] != q && s[j] != '\\' {
            let (k, cs) = string_body(d, s, j + 1, q);
            (k, seq![s[j]] + cs)
        } else {
            (j, Seq::empty())
        }
    } else {
        (j, Seq::empty())
    }
}

pub proof fn lemma_string_body(d: Dialect, s: Seq<char>, j: int, q: char)
    requires
        0 <= j <= s.len(),
    ensures
        j <= string_body(d, s, j, q).0 <= s.len(),
        string_body(d, s, j, q).0 == j <==> string_body(d, s, j, q).1.len() == 0,
    decreases s.len() - j,
{
    if 0 <= j < s.len() {
        if s[j] == '\\' && j + 1 < s.len() && escape_of(d, s[j + 1]) is Some {
            lemma_string_body(d, s, j + 2, q);
        } else if s[j] != q && s[j] != '\\' {
            lemma_string_body(d, s, j + 1, q);
        }
    }
}

/// Why a string literal was not read, and where: the codes of nom's errors
/// `Char` and `Eof`.
#[derive(Debug, Clone, Copy, PartialEq, Eq, Structural)]
pub enum ErrorKind {
    /// An expected character (an opening or closing quote) is missing.
    Char,
    /// The input ended.
    Eof,
}

/// The error of a string literal read on its own: the rest of the input
/// where it was found, and its kind.
#[derive(Debug, Clone, Copy, PartialEq, Eq)]
pub struct SyntaxError<'a> {
    pub input: &'a str,
    pub code: ErrorKind,
}

/// A string literal, quoted by `"` or `'`. The answer is the end of the
/// closing quote and the characters that the literal stands for, or the
/// position and kind of the error.
///
/// The literal may be empty. In dialect `Parser` `\'` is an escape and the
/// end of the input before the closing quote is reported as such; in
/// dialect `Combinator` `\'` is not an escape.
pub open spec fn string_literal(d: Dialect, s: Seq<char>, i: int) -> Result<
    (int, Seq<char>),
    (int, ErrorKind),
> {
    if !(0 <= i < s.len() && (s[i] == '"' || s[i] == '\'')) {
        Err((i, ErrorKind::Char))
    } else {
        let q = s[i];
        match d {
            Dialect::Combinator => {
                let (k, cs) = string_body(d, s, i + 1, q);
                if k < s.len() && s[k] == q {
                    Ok((k + 1, cs))
                } else {
                    Err((k, ErrorKind::Char))
                }
            },
            Dialect::Parser => {
                let k = run_end(s, i + 1, CharClass::Plain(q));
                if k == s.len() {
                    Err((k, ErrorKind::Eof))
                } else if s[k] == q {
                    Ok((k + 1, s.subrange(i + 1, k)))
                } else {
                    let (m, cs) = string_body(d, s, k, q);
                    if m < s.len() && s[m] == q {
                        Ok((m + 1, s.subrange(i + 1, k) + cs))
                    } else {
                        Err((m, ErrorKind::Char))
                    }
                }
            },
        }
    }
}

pub proof fn lemma_string_literal(d: Dialect, s: Seq<char>, i: int)
    requires
        0 <= i <= s.len(),
    ensures
        string_literal(d, s, i) matches Ok((j, _)) ==> i < j <= s.len(),
        string_literal(d, s, i) matches Err((j, _)) ==> i <= j <= s.len(),
{
    if 0 <= i < s.len() && (s[i] == '"' || s[i] == '\'') {
        let q = s[i];
        lemma_string_body(d, s, i + 1, q);
        lemma_run_end(s, i + 1, CharClass::Plain(q));
        let k = run_end(s, i + 1, CharClass::Plain(q));
        if k < s.len() {
            lemma_string_body(d, s, k, q);
        }
    }
}


/// Is the string literal at `i` kept borrowed from the input? In dialect
/// `Parser` it is where it holds no escape, that is where the run of plain
/// characters after the opening quote ends at the closing quote; in dialect
/// `Combinator` it never is.
pub open spec fn literal_borrowed(d: Dialect, s: Seq<char>, i: int) -> bool {
    &&& d == Dialect::Parser
    &&& 0 <= i < s.len()
    &&& run_end(s, i + 1, CharClass::Plain(s[i])) < s.len()
    &&& s[run_end(s, i + 1, CharClass::Plain(s[i]))] == s[i]
}

/// Is the key of the map entry at `i` kept borrowed from the input? A name
/// always is; a string literal is where `literal_borrowed` says so.
pub open spec fn key_borrowed(d: Dialect, s: Seq<char>, i: int) -> bool {
    ident_name(s, i) is Some || literal_borrowed(d, s, i)
}

/// A string literal at the start of `s`, read on its own: the rest after
/// the closing quote and the characters the literal stands for, or the rest
/// where the error was found and its kind.
pub open spec fn literal_answer(d: Dialect, s: Seq<char>) -> Result<
    (Seq<char>, Seq<char>),
    (Seq<char>, ErrorKind),
> {
    match string_literal(d, s, 0) {
        Ok((j, cs)) => Ok((s.subrange(j, s.len() as int), cs)),
        Err((j, k)) => Err((s.subrange(j, s.len() as int), k)),
    }
}

/// A binary operator token of the given precedence level: the answer is the
/// position after the token and its blanks, and the operator.
pub open spec fn op_tok(s: Seq<char>, i: int, p: Seq<char>, op: BinOp) -> Option<(int, BinOp)> {
    match tok(s, i, p) {
        Some(j) => Some((j, op)),
        None => None,
    }
}

pub open spec fn first_of(a: Option<(int, BinOp)>, b: Option<(int, BinOp)>) -> Option<(int, BinOp)> {
    if a is Some {
        a
    } else {
        b
    }
}

/// The operators of the left-associative levels, from the loosest (0, `|>`)
/// to the tightest (10, `*` `/` `%`), each tried in the order given.
pub open spec fn level_op(s: Seq<char>, i: int, lvl: int) -> Option<(int, BinOp)> {
    if lvl == 0 {
        op_tok(s, i, seq!['|', '>'], BinOp::Pipe)
    } else if lvl == 1 {
        op_tok(s, i, seq!['?', '?'], BinOp::NullishCoalesce)
    } else if lvl == 2 {
        op_tok(s, i, seq!['|', '|'], BinOp::LogicalOr)
    } else if lvl == 3 {
        op_tok(s, i, seq!['&', '&'], BinOp::LogicalAnd)
    } else if lvl == 4 {
        op_tok(s, i, seq!['|'], BinOp::BitwiseOr)
    } else if lvl == 5 {
        op_tok(s, i, seq!['^'], BinOp::BitwiseXor)
    } else if lvl == 6 {
        op_tok(s, i, seq!['&'], BinOp::BitwiseAnd)
    } else if lvl == 7 {
        first_of(
            op_tok(s, i, seq!['=', '=', '='], BinOp::StrictEqual),
            first_of(
                op_tok(s, i, seq!['=', '='], BinOp::Equal),
                first_of(
                    op_tok(s, i, seq!['!', '=', '='], BinOp::StrictNotEqual),
                    op_tok(s, i, seq!['!', '='], BinOp::NotEqual),
                ),
            ),
        )
    } else if lvl == 8 {
        first_of(
            op_tok(s, i, seq!['>', '='], BinOp::GreaterOrEqual),
            first_of(
                op_tok(s, i, seq!['<', '='], BinOp::LessOrEqual),
                first_of(
                    op_tok(s, i, seq!['>'], BinOp::GreaterThan),
                    op_tok(s, i, seq!['<'], BinOp::LessThan),
                ),
            ),
        )
    } else if lvl == 9 {
        first_of(op_tok(s, i, seq!['+'], BinOp::Add), op_tok(s, i, seq!['-'], BinOp::Subtract))
    } else {
        first_of(
            op_tok(s, i, seq!['*'], BinOp::Multiply),
            first_of(op_tok(s, i, seq!['/'], BinOp::Divide), op_tok(s, i, seq!['%'], BinOp::Modulo)),
        )
    }
}

pub proof fn lemma_level_op(s: Seq<char>, i: int, lvl: int)
    requires
        0 <= i <= s.len(),
    ensures
        level_op(s, i, lvl) matches Some((j, _)) ==> i < j <= s.len(),
{
    lemma_tok(s, i, seq!['|', '>']);
    lemma_tok(s, i, seq!['?', '?']);
    lemma_tok(s, i, seq!['|', '|']);
    lemma_tok(s, i, seq!['&', '&']);
    lemma_tok(s, i, seq!['|']);
    lemma_tok(s, i, seq!['^']);
    lemma_tok(s, i, seq!['&']);
    lemma_tok(s, i, seq!['=', '=', '=']);
    lemma_tok(s, i, seq!['=', '=']);
    lemma_tok(s, i, seq!['!', '=', '=']);
    lemma_tok(s, i, seq!['!', '=']);
    lemma_tok(s, i, seq!['>', '=']);
    lemma_tok(s, i, seq!['<', '=']);
    lemma_tok(s, i, seq!['>']);
    lemma_tok(s, i, seq!['<']);
    lemma_tok(s, i, seq!['+']);
    lemma_tok(s, i, seq!['-']);
    lemma_tok(s, i, seq!['*']);
    lemma_tok(s, i, seq!['/']);
    lemma_tok(s, i, seq!['%']);
}

/// A prefix operator token.
pub open spec fn unary_op(s: Seq<char>, i: int) -> Option<(int, UnaryOp)> {
    match tokc(s, i, '+') {
        Some(j) => Some((j, UnaryOp::Plus)),
        None => match tokc(s, i, '-') {
            Some(j) => Some((j, UnaryOp::Minus)),
            None => match tokc(s, i, '!') {
                Some(j) => Some((j, UnaryOp::Not)),
                None => None,
            },
        },
    }
}

pub proof fn lemma_unary_op(s: Seq<char>, i: int)
    requires
        0 <= i <= s.len(),
    ensures
        unary_op(s, i) matches Some((j, _)) ==> i < j <= s.len(),
{
    lemma_tok(s, i, seq!['+']);
    lemma_tok(s, i, seq!['-']);
    lemma_tok(s, i, seq!['!']);
}

/// A prefix operator applied to its operand: `+` and `-` on a number
/// literal fold into the literal.
pub open spec fn apply_unary(op: UnaryOp, v: ExprV) -> ExprV {
    match v {
        ExprV::Literal(LiteralV::Number(negative, text)) => match op {
            UnaryOp::Plus => v,
            UnaryOp::Minus => ExprV::Literal(LiteralV::Number(!negative, text)),
            UnaryOp::Not => ExprV::Unary(op, Box::new(v)),
        },
        _ => ExprV::Unary(op, Box::new(v)),
    }
}

/// One step after a primary expression: a member, an index or a call.
pub enum StepV {
    Member(Seq<char>),
    Index(Option<ExprV>),
    Invoke(Seq<ExprV>),
}

/// A postfix step applied to what stands before it; a call on a member
/// becomes a method call.
pub open spec fn apply_step(acc: ExprV, step: StepV) -> ExprV {
    match step {
        StepV::Member(name) => ExprV::Getter(Box::new(acc), name),
        StepV::Index(argument) => ExprV::Index {
            receiver: Box::new(acc),
            argument: match argument {
                Some(a) => Some(Box::new(a)),
                None => None,
            },
        },
        StepV::Invoke(arguments) => match acc {
            ExprV::Getter(inner, method) => ExprV::Invoke {
                receiver: inner,
                method: Some(method),
                arguments,
            },
            _ => ExprV::Invoke { receiver: Box::new(acc), method: None, arguments },
        },
    }
}

/// Does `t` start with `nan` or `inf`, in any case?
pub open spec fn starts_nan_or_inf(t: Seq<char>) -> bool {
    &&& t.len() >= 3
    &&& {
        ||| (t[0] == 'n' || t[0] == 'N') && (t[1] == 'a' || t[1] == 'A') && (t[2] == 'n' || t[2]
            == 'N')
        ||| (t[0] == 'i' || t[0] == 'I') && (t[1] == 'n' || t[1] == 'N') && (t[2] == 'f' || t[2]
            == 'F')
    }
}

/// Can a number start with `c`: a sign, a digit or a dot?
pub open spec fn number_start(c: char) -> bool {
    is_digit(c) || c == '+' || c == '-' || c == '.'
}

/// Is `c` the ASCII letter `lower` (a lower-case letter), in either case?
pub open spec fn nocase(c: char, lower: char) -> bool {
    c == lower || (c as int) + 32 == lower as int
}

/// Does `t` start with `nan`, in any case?
pub open spec fn starts_nan(t: Seq<char>) -> bool {
    t.len() >= 3 && nocase(t[0], 'n') && nocase(t[1], 'a') && nocase(t[2], 'n')
}

/// Does `t` start with `inf`, in any case?
pub open spec fn starts_inf(t: Seq<char>) -> bool {
    t.len() >= 3 && nocase(t[0], 'i') && nocase(t[1], 'n') && nocase(t[2], 'f')
}

/// Does `t` start with `infinity`, in any case?
pub open spec fn starts_infinity(t: Seq<char>) -> bool {
    &&& starts_inf(t)
    &&& t.len() >= 8
    &&& nocase(t[3], 'i') && nocase(t[4], 'n') && nocase(t[5], 'i')
    &&& nocase(t[6], 't') && nocase(t[7], 'y')
}

/// Where the digits, and the fraction after them, that start at `i` end:
/// digits with an optional dot and optional digits after it, or a dot
/// followed by at least one digit; `None` when neither stands at `i`.
pub open spec fn mantissa_end(t: Seq<char>, i: int) -> Option<int> {
    let d = run_end(t, i, CharClass::Digit);
    if d > i {
        if d < t.len() && t[d] == '.' {
            Some(run_end(t, d + 1, CharClass::Digit))
        } else {
            Some(d)
        }
    } else if i < t.len() && t[i] == '.' && run_end(t, i + 1, CharClass::Digit) > i + 1 {
        Some(run_end(t, i + 1, CharClass::Digit))
    } else {
        None
    }
}

/// Is `c` a sign?
pub open spec fn is_sign(c: char) -> bool {
    c == '+' || c == '-'
}

/// The shape of a number at the start of `t`: an optional sign, a mantissa
/// (see `mantissa_end`) and an optional exponent (`e` or `E`, an optional
/// sign and at least one digit), or else one of the words `nan`, `infinity`
/// and `inf` in any case. The answer is the number's length; `Err(true)`
/// when an exponent letter follows the mantissa without digits after it
/// (an abort), and `Err(false)` when no number stands there.
pub open spec fn float_shape(t: Seq<char>) -> Result<nat, bool> {
    let i: int = if t.len() > 0 && is_sign(t[0]) { 1 } else { 0 };
    match mantissa_end(t, i) {
        Some(m) => if m < t.len() && (t[m] == 'e' || t[m] == 'E') {
            let x = if m + 1 < t.len() && is_sign(t[m + 1]) { m + 2 } else { m + 1 };
            let e = run_end(t, x, CharClass::Digit);
            if e > x { Ok(e as nat) } else { Err(true) }
        } else {
            Ok(m as nat)
        },
        None => if starts_nan(t) {
            Ok(3)
        } else if starts_infinity(t) {
            Ok(8)
        } else if starts_inf(t) {
            Ok(3)
        } else {
            Err(false)
        },
    }
}

/// The number at the start of `t`, as nom's `double` reads it: its length,
/// no number (`Err(None)`), or an abort with nom's message.
pub open spec fn number_scan(t: Seq<char>) -> Result<nat, Option<Seq<char>>> {
    match float_shape(t) {
        Ok(n) => Ok(n),
        Err(false) => Err(None),
        Err(true) => Err(Some(float_abort_text(t))),
    }
}

/// A number, when there is one, is not empty and lies within the text; a
/// text that is empty, or starts with neither a sign, a digit, a dot nor
/// the letters `nan` or `inf`, holds none.
pub proof fn lemma_float_shape(t: Seq<char>)
    ensures
        float_shape(t) matches Ok(n) ==> 0 < n <= t.len(),
        t.len() == 0 || (!number_start(t[0]) && !starts_nan_or_inf(t)) ==> float_shape(t)
            == Err::<nat, bool>(false),
{
    let i: int = if t.len() > 0 && is_sign(t[0]) { 1 } else { 0 };
    lemma_run_end(t, i, CharClass::Digit);
    let d = run_end(t, i, CharClass::Digit);
    if d < t.len() && t[d] == '.' {
        lemma_run_end(t, d + 1, CharClass::Digit);
    }
    if i < t.len() {
        lemma_run_end(t, i + 1, CharClass::Digit);
    }
    if let Some(m) = mantissa_end(t, i) {
        if m + 1 <= t.len() {
            lemma_run_end(t, m + 1, CharClass::Digit);
        }
        if m + 2 <= t.len() {
            lemma_run_end(t, m + 2, CharClass::Digit);
        }
    }
}

/// A literal: `true`, `false`, `null`, `undefined`, a number (as nom's
/// `double` reads it) or a string, with the blanks after it.
pub open spec fn literal(d: Dialect, s: Seq<char>, i: int) -> Outcome<ExprV> {
    if tok(s, i, seq!['t', 'r', 'u', 'e']) is Some {
        Outcome::Parsed(tok(s, i, seq!['t', 'r', 'u', 'e'])->0, ExprV::Literal(LiteralV::Boolean(true)))
    } else if tok(s, i, seq!['f', 'a', 'l', 's', 'e']) is Some {
        Outcome::Parsed(
            tok(s, i, seq!['f', 'a', 'l', 's', 'e'])->0,
            ExprV::Literal(LiteralV::Boolean(false)),
        )
    } else if tok(s, i, seq!['n', 'u', 'l', 'l']) is Some {
        Outcome::Parsed(tok(s, i, seq!['n', 'u', 'l', 'l'])->0, ExprV::Literal(LiteralV::Null))
    } else if tok(s, i, seq!['u', 'n', 'd', 'e', 'f', 'i', 'n', 'e', 'd']) is Some {
        Outcome::Parsed(
            tok(s, i, seq!['u', 'n', 'd', 'e', 'f', 'i', 'n', 'e', 'd'])->0,
            ExprV::Literal(LiteralV::Undefined),
        )
    } else {
        match number_scan(s.subrange(i, s.len() as int)) {
            Ok(n) => Outcome::Parsed(
                run_end(s, i + n, CharClass::Space),
                ExprV::Literal(LiteralV::Number(false, s.subrange(i, i + n))),
            ),
            Err(Some(m)) => Outcome::Abort(m),
            Err(None) => match string_literal(d, s, i) {
                Ok((j, cs)) => Outcome::Parsed(
                    run_end(s, j, CharClass::Space),
                    ExprV::Literal(LiteralV::String(cs, literal_borrowed(d, s, i))),
                ),
                Err(_) => Outcome::Mismatch,
            },
        }
    }
}

/// The names of a parenthesised parameter list after its first name and
/// comma (dialect `Parser`): names each followed by a comma, then possibly a
/// last name. The answer is the position after them and the names.
pub open spec fn param_names(s: Seq<char>, j: int) -> (int, Seq<Seq<char>>)
    decreases s.len() - j,
{
    match ident_name(s, j) {
        Some(e) => match tokc(s, run_end(s, e, CharClass::Space), ',') {
            Some(n) => if 0 <= j < n <= s.len() {
                let (k, rest) = param_names(s, n);
                (k, seq![s.subrange(j, e)] + rest)
            } else {
                (j, Seq::empty())
            },
            None => (run_end(s, e, CharClass::Space), seq![s.subrange(j, e)]),
        },
        None => (j, Seq::empty()),
    }
}

/// Are all these expressions plain names?
pub open spec fn all_ids(args: Seq<ExprV>) -> bool {
    forall|k: int| 0 <= k < args.len() ==> (#[trigger] args[k]) is ID
}

pub open spec fn id_names(args: Seq<ExprV>) -> Seq<Seq<char>> {
    args.map_values(|e: ExprV| e->ID_0)
}

/// The position of the first entry with this key, or the number of entries.
pub open spec fn key_position(m: Seq<(Seq<char>, ExprV)>, key: Seq<char>) -> int
    decreases m.len(),
{
    if m.len() == 0 {
        0
    } else if m[0].0 == key {
        0
    } else {
        1 + key_position(m.drop_first(), key)
    }
}

pub proof fn lemma_key_position(m: Seq<(Seq<char>, ExprV)>, key: Seq<char>, t: int)
    requires
        0 <= t <= m.len(),
        forall|u: int| 0 <= u < t ==> (#[trigger] m[u]).0 != key,
        t < m.len() ==> m[t].0 == key,
    ensures
        key_position(m, key) == t,
    decreases m.len(),
{
    if m.len() > 0 && t > 0 {
        assert(m[0].0 != key);
        assert forall|u: int| 0 <= u < t - 1 implies (#[trigger] m.drop_first()[u]).0 != key by {
            assert(m.drop_first()[u] == m[u + 1]);
        }
        lemma_key_position(m.drop_first(), key, t - 1);
    }
}

/// The order of map keys: lexicographic, by character.
pub open spec fn key_less(a: Seq<char>, b: Seq<char>) -> bool
    decreases a.len(),
{
    if b.len() == 0 {
        false
    } else if a.len() == 0 {
        true
    } else if a[0] != b[0] {
        a[0] < b[0]
    } else {
        key_less(a.drop_first(), b.drop_first())
    }
}

/// The key order is irreflexive.
pub proof fn lemma_key_less_irreflexive(a: Seq<char>)
    ensures
        !key_less(a, a),
    decreases a.len(),
{
    if a.len() > 0 {
        lemma_key_less_irreflexive(a.drop_first());
    }
}

/// The key order is asymmetric.
pub proof fn lemma_key_less_asymmetric(a: Seq<char>, b: Seq<char>)
    ensures
        key_less(a, b) ==> !key_less(b, a),
    decreases a.len(),
{
    if a.len() > 0 && b.len() > 0 {
        lemma_key_less_asymmetric(a.drop_first(), b.drop_first());
    }
}

/// Two different keys are ordered one way or the other.
pub proof fn lemma_key_less_total(a: Seq<char>, b: Seq<char>)
    ensures
        a != b ==> key_less(a, b) || key_less(b, a),
    decreases a.len(),
{
    if a.len() > 0 && b.len() > 0 {
        lemma_key_less_total(a.drop_first(), b.drop_first());
        if a[0] == b[0] && a.drop_first() == b.drop_first() {
            assert(a =~= seq![a[0]] + a.drop_first());
            assert(b =~= seq![b[0]] + b.drop_first());
        }
    } else if a.len() == 0 && b.len() == 0 {
        assert(a =~= b);
    }
}

/// The key order is transitive.
pub proof fn lemma_key_less_transitive(a: Seq<char>, b: Seq<char>, c: Seq<char>)
    ensures
        key_less(a, b) && key_less(b, c) ==> key_less(a, c),
    decreases a.len(),
{
    if a.len() > 0 && b.len() > 0 && c.len() > 0 {
        lemma_key_less_transitive(a.drop_first(), b.drop_first(), c.drop_first());
    }
}

/// Are the keys in increasing order (so that none occurs twice)?
pub open spec fn keys_sorted(m: Seq<(Seq<char>, ExprV)>) -> bool {
    forall|a: int, b: int| 0 <= a < b < m.len() ==> key_less((#[trigger] m[a]).0, (#[trigger] m[b]).0)
}

/// Where `key` belongs among sorted entries: the first entry whose key is
/// not before it.
pub open spec fn slot(m: Seq<(Seq<char>, ExprV)>, key: Seq<char>) -> int
    decreases m.len(),
{
    if m.len() == 0 {
        0
    } else if !key_less(m[0].0, key) {
        0
    } else {
        1 + slot(m.drop_first(), key)
    }
}

pub proof fn lemma_slot(m: Seq<(Seq<char>, ExprV)>, key: Seq<char>, t: int)
    requires
        0 <= t <= m.len(),
        forall|u: int| 0 <= u < t ==> key_less((#[trigger] m[u]).0, key),
        t < m.len() ==> !key_less(m[t].0, key),
    ensures
        slot(m, key) == t,
    decreases m.len(),
{
    if m.len() > 0 && t > 0 {
        assert(key_less(m[0].0, key));
        assert forall|u: int| 0 <= u < t - 1 implies key_less((#[trigger] m.drop_first()[u]).0, key) by {
            assert(m.drop_first()[u] == m[u + 1]);
        }
        lemma_slot(m.drop_first(), key, t - 1);
    }
}

/// Sorted entries with one more entry stored: the value replaces that of an
/// equal key, or the entry goes where its key belongs.
pub open spec fn entries_insert(m: Seq<(Seq<char>, ExprV)>, key: Seq<char>, val: ExprV) -> Seq<
    (Seq<char>, ExprV),
> {
    let p = slot(m, key);
    if p < m.len() && m[p].0 == key {
        m.update(p, (key, val))
    } else {
        m.insert(p, (key, val))
    }
}

/// The map that entries read in order make, its entries sorted by key: a
/// later entry replaces the value of an earlier one with the same key.
pub open spec fn collect_entries(es: Seq<(Seq<char>, ExprV)>) -> Seq<(Seq<char>, ExprV)>
    decreases es.len(),
{
    if es.len() == 0 {
        Seq::empty()
    } else {
        entries_insert(collect_entries(es.drop_last()), es.last().0, es.last().1)
    }
}

/// Whether each key of `entries_insert(m, key, _)` is borrowed, where `fl`
/// says it of the keys of `m`: a key already there keeps its own (as a hash
/// map keeps the key it holds), a new key comes with `f`.
pub open spec fn flags_insert(m: Seq<(Seq<char>, ExprV)>, fl: Seq<bool>, key: Seq<char>, f: bool) -> Seq<
    bool,
> {
    let p = slot(m, key);
    if p < m.len() && m[p].0 == key {
        fl
    } else {
        fl.insert(p, f)
    }
}

/// Whether each key of `collect_entries(es)` is borrowed, where `fs` says
/// it of the entries `es`, in order.
pub open spec fn collect_flags(es: Seq<(Seq<char>, ExprV)>, fs: Seq<bool>) -> Seq<bool>
    decreases es.len(),
{
    if es.len() == 0 {
        Seq::empty()
    } else {
        flags_insert(
            collect_entries(es.drop_last()),
            collect_flags(es.drop_last(), fs.drop_last()),
            es.last().0,
            fs.last(),
        )
    }
}

/// An expression.
pub open spec fn expr(d: Dialect, s: Seq<char>, i: int) -> Outcome<ExprV>
    decreases s.len() - i, 100int, 0int,
{
    assignment(d, s, i)
}

/// `ternary ("=" expr)?`; an assignment is a binary expression with
/// operator `Assign`.
pub open spec fn assignment(d: Dialect, s: Seq<char>, i: int) -> Outcome<ExprV>
    decreases s.len() - i, 99int, 0int,
{
    match ternary(d, s, i).within(i, s.len() as int) {
        Outcome::Parsed(i2, left) => match tokc(s, i2, '=') {
            Some(j) => {
                proof {
                    lemma_tok(s, i2, seq!['=']);
                }
                match expr(d, s, j) {
                    Outcome::Parsed(k, right) => Outcome::Parsed(
                        k,
                        ExprV::Binary { op: BinOp::Assign, left: Box::new(left), right: Box::new(right) },
                    ),
                    _ => Outcome::Parsed(i2, left),
                }
            },
            None => Outcome::Parsed(i2, left),
        },
        other => other,
    }
}

/// `pipe ("?" expr ":" expr)?`
pub open spec fn ternary(d: Dialect, s: Seq<char>, i: int) -> Outcome<ExprV>
    decreases s.len() - i, 98int, 0int,
{
    match binary(d, s, i, 0).within(i, s.len() as int) {
        Outcome::Parsed(i2, cond) => match tokc(s, i2, '?') {
            Some(j1) => {
                proof {
                    lemma_tok(s, i2, seq!['?']);
                }
                match expr(d, s, j1).within(j1, s.len() as int) {
                    Outcome::Parsed(j2, left) => match tokc(s, j2, ':') {
                        Some(j3) => {
                            proof {
                                lemma_tok(s, j2, seq![':']);
                            }
                            match expr(d, s, j3) {
                                Outcome::Parsed(j4, right) => Outcome::Parsed(
                                    j4,
                                    ExprV::Ternary {
                                        cond: Box::new(cond),
                                        left: Box::new(left),
                                        right: Box::new(right),
                                    },
                                ),
                                _ => Outcome::Parsed(i2, cond),
                            }
                        },
                        None => Outcome::Parsed(i2, cond),
                    },
                    _ => Outcome::Parsed(i2, cond),
                }
            },
            None => Outcome::Parsed(i2, cond),
        },
        other => other,
    }
}

/// The operand of level `lvl`: the next level, or a unary expression after
/// the tightest level.
pub open spec fn binary(d: Dialect, s: Seq<char>, i: int, lvl: int) -> Outcome<ExprV>
    decreases s.len() - i, 40int, 10 - lvl,
{
    let first = if lvl < 10 {
        binary(d, s, i, lvl + 1)
    } else {
        unary(d, s, i)
    };
    match first.within(i, s.len() as int) {
        Outcome::Parsed(j, e) => binary_rest(d, s, j, lvl, e),
        other => other,
    }
}

/// The rest of a left-associative chain at level `lvl` after `acc`.
pub open spec fn binary_rest(d: Dialect, s: Seq<char>, j: int, lvl: int, acc: ExprV) -> Outcome<
    ExprV,
>
    decreases s.len() - j, 39int, 10 - lvl,
{
    match level_op(s, j, lvl) {
        Some((j2, op)) => {
            proof {
                lemma_level_op(s, j, lvl);
            }
            let next = if lvl < 10 {
                binary(d, s, j2, lvl + 1)
            } else {
                unary(d, s, j2)
            };
            match next.within(j2, s.len() as int) {
                Outcome::Parsed(j3, right) => binary_rest(
                    d,
                    s,
                    j3,
                    lvl,
                    ExprV::Binary { op, left: Box::new(acc), right: Box::new(right) },
                ),
                Outcome::Mismatch => Outcome::Parsed(j, acc),
                Outcome::Abort(m) => Outcome::Abort(m),
            }
        },
        None => Outcome::Parsed(j, acc),
    }
}

/// `("+" | "-" | "!") unary | postfix`
pub open spec fn unary(d: Dialect, s: Seq<char>, i: int) -> Outcome<ExprV>
    decreases s.len() - i, 30int, 0int,
{
    match unary_op(s, i) {
        Some((j, op)) => {
            proof {
                lemma_unary_op(s, i);
            }
            match unary(d, s, j) {
                Outcome::Parsed(k, v) => Outcome::Parsed(k, apply_unary(op, v)),
                Outcome::Mismatch => postfix(d, s, i),
                Outcome::Abort(m) => Outcome::Abort(m),
            }
        },
        None => postfix(d, s, i),
    }
}

/// `primary ( "." ident | "[" expr? "]" | "(" comma_expr ")" )*`
pub open spec fn postfix(d: Dialect, s: Seq<char>, i: int) -> Outcome<ExprV>
    decreases s.len() - i, 29int, 0int,
{
    match primary(d, s, i).within(i, s.len() as int) {
        Outcome::Parsed(j, e) => postfix_rest(d, s, j, e),
        other => other,
    }
}

/// The postfix steps after `acc`. A step that reads nothing would end the
/// loop with a mismatch, as nom's `fold` does.
pub open spec fn postfix_rest(d: Dialect, s: Seq<char>, j: int, acc: ExprV) -> Outcome<ExprV>
    decreases s.len() - j, 27int, 0int,
{
    match next_step(d, s, j).within(j, s.len() as int) {
        Outcome::Parsed(k, step) => if k > j {
            postfix_rest(d, s, k, apply_step(acc, step))
        } else {
            Outcome::Mismatch
        },
        Outcome::Mismatch => Outcome::Parsed(j, acc),
        Outcome::Abort(m) => Outcome::Abort(m),
    }
}

/// One postfix step.
pub open spec fn next_step(d: Dialect, s: Seq<char>, j: int) -> Outcome<StepV>
    decreases s.len() - j, 26int, 0int,
{
    match tokc(s, j, '.') {
        Some(k) => match ident_name(s, k) {
            Some(e) => Outcome::Parsed(
                run_end(s, e, CharClass::Space),
                StepV::Member(s.subrange(k, e)),
            ),
            None => Outcome::Mismatch,
        },
        None => match tokc(s, j, '[') {
            Some(k) => {
                proof {
                    lemma_tok(s, j, seq!['[']);
                }
                match expr(d, s, k).within(k, s.len() as int) {
                    Outcome::Parsed(k2, e) => match tokc(s, k2, ']') {
                        Some(k3) => Outcome::Parsed(k3, StepV::Index(Some(e))),
                        None => Outcome::Mismatch,
                    },
                    Outcome::Mismatch => match tokc(s, k, ']') {
                        Some(k3) => Outcome::Parsed(k3, StepV::Index(None)),
                        None => Outcome::Mismatch,
                    },
                    Outcome::Abort(m) => Outcome::Abort(m),
                }
            },
            None => match tokc(s, j, '(') {
                Some(k) => {
                    proof {
                        lemma_tok(s, j, seq!['(']);
                    }
                    match expr_list(d, s, k).within(k, s.len() as int) {
                        Outcome::Parsed(k2, items) => match tokc(s, k2, ')') {
                            Some(k3) => Outcome::Parsed(k3, StepV::Invoke(items)),
                            None => Outcome::Mismatch,
                        },
                        _ => Outcome::Mismatch,
                    }
                },
                None => Outcome::Mismatch,
            },
        },
    }
}

/// `literal | ident | custom_ident | list | map | paren`, tried in order.
pub open spec fn primary(d: Dialect, s: Seq<char>, i: int) -> Outcome<ExprV>
    decreases s.len() - i, 28int, 0int,
{
    match literal(d, s, i) {
        Outcome::Mismatch => match ident(d, s, i) {
            Outcome::Mismatch => match custom_ident(s, i) {
                Some(j) => Outcome::Parsed(j, ExprV::CustomID(s.subrange(i + 2, j - 1))),
                None => match list(d, s, i) {
                    Outcome::Mismatch => match js_map(d, s, i) {
                        Outcome::Mismatch => paren(d, s, i),
                        other => other,
                    },
                    other => other,
                },
            },
            other => other,
        },
        other => other,
    }
}

/// `identifier ("=>" expr)?`: a name, or a one-parameter arrow function.
pub open spec fn ident(d: Dialect, s: Seq<char>, i: int) -> Outcome<ExprV>
    decreases s.len() - i, 20int, 0int,
{
    match ident_name(s, i) {
        Some(e) => {
            let w = run_end(s, e, CharClass::Space);
            let name = s.subrange(i, e);
            match tok(s, w, seq!['=', '>']) {
                Some(q) => {
                    proof {
                        lemma_ident_name(s, i);
                        lemma_run_end(s, e, CharClass::Space);
                        lemma_tok(s, w, seq!['=', '>']);
                    }
                    match expr(d, s, q) {
                        Outcome::Parsed(r, body) => Outcome::Parsed(
                            r,
                            ExprV::ArrowFunc { params: seq![name], body: Box::new(body) },
                        ),
                        _ => Outcome::Parsed(w, ExprV::ID(name)),
                    }
                },
                None => Outcome::Parsed(w, ExprV::ID(name)),
            }
        },
        None => Outcome::Mismatch,
    }
}

/// `"[" comma_expr "]"`
pub open spec fn list(d: Dialect, s: Seq<char>, i: int) -> Outcome<ExprV>
    decreases s.len() - i, 20int, 0int,
{
    match tokc(s, i, '[') {
        Some(j) => {
            proof {
                lemma_tok(s, i, seq!['[']);
            }
            match expr_list(d, s, j).within(j, s.len() as int) {
                Outcome::Parsed(k, items) => match tokc(s, k, ']') {
                    Some(m) => Outcome::Parsed(m, ExprV::List(items)),
                    None => Outcome::Mismatch,
                },
                _ => Outcome::Mismatch,
            }
        },
        None => Outcome::Mismatch,
    }
}

/// A comma-separated list of expressions with an optional trailing comma.
/// It never fails: a first item that does not parse, for any reason, makes
/// an empty list, and an item after a comma that does not parse ends it.
pub open spec fn expr_list(d: Dialect, s: Seq<char>, j: int) -> Outcome<Seq<ExprV>>
    decreases s.len() - j, 110int, 0int,
{
    match expr(d, s, j).within(j, s.len() as int) {
        Outcome::Parsed(k, e) => expr_list_rest(d, s, k, seq![e]),
        _ => Outcome::Parsed(j, Seq::empty()),
    }
}

pub open spec fn expr_list_rest(d: Dialect, s: Seq<char>, j: int, acc: Seq<ExprV>) -> Outcome<
    Seq<ExprV>,
>
    decreases s.len() - j, 109int, 0int,
{
    match tokc(s, j, ',') {
        Some(j1) => {
            proof {
                lemma_tok(s, j, seq![',']);
            }
            match expr(d, s, j1).within(j1, s.len() as int) {
                Outcome::Parsed(j2, e) => expr_list_rest(d, s, j2, acc.push(e)),
                _ => Outcome::Parsed(j1, acc),
            }
        },
        None => Outcome::Parsed(j, acc),
    }
}

/// A comma-separated list of map entries with an optional trailing comma,
/// read as `expr_list` reads expressions.
pub open spec fn entry_list(d: Dialect, s: Seq<char>, j: int) -> Outcome<Seq<(Seq<char>, ExprV)>>
    decreases s.len() - j, 110int, 0int,
{
    match map_entry(d, s, j).within(j, s.len() as int) {
        Outcome::Parsed(k, e) => entry_list_rest(d, s, k, seq![e]),
        _ => Outcome::Parsed(j, Seq::empty()),
    }
}

pub open spec fn entry_list_rest(
    d: Dialect,
    s: Seq<char>,
    j: int,
    acc: Seq<(Seq<char>, ExprV)>,
) -> Outcome<Seq<(Seq<char>, ExprV)>>
    decreases s.len() - j, 109int, 0int,
{
    match tokc(s, j, ',') {
        Some(j1) => {
            proof {
                lemma_tok(s, j, seq![',']);
            }
            match map_entry(d, s, j1).within(j1, s.len() as int) {
                Outcome::Parsed(j2, e) => entry_list_rest(d, s, j2, acc.push(e)),
                _ => Outcome::Parsed(j1, acc),
            }
        },
        None => Outcome::Parsed(j, acc),
    }
}

/// For each entry that `entry_list` reads from `j`, in order: is its key
/// kept borrowed from the input (see `key_borrowed`)?
#[verifier::opaque]
pub open spec fn entry_list_keys(d: Dialect, s: Seq<char>, j: int) -> Seq<bool>
    decreases s.len() - j, 110int, 0int,
{
    match map_entry(d, s, j).within(j, s.len() as int) {
        Outcome::Parsed(k, _) => seq![key_borrowed(d, s, j)] + entry_list_keys_rest(d, s, k),
        _ => Seq::empty(),
    }
}

/// The same for the entries after the comma at `j`, as `entry_list_rest`
/// reads them.
#[verifier::opaque]
pub open spec fn entry_list_keys_rest(d: Dialect, s: Seq<char>, j: int) -> Seq<bool>
    decreases s.len() - j, 109int, 0int,
{
    match tokc(s, j, ',') {
        Some(j1) => {
            proof {
                lemma_tok(s, j, seq![',']);
            }
            match map_entry(d, s, j1).within(j1, s.len() as int) {
                Outcome::Parsed(j2, _) => seq![key_borrowed(d, s, j1)] + entry_list_keys_rest(
                    d,
                    s,
                    j2,
                ),
                _ => Seq::empty(),
            }
        },
        None => Seq::empty(),
    }
}

/// The first entry of `entry_list_keys` at `j`.
#[verifier::spinoff_prover]
pub proof fn lemma_entry_keys_start(d: Dialect, s: Seq<char>, j: int)
    ensures
        match map_entry(d, s, j).within(j, s.len() as int) {
            Outcome::Parsed(k, _) => entry_list_keys(d, s, j) == seq![key_borrowed(d, s, j)]
                + entry_list_keys_rest(d, s, k),
            _ => entry_list_keys(d, s, j) == Seq::<bool>::empty(),
        },
{
    reveal(entry_list_keys);
}

/// One step of `entry_list_keys_rest` at `pos`.
#[verifier::spinoff_prover]
pub proof fn lemma_entry_keys_step(d: Dialect, s: Seq<char>, pos: int)
    requires
        0 <= pos <= s.len(),
    ensures
        match tokc(s, pos, ',') {
            Some(j1) => match map_entry(d, s, j1).within(j1, s.len() as int) {
                Outcome::Parsed(j2, _) => entry_list_keys_rest(d, s, pos) == seq![
                    key_borrowed(d, s, j1),
                ] + entry_list_keys_rest(d, s, j2),
                _ => entry_list_keys_rest(d, s, pos) == Seq::<bool>::empty(),
            },
            None => entry_list_keys_rest(d, s, pos) == Seq::<bool>::empty(),
        },
{
    reveal(entry_list_keys_rest);
}

/// `(identifier | string) ":" expr`
pub open spec fn map_entry(d: Dialect, s: Seq<char>, i: int) -> Outcome<(Seq<char>, ExprV)>
    decreases s.len() - i, 15int, 0int,
{
    let key: Option<(int, Seq<char>)> = match ident_name(s, i) {
        Some(e) => Some((run_end(s, e, CharClass::Space), s.subrange(i, e))),
        None => match string_literal(d, s, i) {
            Ok((e, cs)) => Some((e, cs)),
            Err(_) => None,
        },
    };
    match key {
        Some((k, name)) => match tokc(s, run_end(s, k, CharClass::Space), ':') {
            Some(q) => {
                proof {
                    lemma_ident_name(s, i);
                    lemma_string_literal(d, s, i);
                    if ident_name(s, i) is Some {
                        lemma_run_end(s, ident_name(s, i)->0, CharClass::Space);
                    }
                    lemma_run_end(s, k, CharClass::Space);
                    lemma_tok(s, run_end(s, k, CharClass::Space), seq![':']);
                }
                match expr(d, s, q) {
                    Outcome::Parsed(r, v) => Outcome::Parsed(r, (name, v)),
                    Outcome::Mismatch => Outcome::Mismatch,
                    Outcome::Abort(m) => Outcome::Abort(m),
                }
            },
            None => Outcome::Mismatch,
        },
        None => Outcome::Mismatch,
    }
}

/// The state of the iterator over the entries of a map literal (dialect
/// `Parser`): before the first entry, after an entry, done, or failed with
/// nom's message.
pub enum CommaState {
    First,
    Rest,
    Done,
    Failed(Seq<char>),
}

/// One step of that iterator at position `pos`: the new position and state,
/// and the entry read, if any. The comma before each further entry is read
/// by nom's streaming `char`, which asks for more input where the input
/// ends; a comma followed by no entry ends the list after the comma.
#[verifier::opaque]
pub open spec fn comma_next(d: Dialect, s: Seq<char>, pos: int, st: CommaState) -> (
    int,
    CommaState,
    Option<(Seq<char>, ExprV)>,
) {
    match st {
        CommaState::First => match map_entry(d, s, pos).within(pos, s.len() as int) {
            Outcome::Parsed(k, e) => (k, CommaState::Rest, Some(e)),
            Outcome::Mismatch => (pos, CommaState::Done, None),
            Outcome::Abort(m) => (pos, CommaState::Failed(m), None),
        },
        CommaState::Rest => if pos >= s.len() {
            (pos, CommaState::Failed(incomplete_text()), None)
        } else if s[pos] != ',' {
            (pos, CommaState::Done, None)
        } else {
            let k2 = run_end(s, pos + 1, CharClass::Space);
            match map_entry(d, s, k2).within(k2, s.len() as int) {
                Outcome::Parsed(k, e) => (k, CommaState::Rest, Some(e)),
                Outcome::Mismatch => (k2, CommaState::Done, None),
                Outcome::Abort(m) => (pos, CommaState::Failed(m), None),
            }
        },
        _ => (pos, st, None),
    }
}

/// The entries of a map literal in dialect `Parser`, from `j` on: a
/// comma-separated list with at most one trailing comma, as `entry_list`
/// reads it, except that an input ending right after an entry asks for more
/// and that an entry that aborts stops the parse.
pub open spec fn entries_from(d: Dialect, s: Seq<char>, j: int) -> Outcome<Seq<(Seq<char>, ExprV)>>
    decreases s.len() - j, 17int, 0int,
{
    match map_entry(d, s, j).within(j, s.len() as int) {
        Outcome::Parsed(k, e) => entries_rest(d, s, k, seq![e]),
        Outcome::Mismatch => Outcome::Parsed(j, Seq::empty()),
        Outcome::Abort(m) => Outcome::Abort(m),
    }
}

/// The rest of that list at `k`, after the entries `acc`.
pub open spec fn entries_rest(
    d: Dialect,
    s: Seq<char>,
    k: int,
    acc: Seq<(Seq<char>, ExprV)>,
) -> Outcome<Seq<(Seq<char>, ExprV)>>
    decreases s.len() - k, 16int, 0int,
{
    if k < 0 || k >= s.len() {
        Outcome::Abort(incomplete_text())
    } else if s[k] != ',' {
        Outcome::Parsed(k, acc)
    } else {
        let k2 = run_end(s, k + 1, CharClass::Space);
        proof {
            lemma_run_end(s, k + 1, CharClass::Space);
        }
        match map_entry(d, s, k2).within(k2, s.len() as int) {
            Outcome::Parsed(k3, e) => entries_rest(d, s, k3, acc.push(e)),
            Outcome::Mismatch => Outcome::Parsed(k2, acc),
            Outcome::Abort(m) => Outcome::Abort(m),
        }
    }
}

/// For each entry that `entries_from` reads from `j`, in order: is its key
/// kept borrowed from the input (see `key_borrowed`)?
#[verifier::opaque]
pub open spec fn entries_from_keys(d: Dialect, s: Seq<char>, j: int) -> Seq<bool>
    decreases s.len() - j, 17int, 0int,
{
    match map_entry(d, s, j).within(j, s.len() as int) {
        Outcome::Parsed(k, _) => seq![key_borrowed(d, s, j)] + entries_rest_keys(d, s, k),
        _ => Seq::empty(),
    }
}

/// The same for the entries that `entries_rest` reads at `k`.
#[verifier::opaque]
pub open spec fn entries_rest_keys(d: Dialect, s: Seq<char>, k: int) -> Seq<bool>
    decreases s.len() - k, 16int, 0int,
{
    if k < 0 || k >= s.len() || s[k] != ',' {
        Seq::empty()
    } else {
        let k2 = run_end(s, k + 1, CharClass::Space);
        proof {
            lemma_run_end(s, k + 1, CharClass::Space);
        }
        match map_entry(d, s, k2).within(k2, s.len() as int) {
            Outcome::Parsed(k3, _) => seq![key_borrowed(d, s, k2)] + entries_rest_keys(d, s, k3),
            _ => Seq::empty(),
        }
    }
}

/// The first step of the iterator, and the keys of `entries_from`.
#[verifier::spinoff_prover]
pub proof fn lemma_first_keys(d: Dialect, s: Seq<char>, j: int)
    requires
        0 <= j <= s.len(),
    ensures
        ({
            let (p, st, o) = comma_next(d, s, j, CommaState::First);
            &&& o is Some ==> entries_from_keys(d, s, j) == seq![key_borrowed(d, s, j)]
                + entries_rest_keys(d, s, p)
            &&& (o is None && st is Done) ==> entries_from_keys(d, s, j) == Seq::<bool>::empty()
        }),
{
    reveal(comma_next);
    reveal(entries_from_keys);
}

/// A further step of the iterator, and the keys of `entries_rest`.
#[verifier::spinoff_prover]
pub proof fn lemma_rest_keys(d: Dialect, s: Seq<char>, k: int)
    requires
        0 <= k <= s.len(),
    ensures
        ({
            let (p, st, o) = comma_next(d, s, k, CommaState::Rest);
            &&& o is Some ==> entries_rest_keys(d, s, k) == seq![
                key_borrowed(d, s, run_end(s, k + 1, CharClass::Space)),
            ] + entries_rest_keys(d, s, p)
            &&& (o is None && st is Done) ==> entries_rest_keys(d, s, k) == Seq::<bool>::empty()
        }),
{
    reveal(comma_next);
    reveal(entries_rest_keys);
}

/// The first step of the iterator reads what `entries_from` starts with.
pub proof fn lemma_first_step(d: Dialect, s: Seq<char>, j: int)
    requires
        0 <= j <= s.len(),
    ensures
        ({
            let (p, st, o) = comma_next(d, s, j, CommaState::First);
            match o {
                Some(e) => st == CommaState::Rest && j <= p <= s.len() && entries_from(d, s, j)
                    == entries_rest(d, s, p, seq![e]),
                None => match st {
                    CommaState::Failed(m) => entries_from(d, s, j) == Outcome::<
                        Seq<(Seq<char>, ExprV)>,
                    >::Abort(m),
                    CommaState::Done => p == j && entries_from(d, s, j) == Outcome::Parsed(
                        p,
                        Seq::<(Seq<char>, ExprV)>::empty(),
                    ),
                    _ => false,
                },
            }
        }),
{
    reveal(comma_next);
}

/// A further step of the iterator reads what `entries_rest` goes on with.
pub proof fn lemma_rest_step(d: Dialect, s: Seq<char>, k: int, acc: Seq<(Seq<char>, ExprV)>)
    requires
        0 <= k <= s.len(),
    ensures
        ({
            let (p, st, o) = comma_next(d, s, k, CommaState::Rest);
            match o {
                Some(e) => st == CommaState::Rest && k < p <= s.len() && entries_rest(d, s, k, acc)
                    == entries_rest(d, s, p, acc.push(e)),
                None => match st {
                    CommaState::Failed(m) => entries_rest(d, s, k, acc) == Outcome::<
                        Seq<(Seq<char>, ExprV)>,
                    >::Abort(m),
                    CommaState::Done => k <= p <= s.len() && entries_rest(d, s, k, acc)
                        == Outcome::Parsed(p, acc),
                    _ => false,
                },
            }
        }),
{
    reveal(comma_next);
    if k < s.len() && s[k] == ',' {
        lemma_run_end(s, k + 1, CharClass::Space);
    }
}

/// `"{" comma_map "}"`: the entries form a comma-separated list with at
/// most one trailing comma. In dialect `Parser` they are read through the
/// iterator of module `iter` (see `entries_from`). The map literal holds
/// the entries collected by key and, for each key, whether it is borrowed
/// from the input (see `collect_flags`).
pub open spec fn js_map(d: Dialect, s: Seq<char>, i: int) -> Outcome<ExprV>
    decreases s.len() - i, 20int, 0int,
{
    match tokc(s, i, '{') {
        Some(j) => {
            proof {
                lemma_tok(s, i, seq!['{']);
            }
            let read: Outcome<Seq<(Seq<char>, ExprV)>> = match d {
                Dialect::Combinator => entry_list(d, s, j).within(j, s.len() as int),
                Dialect::Parser => entries_from(d, s, j),
            };
            let flags = match d {
                Dialect::Combinator => entry_list_keys(d, s, j),
                Dialect::Parser => entries_from_keys(d, s, j),
            };
            match read {
                Outcome::Parsed(k, entries) => match tokc(s, k, '}') {
                    Some(m) => Outcome::Parsed(
                        m,
                        ExprV::MapLiteral(collect_entries(entries), collect_flags(entries, flags)),
                    ),
                    None => Outcome::Mismatch,
                },
                Outcome::Mismatch => Outcome::Mismatch,
                Outcome::Abort(m) => Outcome::Abort(m),
            }
        },
        None => Outcome::Mismatch,
    }
}

/// The arrow function `(params) => body`, once its parameter list is known.
pub open spec fn arrow_after(d: Dialect, s: Seq<char>, p: int, params: Seq<Seq<char>>) -> Outcome<
    ExprV,
>
    decreases s.len() - p, 18int, 0int,
{
    match tok(s, p, seq![')']) {
        Some(p1) => match tok(s, p1, seq!['=', '>']) {
            Some(p2) => {
                proof {
                    lemma_tok(s, p, seq![')']);
                    lemma_tok(s, p1, seq!['=', '>']);
                }
                match expr(d, s, p2) {
                    Outcome::Parsed(p3, body) => Outcome::Parsed(
                        p3,
                        ExprV::ArrowFunc { params, body: Box::new(body) },
                    ),
                    Outcome::Mismatch => Outcome::Mismatch,
                    Outcome::Abort(m) => Outcome::Abort(m),
                }
            },
            None => Outcome::Mismatch,
        },
        None => Outcome::Mismatch,
    }
}

/// What follows a parenthesised expression list in dialect `Combinator`:
/// `"=>" body` makes an arrow function where every item is a name; failing
/// that, a single item is a parenthesised expression.
pub open spec fn paren_close(s: Seq<char>, k2: int, args: Seq<ExprV>) -> Outcome<ExprV>
    decreases s.len() - k2, 19int, 0int,
{
    let d = Dialect::Combinator;
    let fallback = if args.len() == 1 {
        Outcome::Parsed(k2, ExprV::Paren(Box::new(args[0])))
    } else {
        Outcome::Mismatch
    };
    match tok(s, k2, seq!['=', '>']) {
        Some(k3) => {
            proof {
                lemma_tok(s, k2, seq!['=', '>']);
            }
            match expr(d, s, k3) {
                Outcome::Parsed(k4, body) => if all_ids(args) {
                    Outcome::Parsed(k4, ExprV::ArrowFunc { params: id_names(args), body: Box::new(body) })
                } else {
                    fallback
                },
                Outcome::Mismatch => fallback,
                Outcome::Abort(m) => Outcome::Abort(m),
            }
        },
        None => fallback,
    }
}

/// What follows `"(" name` in dialect `Parser`: a comma and the rest of a
/// parameter list, or `")"` and possibly `"=>" body`.
pub open spec fn paren_after_name(s: Seq<char>, i3: int, a: Seq<char>) -> Outcome<ExprV>
    decreases s.len() - i3, 19int, 0int,
{
    let d = Dialect::Parser;
    match tokc(s, i3, ',') {
        Some(i4) => {
            let (i5, names) = param_names(s, i4);
            if i4 <= i5 <= s.len() {
                proof {
                    lemma_tok(s, i3, seq![',']);
                }
                arrow_after(d, s, i5, seq![a] + names)
            } else {
                Outcome::Mismatch
            }
        },
        None => match tokc(s, i3, ')') {
            Some(i4) => match tok(s, i4, seq!['=', '>']) {
                Some(q) => {
                    proof {
                        lemma_tok(s, i3, seq![')']);
                        lemma_tok(s, i4, seq!['=', '>']);
                    }
                    match expr(d, s, q) {
                        Outcome::Parsed(r, body) => Outcome::Parsed(
                            r,
                            ExprV::ArrowFunc { params: seq![a], body: Box::new(body) },
                        ),
                        _ => Outcome::Parsed(i4, ExprV::Paren(Box::new(ExprV::ID(a)))),
                    }
                },
                None => Outcome::Parsed(i4, ExprV::Paren(Box::new(ExprV::ID(a)))),
            },
            None => Outcome::Mismatch,
        },
    }
}

/// `"(" comma_expr ")" ("=>" expr)?`: a parenthesised expression, or an
/// arrow function whose parameters are names.
pub open spec fn paren(d: Dialect, s: Seq<char>, i: int) -> Outcome<ExprV>
    decreases s.len() - i, 20int, 0int,
{
    match tokc(s, i, '(') {
        Some(i2) => {
            proof {
                lemma_tok(s, i, seq!['(']);
            }
            match d {
                Dialect::Combinator => match expr_list(d, s, i2).within(i2, s.len() as int) {
                    Outcome::Parsed(k, args) => match tokc(s, k, ')') {
                        Some(k2) => {
                            proof {
                                lemma_tok(s, k, seq![')']);
                            }
                            paren_close(s, k2, args)
                        },
                        None => Outcome::Mismatch,
                    },
                    _ => Outcome::Mismatch,
                },
                Dialect::Parser => match expr(d, s, i2).within(i2, s.len() as int) {
                    Outcome::Parsed(i3, ExprV::ID(a)) => paren_after_name(s, i3, a),
                    Outcome::Parsed(i3, e) => match tokc(s, i3, ')') {
                        Some(i4) => Outcome::Parsed(i4, ExprV::Paren(Box::new(e))),
                        None => Outcome::Mismatch,
                    },
                    Outcome::Mismatch => arrow_after(d, s, i2, Seq::empty()),
                    Outcome::Abort(m) => Outcome::Abort(m),
                },
            }
        },
        None => Outcome::Mismatch,
    }
}

/// What `parse` answers on the whole input `s`: leading blanks are skipped,
/// an expression is read if one is there, and the input must end there. An
/// input holding blanks only is the empty expression. The error is nom's
/// message: for the unread rest, or of the abort.
pub open spec fn parse_result(d: Dialect, s: Seq<char>) -> Result<ExprV, Seq<char>> {
    let i = run_end(s, 0, CharClass::Space);
    match expr(d, s, i) {
        Outcome::Parsed(j, e) => if j == s.len() {
            Ok(e)
        } else {
            Err(eof_error_text(s.subrange(j, s.len() as int)))
        },
        Outcome::Mismatch => if i == s.len() {
            Ok(ExprV::Empty)
        } else {
            Err(eof_error_text(s.subrange(i, s.len() as int)))
        },
        Outcome::Abort(m) => Err(m),
    }
}

} // verus!
