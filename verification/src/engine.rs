//! The recursive-descent parser. Each function reads one rule of the
//! grammar in `syntax` and is proved to answer what that rule states.
use crate::ast::{
    key_flags, lemma_key_flags_push, lemma_view_entries, lemma_view_entries_push, lemma_view_list_push, view_entries, view_entry,
    view_list, BinOp, ExprV, Expression, Literal, Number, UnaryOp,
};
use crate::iter::comma_separated_iter;
use crate::outside::{expect_end, scan_float, string_from_chars};
use crate::scan::{char_vec, custom_ident, ident_name, run_end, string_literal, tok, tokc};
use crate::syntax;
use crate::syntax::{CharClass, Dialect, Outcome, StepV};
use std::borrow::Cow;
use vstd::prelude::*;
use vstd::string::StrSliceExecFns;

verus! {

/// The input text together with its characters.
pub struct Input<'a> {
    pub text: &'a str,
    pub cs: Vec<char>,
}

impl<'a> Input<'a> {
    pub open spec fn wf(&self) -> bool {
        self.cs@ == self.text@
    }

    pub fn new(text: &'a str) -> (r: Input<'a>)
        ensures
            r.wf(),
            r.text == text,
    {
        Input { text, cs: char_vec(text) }
    }

    /// The characters from `from` to `to`, borrowed from the text.
    pub fn slice(&self, from: usize, to: usize) -> (r: &'a str)
        requires
            self.wf(),
            from <= to <= self.cs.len(),
        ensures
            r@ == self.cs@.subrange(from as int, to as int),
    {
        self.text.substring_char(from, to)
    }
}

/// What a grammar function answers: see `syntax::Outcome`.
pub enum Step<T> {
    Parsed(usize, T),
    Mismatch,
    Abort(String),
}

impl<T: DeepView> Step<T> {
    pub open spec fn outcome(&self) -> Outcome<T::V> {
        match self {
            Step::Parsed(j, v) => Outcome::Parsed(*j as int, v.deep_view()),
            Step::Mismatch => Outcome::Mismatch,
            Step::Abort(m) => Outcome::Abort(m@),
        }
    }

    /// A position reported lies from `i` to `n`.
    pub open spec fn ends_in(&self, i: int, n: int) -> bool {
        self matches Step::Parsed(j, _) ==> i <= *j <= n
    }
}

/// One step after a primary expression.
pub enum PostfixStep<'a> {
    Member(&'a str),
    Index(Option<Box<Expression<'a>>>),
    Invoke(Vec<Expression<'a>>),
}

impl<'a> DeepView for PostfixStep<'a> {
    type V = StepV;

    open spec fn deep_view(&self) -> StepV {
        match self {
            PostfixStep::Member(n) => StepV::Member(n@),
            PostfixStep::Index(a) => StepV::Index(
                match a {
                    Some(b) => Some((**b).deep_view()),
                    None => None,
                },
            ),
            PostfixStep::Invoke(args) => StepV::Invoke(view_list(args@)),
        }
    }
}

fn apply_unary<'a>(op: UnaryOp, v: Expression<'a>) -> (r: Expression<'a>)
    ensures
        r.deep_view() == syntax::apply_unary(op, v.deep_view()),
{
    match v {
        Expression::Literal(Literal::Number(num)) => match op {
            UnaryOp::Plus => Expression::Literal(Literal::Number(num)),
            UnaryOp::Minus => Expression::Literal(
                Literal::Number(Number { negative: !num.negative, text: num.text }),
            ),
            UnaryOp::Not => Expression::Unary(op, Box::new(Expression::Literal(Literal::Number(num)))),
        },
        other => Expression::Unary(op, Box::new(other)),
    }
}

fn apply_step<'a>(acc: Expression<'a>, step: PostfixStep<'a>) -> (r: Expression<'a>)
    ensures
        r.deep_view() == syntax::apply_step(acc.deep_view(), step.deep_view()),
{
    match step {
        PostfixStep::Member(name) => Expression::Getter(Box::new(acc), name),
        PostfixStep::Index(argument) => Expression::Index { receiver: Box::new(acc), argument },
        PostfixStep::Invoke(arguments) => {
            match acc {
                Expression::Getter(inner, method) => Expression::Invoke {
                    receiver: inner,
                    method: Some(method),
                    arguments,
                },
                other => Expression::Invoke { receiver: Box::new(other), method: None, arguments },
            }
        },
    }
}


/// The characters of the input and how far they reach: the common
/// precondition of the grammar functions.
pub open spec fn at(inp: &Input, i: int) -> bool {
    inp.wf() && 0 <= i <= inp.cs.len()
}

fn level_op(cs: &Vec<char>, i: usize, lvl: usize) -> (r: Option<(usize, BinOp)>)
    requires
        i <= cs.len(),
    ensures
        match r {
            Some((j, op)) => syntax::level_op(cs@, i as int, lvl as int) == Some((j as int, op)),
            None => syntax::level_op(cs@, i as int, lvl as int) is None,
        },
        r matches Some((j, _)) ==> i < j <= cs.len(),
{
    proof {
        syntax::lemma_level_op(cs@, i as int, lvl as int);
    }
    if lvl == 0 {
        if let Some(j) = tok(cs, i, &['|', '>']) {
            return Some((j, BinOp::Pipe));
        }
    } else if lvl == 1 {
        if let Some(j) = tok(cs, i, &['?', '?']) {
            return Some((j, BinOp::NullishCoalesce));
        }
    } else if lvl == 2 {
        if let Some(j) = tok(cs, i, &['|', '|']) {
            return Some((j, BinOp::LogicalOr));
        }
    } else if lvl == 3 {
        if let Some(j) = tok(cs, i, &['&', '&']) {
            return Some((j, BinOp::LogicalAnd));
        }
    } else if lvl == 4 {
        if let Some(j) = tokc(cs, i, '|') {
            return Some((j, BinOp::BitwiseOr));
        }
    } else if lvl == 5 {
        if let Some(j) = tokc(cs, i, '^') {
            return Some((j, BinOp::BitwiseXor));
        }
    } else if lvl == 6 {
        if let Some(j) = tokc(cs, i, '&') {
            return Some((j, BinOp::BitwiseAnd));
        }
    } else if lvl == 7 {
        if let Some(j) = tok(cs, i, &['=', '=', '=']) {
            return Some((j, BinOp::StrictEqual));
        }
        if let Some(j) = tok(cs, i, &['=', '=']) {
            return Some((j, BinOp::Equal));
        }
        if let Some(j) = tok(cs, i, &['!', '=', '=']) {
            return Some((j, BinOp::StrictNotEqual));
        }
        if let Some(j) = tok(cs, i, &['!', '=']) {
            return Some((j, BinOp::NotEqual));
        }
    } else if lvl == 8 {
        if let Some(j) = tok(cs, i, &['>', '=']) {
            return Some((j, BinOp::GreaterOrEqual));
        }
        if let Some(j) = tok(cs, i, &['<', '=']) {
            return Some((j, BinOp::LessOrEqual));
        }
        if let Some(j) = tokc(cs, i, '>') {
            return Some((j, BinOp::GreaterThan));
        }
        if let Some(j) = tokc(cs, i, '<') {
            return Some((j, BinOp::LessThan));
        }
    } else if lvl == 9 {
        if let Some(j) = tokc(cs, i, '+') {
            return Some((j, BinOp::Add));
        }
        if let Some(j) = tokc(cs, i, '-') {
            return Some((j, BinOp::Subtract));
        }
    } else {
        if let Some(j) = tokc(cs, i, '*') {
            return Some((j, BinOp::Multiply));
        }
        if let Some(j) = tokc(cs, i, '/') {
            return Some((j, BinOp::Divide));
        }
        if let Some(j) = tokc(cs, i, '%') {
            return Some((j, BinOp::Modulo));
        }
    }
    None
}

fn unary_op(cs: &Vec<char>, i: usize) -> (r: Option<(usize, UnaryOp)>)
    requires
        i <= cs.len(),
    ensures
        match r {
            Some((j, op)) => syntax::unary_op(cs@, i as int) == Some((j as int, op)),
            None => syntax::unary_op(cs@, i as int) is None,
        },
        r matches Some((j, _)) ==> i < j <= cs.len(),
{
    if let Some(j) = tokc(cs, i, '+') {
        Some((j, UnaryOp::Plus))
    } else if let Some(j) = tokc(cs, i, '-') {
        Some((j, UnaryOp::Minus))
    } else if let Some(j) = tokc(cs, i, '!') {
        Some((j, UnaryOp::Not))
    } else {
        None
    }
}

fn literal<'a>(d: Dialect, inp: &Input<'a>, i: usize) -> (r: Step<Expression<'a>>)
    requires
        at(inp, i as int),
    ensures
        r.outcome() == syntax::literal(d, inp.cs@, i as int),
        r.ends_in(i as int, inp.cs.len() as int),
{
    let cs = &inp.cs;
    if let Some(j) = tok(cs, i, &['t', 'r', 'u', 'e']) {
        return Step::Parsed(j, Expression::Literal(Literal::Boolean(true)));
    }
    if let Some(j) = tok(cs, i, &['f', 'a', 'l', 's', 'e']) {
        return Step::Parsed(j, Expression::Literal(Literal::Boolean(false)));
    }
    if let Some(j) = tok(cs, i, &['n', 'u', 'l', 'l']) {
        return Step::Parsed(j, Expression::Literal(Literal::Null));
    }
    if let Some(j) = tok(cs, i, &['u', 'n', 'd', 'e', 'f', 'i', 'n', 'e', 'd']) {
        return Step::Parsed(j, Expression::Literal(Literal::Undefined));
    }
    proof {
        syntax::lemma_tok(cs@, i as int, seq!['t', 'r', 'u', 'e']);
        syntax::lemma_tok(cs@, i as int, seq!['f', 'a', 'l', 's', 'e']);
        syntax::lemma_tok(cs@, i as int, seq!['n', 'u', 'l', 'l']);
        syntax::lemma_tok(cs@, i as int, seq!['u', 'n', 'd', 'e', 'f', 'i', 'n', 'e', 'd']);
    }
    let rest = inp.slice(i, cs.len());
    proof {
        syntax::lemma_float_shape(rest@);
    }
    match scan_float(rest) {
        Ok(t) => {
            let n = t.unicode_len();
            assert(t@ == cs@.subrange(i as int, i + n));
            let j = run_end(cs, i + n, CharClass::Space);
            Step::Parsed(
                j,
                Expression::Literal(Literal::Number(Number { negative: false, text: t.to_owned() })),
            )
        },
        Err(Some(m)) => Step::Abort(m),
        Err(None) => match string_literal(d, cs, i) {
            Ok((j, None)) => Step::Parsed(
                run_end(cs, j, CharClass::Space),
                Expression::Literal(Literal::String(Cow::Borrowed(inp.slice(i + 1, j - 1)))),
            ),
            Ok((j, Some(v))) => Step::Parsed(
                run_end(cs, j, CharClass::Space),
                Expression::Literal(Literal::String(Cow::Owned(string_from_chars(v.as_slice())))),
            ),
            Err(_) => Step::Mismatch,
        },
    }
}

/// An expression (see `syntax::expr`).
pub fn expr<'a>(d: Dialect, inp: &Input<'a>, i: usize) -> (r: Step<Expression<'a>>)
    requires
        at(inp, i as int),
    ensures
        r.outcome() == syntax::expr(d, inp.cs@, i as int),
        r.ends_in(i as int, inp.cs.len() as int),
    decreases inp.cs.len() - i, 100int, 0int,
{
    assignment(d, inp, i)
}

fn assignment<'a>(d: Dialect, inp: &Input<'a>, i: usize) -> (r: Step<Expression<'a>>)
    requires
        at(inp, i as int),
    ensures
        r.outcome() == syntax::assignment(d, inp.cs@, i as int),
        r.ends_in(i as int, inp.cs.len() as int),
    decreases inp.cs.len() - i, 99int, 0int,
{
    match ternary(d, inp, i) {
        Step::Parsed(i2, left) => match tokc(&inp.cs, i2, '=') {
            Some(j) => match expr(d, inp, j) {
                Step::Parsed(k, right) => Step::Parsed(
                    k,
                    Expression::Binary {
                        op: BinOp::Assign,
                        left: Box::new(left),
                        right: Box::new(right),
                    },
                ),
                _ => Step::Parsed(i2, left),
            },
            None => Step::Parsed(i2, left),
        },
        Step::Mismatch => Step::Mismatch,
        Step::Abort(m) => Step::Abort(m),
    }
}

fn ternary<'a>(d: Dialect, inp: &Input<'a>, i: usize) -> (r: Step<Expression<'a>>)
    requires
        at(inp, i as int),
    ensures
        r.outcome() == syntax::ternary(d, inp.cs@, i as int),
        r.ends_in(i as int, inp.cs.len() as int),
    decreases inp.cs.len() - i, 98int, 0int,
{
    match binary(d, inp, i, 0) {
        Step::Parsed(i2, cond) => {
            if let Some(j1) = tokc(&inp.cs, i2, '?') {
                if let Step::Parsed(j2, left) = expr(d, inp, j1) {
                    if let Some(j3) = tokc(&inp.cs, j2, ':') {
                        if let Step::Parsed(j4, right) = expr(d, inp, j3) {
                            return Step::Parsed(
                                j4,
                                Expression::Ternary {
                                    cond: Box::new(cond),
                                    left: Box::new(left),
                                    right: Box::new(right),
                                },
                            );
                        }
                    }
                }
            }
            Step::Parsed(i2, cond)
        },
        Step::Mismatch => Step::Mismatch,
        Step::Abort(m) => Step::Abort(m),
    }
}

/// The operand of level `lvl` (see `syntax::binary`).
fn operand<'a>(d: Dialect, inp: &Input<'a>, i: usize, lvl: usize) -> (r: Step<Expression<'a>>)
    requires
        at(inp, i as int),
        lvl <= 10,
    ensures
        r.outcome() == (if lvl < 10 {
            syntax::binary(d, inp.cs@, i as int, lvl + 1)
        } else {
            syntax::unary(d, inp.cs@, i as int)
        }),
        r.ends_in(i as int, inp.cs.len() as int),
    decreases inp.cs.len() - i, 40int, 2 * (10 - lvl) + 1,
{
    if lvl < 10 {
        binary(d, inp, i, lvl + 1)
    } else {
        unary(d, inp, i)
    }
}

/// The binary level `lvl` (see `syntax::binary`): operands of the next
/// tighter level joined, from the left, by the operators of this level.
pub fn binary<'a>(d: Dialect, inp: &Input<'a>, i: usize, lvl: usize) -> (r: Step<Expression<'a>>)
    requires
        at(inp, i as int),
        lvl <= 10,
    ensures
        r.outcome() == syntax::binary(d, inp.cs@, i as int, lvl as int),
        r.ends_in(i as int, inp.cs.len() as int),
    decreases inp.cs.len() - i, 40int, 2 * (10 - lvl) + 2,
{
    let ghost s = inp.cs@;
    let (mut j, mut acc) = match operand(d, inp, i, lvl) {
        Step::Parsed(j, e) => (j, e),
        Step::Mismatch => {
            return Step::Mismatch;
        },
        Step::Abort(m) => {
            return Step::Abort(m);
        },
    };
    loop
        invariant
            at(inp, i as int),
            s == inp.cs@,
            lvl <= 10,
            i <= j <= inp.cs.len(),
            syntax::binary(d, s, i as int, lvl as int) == syntax::binary_rest(
                d,
                s,
                j as int,
                lvl as int,
                acc.deep_view(),
            ),
        decreases inp.cs.len() - j,
    {
        match level_op(&inp.cs, j, lvl) {
            Some((j2, op)) => match operand(d, inp, j2, lvl) {
                Step::Parsed(j3, right) => {
                    acc = Expression::Binary { op, left: Box::new(acc), right: Box::new(right) };
                    j = j3;
                },
                Step::Mismatch => {
                    return Step::Parsed(j, acc);
                },
                Step::Abort(m) => {
                    return Step::Abort(m);
                },
            },
            None => {
                return Step::Parsed(j, acc);
            },
        }
    }
}

/// A prefix expression (see `syntax::unary`): prefix operators applied to a
/// postfix expression.
pub fn unary<'a>(d: Dialect, inp: &Input<'a>, i: usize) -> (r: Step<Expression<'a>>)
    requires
        at(inp, i as int),
    ensures
        r.outcome() == syntax::unary(d, inp.cs@, i as int),
        r.ends_in(i as int, inp.cs.len() as int),
    decreases inp.cs.len() - i, 30int, 0int,
{
    match unary_op(&inp.cs, i) {
        Some((j, op)) => match unary(d, inp, j) {
            Step::Parsed(k, v) => Step::Parsed(k, apply_unary(op, v)),
            Step::Mismatch => postfix(d, inp, i),
            Step::Abort(m) => Step::Abort(m),
        },
        None => postfix(d, inp, i),
    }
}

/// A postfix expression (see `syntax::postfix`): a primary expression and
/// the postfix steps after it.
pub fn postfix<'a>(d: Dialect, inp: &Input<'a>, i: usize) -> (r: Step<Expression<'a>>)
    requires
        at(inp, i as int),
    ensures
        r.outcome() == syntax::postfix(d, inp.cs@, i as int),
        r.ends_in(i as int, inp.cs.len() as int),
    decreases inp.cs.len() - i, 29int, 0int,
{
    match primary(d, inp, i) {
        Step::Parsed(j, e) => postfix_steps(d, inp, j, e),
        Step::Mismatch => Step::Mismatch,
        Step::Abort(m) => Step::Abort(m),
    }
}

/// The postfix steps from `j` on, applied to `acc` (see
/// `syntax::postfix_rest`).
pub fn postfix_steps<'a>(d: Dialect, inp: &Input<'a>, from: usize, receiver: Expression<'a>) -> (r: Step<
    Expression<'a>,
>)
    requires
        at(inp, from as int),
    ensures
        r.outcome() == syntax::postfix_rest(d, inp.cs@, from as int, receiver.deep_view()),
        r.ends_in(from as int, inp.cs.len() as int),
    decreases inp.cs.len() - from, 28int, 0int,
{
    let ghost s = inp.cs@;
    let ghost first = receiver.deep_view();
    let mut j = from;
    let mut acc = receiver;
    loop
        invariant
            at(inp, from as int),
            s == inp.cs@,
            first == receiver.deep_view(),
            from <= j <= inp.cs.len(),
            syntax::postfix_rest(d, s, from as int, first) == syntax::postfix_rest(
                d,
                s,
                j as int,
                acc.deep_view(),
            ),
        decreases inp.cs.len() - j,
    {
        match next_step(d, inp, j) {
            Step::Parsed(k, step) => {
                if k > j {
                    acc = apply_step(acc, step);
                    j = k;
                } else {
                    return Step::Mismatch;
                }
            },
            Step::Mismatch => {
                return Step::Parsed(j, acc);
            },
            Step::Abort(m) => {
                return Step::Abort(m);
            },
        }
    }
}

fn next_step<'a>(d: Dialect, inp: &Input<'a>, j: usize) -> (r: Step<PostfixStep<'a>>)
    requires
        at(inp, j as int),
    ensures
        r.outcome() == syntax::next_step(d, inp.cs@, j as int),
        r.ends_in(j as int, inp.cs.len() as int),
    decreases inp.cs.len() - j, 26int, 0int,
{
    let cs = &inp.cs;
    if let Some(k) = tokc(cs, j, '.') {
        return match ident_name(cs, k) {
            Some(e) => Step::Parsed(
                run_end(cs, e, CharClass::Space),
                PostfixStep::Member(inp.slice(k, e)),
            ),
            None => Step::Mismatch,
        };
    }
    if let Some(k) = tokc(cs, j, '[') {
        return match expr(d, inp, k) {
            Step::Parsed(k2, e) => match tokc(cs, k2, ']') {
                Some(k3) => Step::Parsed(k3, PostfixStep::Index(Some(Box::new(e)))),
                None => Step::Mismatch,
            },
            Step::Mismatch => match tokc(cs, k, ']') {
                Some(k3) => Step::Parsed(k3, PostfixStep::Index(None)),
                None => Step::Mismatch,
            },
            Step::Abort(m) => Step::Abort(m),
        };
    }
    if let Some(k) = tokc(cs, j, '(') {
        let (k2, items) = expr_list(d, inp, k);
        return match tokc(cs, k2, ')') {
            Some(k3) => Step::Parsed(k3, PostfixStep::Invoke(items)),
            None => Step::Mismatch,
        };
    }
    Step::Mismatch
}

fn primary<'a>(d: Dialect, inp: &Input<'a>, i: usize) -> (r: Step<Expression<'a>>)
    requires
        at(inp, i as int),
    ensures
        r.outcome() == syntax::primary(d, inp.cs@, i as int),
        r.ends_in(i as int, inp.cs.len() as int),
    decreases inp.cs.len() - i, 28int, 0int,
{
    match literal(d, inp, i) {
        Step::Mismatch => {},
        other => {
            return other;
        },
    }
    match ident(d, inp, i) {
        Step::Mismatch => {},
        other => {
            return other;
        },
    }
    if let Some(j) = custom_ident(&inp.cs, i) {
        return Step::Parsed(j, Expression::CustomID(inp.slice(i + 2, j - 1)));
    }
    match list(d, inp, i) {
        Step::Mismatch => {},
        other => {
            return other;
        },
    }
    match js_map(d, inp, i) {
        Step::Mismatch => {},
        other => {
            return other;
        },
    }
    paren(d, inp, i)
}

fn ident<'a>(d: Dialect, inp: &Input<'a>, i: usize) -> (r: Step<Expression<'a>>)
    requires
        at(inp, i as int),
    ensures
        r.outcome() == syntax::ident(d, inp.cs@, i as int),
        r.ends_in(i as int, inp.cs.len() as int),
    decreases inp.cs.len() - i, 20int, 0int,
{
    let cs = &inp.cs;
    match ident_name(cs, i) {
        Some(e) => {
            let w = run_end(cs, e, CharClass::Space);
            let name = inp.slice(i, e);
            match tok(cs, w, &['=', '>']) {
                Some(q) => match expr(d, inp, q) {
                    Step::Parsed(r, body) => {
                        let f = Expression::ArrowFunc { params: vec![name], body: Box::new(body) };
                        assert(f.deep_view()->ArrowFunc_params =~= seq![name@]);
                        Step::Parsed(r, f)
                    },
                    _ => Step::Parsed(w, Expression::ID(name)),
                },
                None => Step::Parsed(w, Expression::ID(name)),
            }
        },
        None => Step::Mismatch,
    }
}

fn list<'a>(d: Dialect, inp: &Input<'a>, i: usize) -> (r: Step<Expression<'a>>)
    requires
        at(inp, i as int),
    ensures
        r.outcome() == syntax::list(d, inp.cs@, i as int),
        r.ends_in(i as int, inp.cs.len() as int),
    decreases inp.cs.len() - i, 20int, 0int,
{
    match tokc(&inp.cs, i, '[') {
        Some(j) => {
            let (k, items) = expr_list(d, inp, j);
            match tokc(&inp.cs, k, ']') {
                Some(m) => Step::Parsed(m, Expression::List(items)),
                None => Step::Mismatch,
            }
        },
        None => Step::Mismatch,
    }
}

/// A comma-separated list of expressions (see `syntax::expr_list`).
pub fn expr_list<'a>(d: Dialect, inp: &Input<'a>, j: usize) -> (r: (usize, Vec<Expression<'a>>))
    requires
        at(inp, j as int),
    ensures
        syntax::expr_list(d, inp.cs@, j as int) == Outcome::Parsed(r.0 as int, view_list(r.1@)),
        j <= r.0 <= inp.cs.len(),
    decreases inp.cs.len() - j, 110int, 0int,
{
    let ghost s = inp.cs@;
    let mut items: Vec<Expression<'a>> = Vec::new();
    let mut pos = match expr(d, inp, j) {
        Step::Parsed(k, e) => {
            items.push(e);
            proof {
                lemma_view_list_push(Seq::empty(), items@[0]);
                assert(Seq::<Expression<'a>>::empty().push(items@[0]) =~= items@);
            }
            k
        },
        _ => {
            return (j, items);
        },
    };
    loop
        invariant
            at(inp, j as int),
            s == inp.cs@,
            j <= pos <= inp.cs.len(),
            syntax::expr_list(d, s, j as int) == syntax::expr_list_rest(
                d,
                s,
                pos as int,
                view_list(items@),
            ),
        decreases inp.cs.len() - pos,
    {
        match tokc(&inp.cs, pos, ',') {
            Some(p1) => match expr(d, inp, p1) {
                Step::Parsed(p2, e) => {
                    proof {
                        lemma_view_list_push(items@, e);
                    }
                    items.push(e);
                    pos = p2;
                },
                _ => {
                    return (p1, items);
                },
            },
            None => {
                return (pos, items);
            },
        }
    }
}


/// `(identifier | string) ":" expr` (see `syntax::map_entry`). The key is
/// borrowed from the input where `syntax::key_borrowed` says so.
pub fn map_entry<'a>(d: Dialect, inp: &Input<'a>, i: usize) -> (r: Step<(Cow<'a, str>, Expression<'a>)>)
    requires
        at(inp, i as int),
    ensures
        r.outcome() == syntax::map_entry(d, inp.cs@, i as int),
        r.ends_in(i as int, inp.cs.len() as int),
        r matches Step::Parsed(k, _) ==> i < k,
        r matches Step::Parsed(_, e) ==> (e.0 is Borrowed <==> syntax::key_borrowed(
            d,
            inp.cs@,
            i as int,
        )),
    decreases inp.cs.len() - i, 15int, 0int,
{
    let cs = &inp.cs;
    let (k, key) = match ident_name(cs, i) {
        Some(e) => (run_end(cs, e, CharClass::Space), Cow::Borrowed(inp.slice(i, e))),
        None => match string_literal(d, cs, i) {
            Ok((e, None)) => (e, Cow::Borrowed(inp.slice(i + 1, e - 1))),
            Ok((e, Some(v))) => (e, Cow::Owned(string_from_chars(v.as_slice()))),
            Err(_) => {
                return Step::Mismatch;
            },
        },
    };
    match tokc(cs, run_end(cs, k, CharClass::Space), ':') {
        Some(q) => match expr(d, inp, q) {
            Step::Parsed(r, v) => Step::Parsed(r, (key, v)),
            Step::Mismatch => Step::Mismatch,
            Step::Abort(m) => Step::Abort(m),
        },
        None => Step::Mismatch,
    }
}

/// A comma-separated list of map entries (see `syntax::entry_list`).
#[verifier::spinoff_prover]
#[verifier::rlimit(40)]
pub fn entry_list<'a>(d: Dialect, inp: &Input<'a>, j: usize) -> (r: (
    usize,
    Vec<(Cow<'a, str>, Expression<'a>)>,
))
    requires
        at(inp, j as int),
    ensures
        syntax::entry_list(d, inp.cs@, j as int) == Outcome::Parsed(
            r.0 as int,
            view_entries(r.1@),
        ),
        key_flags(r.1@) == syntax::entry_list_keys(d, inp.cs@, j as int),
        j <= r.0 <= inp.cs.len(),
    decreases inp.cs.len() - j, 110int, 0int,
{
    let ghost s = inp.cs@;
    proof {
        syntax::lemma_entry_keys_start(d, s, j as int);
    }
    let mut items: Vec<(Cow<'a, str>, Expression<'a>)> = Vec::new();
    let mut pos = match map_entry(d, inp, j) {
        Step::Parsed(k, e) => {
            items.push(e);
            proof {
                lemma_view_entries_push(Seq::empty(), items@[0]);
                assert(Seq::<(Cow<'a, str>, Expression<'a>)>::empty().push(items@[0]) =~= items@);
                assert(key_flags(items@) =~= seq![syntax::key_borrowed(d, s, j as int)]);
            }
            k
        },
        _ => {
            assert(key_flags(items@) =~= Seq::<bool>::empty());
            return (j, items);
        },
    };
    loop
        invariant
            at(inp, j as int),
            s == inp.cs@,
            j <= pos <= inp.cs.len(),
            syntax::entry_list(d, s, j as int) == syntax::entry_list_rest(
                d,
                s,
                pos as int,
                view_entries(items@),
            ),
            syntax::entry_list_keys(d, s, j as int) == key_flags(items@)
                + syntax::entry_list_keys_rest(d, s, pos as int),
        decreases inp.cs.len() - pos,
    {
        match tokc(&inp.cs, pos, ',') {
            Some(p1) => match map_entry(d, inp, p1) {
                Step::Parsed(p2, e) => {
                    let ghost before = items@;
                    proof {
                        lemma_view_entries_push(items@, e);
                        lemma_key_flags_push(items@, e);
                        syntax::lemma_entry_keys_step(d, s, pos as int);
                        assert(key_flags(before) + (seq![syntax::key_borrowed(d, s, p1 as int)]
                            + syntax::entry_list_keys_rest(d, s, p2 as int)) =~= key_flags(
                            before,
                        ).push(syntax::key_borrowed(d, s, p1 as int))
                            + syntax::entry_list_keys_rest(d, s, p2 as int));
                    }
                    items.push(e);
                    pos = p2;
                },
                _ => {
                    proof {
                        syntax::lemma_entry_keys_step(d, s, pos as int);
                        assert(key_flags(items@) + Seq::<bool>::empty() =~= key_flags(items@));
                    }
                    return (p1, items);
                },
            },
            None => {
                proof {
                    syntax::lemma_entry_keys_step(d, s, pos as int);
                    assert(key_flags(items@) + Seq::<bool>::empty() =~= key_flags(items@));
                }
                return (pos, items);
            },
        }
    }
}

/// The names of a parameter list after its first name and comma (see
/// `syntax::param_names`).
fn param_names<'a>(inp: &Input<'a>, j: usize) -> (r: (usize, Vec<&'a str>))
    requires
        at(inp, j as int),
    ensures
        syntax::param_names(inp.cs@, j as int) == (r.0 as int, r.1.deep_view()),
        j <= r.0 <= inp.cs.len(),
    decreases inp.cs.len() - j,
{
    let cs = &inp.cs;
    match ident_name(cs, j) {
        Some(e) => {
            let w = run_end(cs, e, CharClass::Space);
            match tokc(cs, w, ',') {
                Some(n) => {
                    let (k, rest) = param_names(inp, n);
                    let mut names = vec![inp.slice(j, e)];
                    let mut rest = rest;
                    let ghost r1 = rest.deep_view();
                    names.append(&mut rest);
                    assert(names.deep_view() =~= seq![cs@.subrange(j as int, e as int)] + r1);
                    (k, names)
                },
                None => {
                    let names = vec![inp.slice(j, e)];
                    assert(names.deep_view() =~= seq![cs@.subrange(j as int, e as int)]);
                    (w, names)
                },
            }
        },
        None => {
            let names: Vec<&'a str> = Vec::new();
            assert(names.deep_view() =~= Seq::<Seq<char>>::empty());
            (j, names)
        },
    }
}

/// The arrow function `) => body` once its parameters are known (see
/// `syntax::arrow_after`).
fn arrow_after<'a>(d: Dialect, inp: &Input<'a>, p: usize, params: Vec<&'a str>) -> (r: Step<
    Expression<'a>,
>)
    requires
        at(inp, p as int),
    ensures
        r.outcome() == syntax::arrow_after(d, inp.cs@, p as int, params.deep_view()),
        r.ends_in(p as int, inp.cs.len() as int),
    decreases inp.cs.len() - p, 18int, 0int,
{
    let cs = &inp.cs;
    match tokc(cs, p, ')') {
        Some(p1) => match tok(cs, p1, &['=', '>']) {
            Some(p2) => match expr(d, inp, p2) {
                Step::Parsed(p3, body) => {
                    let ghost pv = params.deep_view();
                    let r = Expression::ArrowFunc { params, body: Box::new(body) };
                    assert(r.deep_view()->ArrowFunc_params =~= pv);
                    Step::Parsed(p3, r)
                },
                Step::Mismatch => Step::Mismatch,
                Step::Abort(m) => Step::Abort(m),
            },
            None => Step::Mismatch,
        },
        None => Step::Mismatch,
    }
}

/// The names of these expressions, if all are plain names.
fn ids_of<'a>(args: &Vec<Expression<'a>>) -> (r: Option<Vec<&'a str>>)
    ensures
        r is Some <==> syntax::all_ids(view_list(args@)),
        r matches Some(v) ==> v.deep_view() == syntax::id_names(view_list(args@)),
{
    let ghost av = view_list(args@);
    proof {
        crate::ast::lemma_view_list(args@);
    }
    let mut names: Vec<&'a str> = Vec::new();
    let mut k: usize = 0;
    while k < args.len()
        invariant
            k <= args.len(),
            av == view_list(args@),
            av.len() == args.len(),
            forall|t: int| 0 <= t < args.len() ==> #[trigger] av[t] == args@[t].deep_view(),
            forall|t: int| 0 <= t < k ==> (#[trigger] av[t]) is ID,
            names.deep_view() == syntax::id_names(av.take(k as int)),
        decreases args.len() - k,
    {
        match args[k].as_id() {
            Some(n) => {
                let ghost before = names.deep_view();
                assert(av[k as int] == args@[k as int].deep_view());
                names.push(n);
                assert(names.deep_view() =~= before.push(n@));
                assert(av.take(k + 1) =~= av.take(k as int).push(av[k as int]));
                assert(syntax::id_names(av.take(k + 1)) =~= syntax::id_names(av.take(k as int)).push(
                    av[k as int]->ID_0,
                ));
            },
            None => {
                assert(!(av[k as int] is ID));
                return None;
            },
        }
        k = k + 1;
    }
    assert(av.take(k as int) =~= av);
    Some(names)
}

/// `"(" ... ")" ("=>" expr)?` (see `syntax::paren`).
pub fn paren<'a>(d: Dialect, inp: &Input<'a>, i: usize) -> (r: Step<Expression<'a>>)
    requires
        at(inp, i as int),
    ensures
        r.outcome() == syntax::paren(d, inp.cs@, i as int),
        r.ends_in(i as int, inp.cs.len() as int),
    decreases inp.cs.len() - i, 20int, 1int,
{
    match d {
        Dialect::Combinator => paren_list(inp, i),
        Dialect::Parser => paren_names(inp, i),
    }
}

/// A parenthesised expression list, then possibly `=> body` (dialect
/// `Combinator`).
fn paren_list<'a>(inp: &Input<'a>, i: usize) -> (r: Step<Expression<'a>>)
    requires
        at(inp, i as int),
    ensures
        r.outcome() == syntax::paren(Dialect::Combinator, inp.cs@, i as int),
        r.ends_in(i as int, inp.cs.len() as int),
    decreases inp.cs.len() - i, 20int, 0int,
{
    let d = Dialect::Combinator;
    let cs = &inp.cs;
    let i2 = match tokc(cs, i, '(') {
        Some(i2) => i2,
        None => {
            return Step::Mismatch;
        },
    };
    let (k, args) = expr_list(d, inp, i2);
    match tokc(cs, k, ')') {
        Some(k2) => paren_close(inp, k2, args),
        None => Step::Mismatch,
    }
}

/// What follows a parenthesised expression list (see `syntax::paren_close`).
fn paren_close<'a>(inp: &Input<'a>, k2: usize, args: Vec<Expression<'a>>) -> (r: Step<Expression<'a>>)
    requires
        at(inp, k2 as int),
    ensures
        r.outcome() == syntax::paren_close(inp.cs@, k2 as int, view_list(args@)),
        r.ends_in(k2 as int, inp.cs.len() as int),
    decreases inp.cs.len() - k2, 19int, 0int,
{
    let d = Dialect::Combinator;
    let mut args = args;
    proof {
        crate::ast::lemma_view_list(args@);
    }
    if let Some(q) = tok(&inp.cs, k2, &['=', '>']) {
        match expr(d, inp, q) {
            Step::Parsed(k4, body) => {
                if let Some(params) = ids_of(&args) {
                    let ghost pv = params.deep_view();
                    let r = Expression::ArrowFunc { params, body: Box::new(body) };
                    assert(r.deep_view()->ArrowFunc_params =~= pv);
                    return Step::Parsed(k4, r);
                }
            },
            Step::Mismatch => {},
            Step::Abort(m) => {
                return Step::Abort(m);
            },
        }
    }
    if args.len() == 1 {
        let e = args.pop().unwrap();
        Step::Parsed(k2, Expression::Paren(Box::new(e)))
    } else {
        Step::Mismatch
    }
}

/// A parenthesised expression, or an arrow function whose parameter list is
/// read name by name (dialect `Parser`).
fn paren_names<'a>(inp: &Input<'a>, i: usize) -> (r: Step<Expression<'a>>)
    requires
        at(inp, i as int),
    ensures
        r.outcome() == syntax::paren(Dialect::Parser, inp.cs@, i as int),
        r.ends_in(i as int, inp.cs.len() as int),
    decreases inp.cs.len() - i, 20int, 0int,
{
    let d = Dialect::Parser;
    let cs = &inp.cs;
    let i2 = match tokc(cs, i, '(') {
        Some(i2) => i2,
        None => {
            return Step::Mismatch;
        },
    };
    match expr(d, inp, i2) {
        Step::Parsed(i3, e) => match e.as_id() {
            Some(a) => paren_after_name(inp, i3, a),
            None => match tokc(cs, i3, ')') {
                Some(i4) => Step::Parsed(i4, Expression::Paren(Box::new(e))),
                None => Step::Mismatch,
            },
        },
        Step::Mismatch => {
            let params: Vec<&'a str> = Vec::new();
            assert(params.deep_view() =~= Seq::<Seq<char>>::empty());
            arrow_after(d, inp, i2, params)
        },
        Step::Abort(m) => Step::Abort(m),
    }
}

/// What follows `"(" name` in dialect `Parser` (see
/// `syntax::paren_after_name`).
fn paren_after_name<'a>(inp: &Input<'a>, i3: usize, a: &'a str) -> (r: Step<Expression<'a>>)
    requires
        at(inp, i3 as int),
    ensures
        r.outcome() == syntax::paren_after_name(inp.cs@, i3 as int, a@),
        r.ends_in(i3 as int, inp.cs.len() as int),
    decreases inp.cs.len() - i3, 19int, 0int,
{
    let d = Dialect::Parser;
    let cs = &inp.cs;
    match tokc(cs, i3, ',') {
        Some(i4) => {
            let (i5, names) = param_names(inp, i4);
            let mut params = vec![a];
            let mut names = names;
            let ghost nv = names.deep_view();
            params.append(&mut names);
            assert(params.deep_view() =~= seq![a@] + nv);
            arrow_after(d, inp, i5, params)
        },
        None => match tokc(cs, i3, ')') {
            Some(i4) => match tok(cs, i4, &['=', '>']) {
                Some(q) => match expr(d, inp, q) {
                    Step::Parsed(r, body) => {
                        let f = Expression::ArrowFunc { params: vec![a], body: Box::new(body) };
                        assert(f.deep_view()->ArrowFunc_params =~= seq![a@]);
                        Step::Parsed(r, f)
                    },
                    _ => Step::Parsed(i4, paren_of_name(a)),
                },
                None => Step::Parsed(i4, paren_of_name(a)),
            },
            None => Step::Mismatch,
        },
    }
}

/// A name in parentheses.
fn paren_of_name<'a>(a: &'a str) -> (r: Expression<'a>)
    ensures
        r.deep_view() == ExprV::Paren(Box::new(ExprV::ID(a@))),
{
    let id = Expression::ID(a);
    assert(id.deep_view() == ExprV::ID(a@));
    Expression::Paren(Box::new(id))
}

/// The entries of a map literal, read through the iterator of module `iter`
/// (see `syntax::entries_from`).
#[verifier::spinoff_prover]
#[verifier::rlimit(40)]
fn entries_from<'a>(d: Dialect, inp: &Input<'a>, j: usize) -> (r: Result<
    (usize, Vec<(Cow<'a, str>, Expression<'a>)>),
    String,
>)
    requires
        at(inp, j as int),
    ensures
        match r {
            Ok((k, es)) => syntax::entries_from(d, inp.cs@, j as int) == Outcome::Parsed(
                k as int,
                view_entries(es@),
            ) && j <= k <= inp.cs.len() && key_flags(es@) == syntax::entries_from_keys(
                d,
                inp.cs@,
                j as int,
            ),
            Err(m) => syntax::entries_from(d, inp.cs@, j as int) == Outcome::<
                Seq<(Seq<char>, ExprV)>,
            >::Abort(m@),
        },
    decreases inp.cs.len() - j, 17int, 1int,
{
    let ghost s = inp.cs@;
    let mut it = comma_separated_iter(j);
    let mut entries: Vec<(Cow<'a, str>, Expression<'a>)> = Vec::new();
    loop
        invariant_except_break
            it.state.view_state() is First ==> entries@.len() == 0 && it.input == j,
            it.state.view_state() is Rest ==> syntax::entries_from(d, s, j as int)
                == syntax::entries_rest(d, s, it.input as int, view_entries(entries@)),
            it.state.view_state() is Rest ==> syntax::entries_from_keys(d, s, j as int)
                == key_flags(entries@) + syntax::entries_rest_keys(d, s, it.input as int),
            it.state.view_state() is First || it.state.view_state() is Rest,
        invariant
            at(inp, j as int),
            s == inp.cs@,
            j <= it.input <= inp.cs.len(),
        ensures
            match it.state.view_state() {
                syntax::CommaState::Failed(m) => syntax::entries_from(d, s, j as int)
                    == Outcome::<Seq<(Seq<char>, ExprV)>>::Abort(m),
                syntax::CommaState::Done => syntax::entries_from(d, s, j as int)
                    == Outcome::Parsed(it.input as int, view_entries(entries@))
                    && syntax::entries_from_keys(d, s, j as int) == key_flags(entries@),
                _ => false,
            },
        decreases inp.cs.len() - it.input, if it.state.view_state() is First {
            1int
        } else {
            0int
        },
    {
        let ghost before = entries@;
        let ghost pos = it.input as int;
        proof {
            if it.state.view_state() is First {
                syntax::lemma_first_step(d, s, j as int);
                syntax::lemma_first_keys(d, s, j as int);
                assert(view_entries(before) =~= Seq::<(Seq<char>, ExprV)>::empty());
                assert(key_flags(before) =~= Seq::<bool>::empty());
            } else {
                syntax::lemma_rest_step(d, s, pos, view_entries(before));
                syntax::lemma_rest_keys(d, s, pos);
            }
        }
        match it.next(d, inp) {
            Some(e) => {
                proof {
                    lemma_view_entries_push(before, e);
                    lemma_key_flags_push(before, e);
                }
                entries.push(e);
                proof {
                    if before.len() == 0 {
                        assert(view_entries(entries@) =~= seq![view_entry(entries@[0])]);
                    }
                    let f = e.0 is Borrowed;
                    assert(key_flags(before) + (seq![f] + syntax::entries_rest_keys(
                        d,
                        s,
                        it.input as int,
                    )) =~= key_flags(before).push(f) + syntax::entries_rest_keys(
                        d,
                        s,
                        it.input as int,
                    ));
                }
            },
            None => {
                proof {
                    assert(key_flags(entries@) + Seq::<bool>::empty() =~= key_flags(entries@));
                }
                break;
            },
        }
    }
    match it.finish() {
        Ok(k) => Ok((k, entries)),
        Err(m) => Err(m),
    }
}

/// `"{" ... "}"` (see `syntax::js_map`).
fn js_map<'a>(d: Dialect, inp: &Input<'a>, i: usize) -> (r: Step<Expression<'a>>)
    requires
        at(inp, i as int),
    ensures
        r.outcome() == syntax::js_map(d, inp.cs@, i as int),
        r.ends_in(i as int, inp.cs.len() as int),
    decreases inp.cs.len() - i, 20int, 0int,
{
    let cs = &inp.cs;
    let j = match tokc(cs, i, '{') {
        Some(j) => j,
        None => {
            return Step::Mismatch;
        },
    };
    let (k, entries) = match d {
        Dialect::Combinator => entry_list(d, inp, j),
        Dialect::Parser => match entries_from(d, inp, j) {
            Ok(read) => read,
            Err(m) => {
                return Step::Abort(m);
            },
        },
    };
    match tokc(cs, k, '}') {
        Some(m) => Step::Parsed(m, Expression::map(entries)),
        None => Step::Mismatch,
    }
}

/// Parses the whole of `text` in dialect `d` (see `syntax::parse_result`).
pub fn parse_with<'a>(d: Dialect, text: &'a str) -> (r: Result<Expression<'a>, String>)
    ensures
        match r {
            Ok(e) => syntax::parse_result(d, text@) == Ok::<ExprV, Seq<char>>(e.deep_view()),
            Err(m) => syntax::parse_result(d, text@) == Err::<ExprV, Seq<char>>(m@),
        },
{
    let inp = Input::new(text);
    let i = run_end(&inp.cs, 0, CharClass::Space);
    match expr(d, &inp, i) {
        Step::Parsed(j, e) => match expect_end(inp.slice(j, inp.cs.len())) {
            Ok(()) => Ok(e),
            Err(m) => Err(m),
        },
        Step::Mismatch => match expect_end(inp.slice(i, inp.cs.len())) {
            Ok(()) => Ok(Expression::Empty),
            Err(m) => Err(m),
        },
        Step::Abort(m) => Err(m),
    }
}

} // verus!
