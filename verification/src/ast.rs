//! The syntax tree produced by the parsers, and its mathematical model.
use crate::scan::char_vec;
use crate::syntax;
use std::borrow::Cow;
use std::marker::PhantomData;
use vstd::prelude::*;

verus! {

/// A number literal. Its value is the decimal (or `inf`/`nan`) text as it
/// stands in the source, negated when `negative` holds.
#[derive(Debug, Clone, PartialEq)]
pub struct Number {
    pub negative: bool,
    pub text: String,
}

#[derive(Debug, Clone, PartialEq)]
pub enum Literal<S> {
    String(S),
    Number(Number),
    Boolean(bool),
    Null,
    Undefined,
}

#[derive(Debug, Clone, Copy, PartialEq, Eq, Structural)]
pub enum UnaryOp {
    Plus,
    Minus,
    Not,
}

#[derive(Debug, Clone, Copy, PartialEq, Eq, Structural)]
pub enum BinOp {
    Assign,
    Add,
    Subtract,
    Multiply,
    Divide,
    Modulo,
    Equal,
    NotEqual,
    GreaterThan,
    LessThan,
    GreaterOrEqual,
    LessOrEqual,
    LogicalOr,
    LogicalAnd,
    NullishCoalesce,
    BitwiseAnd,
    StrictEqual,
    StrictNotEqual,
    BitwiseOr,
    BitwiseXor,
    Pipe,
}

#[derive(Debug, PartialEq)]
pub enum Expression<'a> {
    Literal(Literal<Cow<'a, str>>),
    Empty,
    ID(&'a str),
    CustomID(&'a str),
    Assign(Box<AssignTarget<'a>>, Box<Expression<'a>>),
    Unary(UnaryOp, Box<Expression<'a>>),
    Binary { op: BinOp, left: Box<Expression<'a>>, right: Box<Expression<'a>> },
    Getter(Box<Expression<'a>>, &'a str),
    Index { receiver: Box<Expression<'a>>, argument: Option<Box<Expression<'a>>> },
    Invoke {
        receiver: Box<Expression<'a>>,
        method: Option<&'a str>,
        arguments: Vec<Expression<'a>>,
    },
    Ternary { cond: Box<Expression<'a>>, left: Box<Expression<'a>>, right: Box<Expression<'a>> },
    /// Entries in key order (see `syntax::key_less`); no key occurs twice.
    MapLiteral(Vec<(Cow<'a, str>, Expression<'a>)>),
    List(Vec<Expression<'a>>),
    ArrowFunc { params: Vec<&'a str>, body: Box<Expression<'a>> },
    Paren(Box<Expression<'a>>),
}

#[derive(Debug, PartialEq)]
pub enum AssignTarget<'a> {
    ID(&'a str),
    Getter(Expression<'a>, &'a str),
}

/// The mathematical value of a literal. A string literal's value tells its
/// characters and whether they are borrowed from the parsed text.
pub enum LiteralV {
    String(Seq<char>, bool),
    Number(bool, Seq<char>),
    Boolean(bool),
    Null,
    Undefined,
}

/// The mathematical value of an expression: strings become character
/// sequences, vectors become sequences.
pub enum ExprV {
    Literal(LiteralV),
    Empty,
    ID(Seq<char>),
    CustomID(Seq<char>),
    Assign(Box<TargetV>, Box<ExprV>),
    Unary(UnaryOp, Box<ExprV>),
    Binary { op: BinOp, left: Box<ExprV>, right: Box<ExprV> },
    Getter(Box<ExprV>, Seq<char>),
    Index { receiver: Box<ExprV>, argument: Option<Box<ExprV>> },
    Invoke { receiver: Box<ExprV>, method: Option<Seq<char>>, arguments: Seq<ExprV> },
    Ternary { cond: Box<ExprV>, left: Box<ExprV>, right: Box<ExprV> },
    /// The entries, sorted by key, and whether each key is borrowed from
    /// the input.
    MapLiteral(Seq<(Seq<char>, ExprV)>, Seq<bool>),
    List(Seq<ExprV>),
    ArrowFunc { params: Seq<Seq<char>>, body: Box<ExprV> },
    Paren(Box<ExprV>),
}

pub enum TargetV {
    ID(Seq<char>),
    Getter(ExprV, Seq<char>),
}

impl DeepView for Number {
    type V = (bool, Seq<char>);

    open spec fn deep_view(&self) -> (bool, Seq<char>) {
        (self.negative, self.text@)
    }
}

impl<'a> DeepView for Literal<Cow<'a, str>> {
    type V = LiteralV;

    open spec fn deep_view(&self) -> LiteralV {
        match self {
            Literal::String(s) => LiteralV::String(s@, s is Borrowed),
            Literal::Number(n) => LiteralV::Number(n.negative, n.text@),
            Literal::Boolean(b) => LiteralV::Boolean(*b),
            Literal::Null => LiteralV::Null,
            Literal::Undefined => LiteralV::Undefined,
        }
    }
}

impl<'a> DeepView for Expression<'a> {
    type V = ExprV;

    open spec fn deep_view(&self) -> ExprV
        decreases self,
    {
        match self {
            Expression::Literal(l) => ExprV::Literal(l.deep_view()),
            Expression::Empty => ExprV::Empty,
            Expression::ID(s) => ExprV::ID(s@),
            Expression::CustomID(s) => ExprV::CustomID(s@),
            Expression::Assign(t, v) => ExprV::Assign(
                Box::new(target_view(&**t)),
                Box::new((**v).deep_view()),
            ),
            Expression::Unary(op, e) => ExprV::Unary(*op, Box::new((**e).deep_view())),
            Expression::Binary { op, left, right } => ExprV::Binary {
                op: *op,
                left: Box::new((**left).deep_view()),
                right: Box::new((**right).deep_view()),
            },
            Expression::Getter(e, k) => ExprV::Getter(Box::new((**e).deep_view()), k@),
            Expression::Index { receiver, argument } => ExprV::Index {
                receiver: Box::new((**receiver).deep_view()),
                argument: match argument {
                    Some(a) => Some(Box::new((**a).deep_view())),
                    None => None,
                },
            },
            Expression::Invoke { receiver, method, arguments } => ExprV::Invoke {
                receiver: Box::new((**receiver).deep_view()),
                method: match method {
                    Some(m) => Some(m@),
                    None => None,
                },
                arguments: view_list(arguments@),
            },
            Expression::Ternary { cond, left, right } => ExprV::Ternary {
                cond: Box::new((**cond).deep_view()),
                left: Box::new((**left).deep_view()),
                right: Box::new((**right).deep_view()),
            },
            Expression::MapLiteral(entries) => ExprV::MapLiteral(
                view_entries(entries@),
                key_flags(entries@),
            ),
            Expression::List(items) => ExprV::List(view_list(items@)),
            Expression::ArrowFunc { params, body } => ExprV::ArrowFunc {
                params: Seq::new(params.len() as nat, |k: int| params@[k]@),
                body: Box::new((**body).deep_view()),
            },
            Expression::Paren(e) => ExprV::Paren(Box::new((**e).deep_view())),
        }
    }
}

/// The mathematical values of a sequence of expressions.
pub open spec fn view_list<'a>(v: Seq<Expression<'a>>) -> Seq<ExprV>
    decreases v,
{
    if v.len() == 0 {
        Seq::empty()
    } else {
        view_list(v.drop_last()).push(v.last().deep_view())
    }
}

/// The mathematical value of a map entry.
pub open spec fn view_entry<'a>(e: (Cow<'a, str>, Expression<'a>)) -> (Seq<char>, ExprV) {
    (e.0@, e.1.deep_view())
}

/// For each entry, in order: is its key borrowed from the input?
pub open spec fn key_flags<'a>(v: Seq<(Cow<'a, str>, Expression<'a>)>) -> Seq<bool> {
    v.map_values(|e: (Cow<'a, str>, Expression<'a>)| e.0 is Borrowed)
}

pub proof fn lemma_key_flags_push<'a>(
    v: Seq<(Cow<'a, str>, Expression<'a>)>,
    x: (Cow<'a, str>, Expression<'a>),
)
    ensures
        key_flags(v.push(x)) == key_flags(v).push(x.0 is Borrowed),
{
    assert(key_flags(v.push(x)) =~= key_flags(v).push(x.0 is Borrowed));
}

/// The mathematical values of map entries.
pub open spec fn view_entries<'a>(v: Seq<(Cow<'a, str>, Expression<'a>)>) -> Seq<(Seq<char>, ExprV)>
    decreases v,
{
    if v.len() == 0 {
        Seq::empty()
    } else {
        view_entries(v.drop_last()).push((v.last().0@, v.last().1.deep_view()))
    }
}

pub proof fn lemma_view_list_push<'a>(v: Seq<Expression<'a>>, x: Expression<'a>)
    ensures
        view_list(v.push(x)) == view_list(v).push(x.deep_view()),
{
    assert(v.push(x).drop_last() =~= v);
}

pub proof fn lemma_view_list<'a>(v: Seq<Expression<'a>>)
    ensures
        view_list(v).len() == v.len(),
        forall|k: int| 0 <= k < v.len() ==> #[trigger] view_list(v)[k] == v[k].deep_view(),
    decreases v.len(),
{
    if v.len() > 0 {
        lemma_view_list(v.drop_last());
        assert(view_list(v) == view_list(v.drop_last()).push(v.last().deep_view()));
    } else {
        assert(view_list(v) == Seq::<ExprV>::empty());
    }
}

pub proof fn lemma_view_entries_push<'a>(
    v: Seq<(Cow<'a, str>, Expression<'a>)>,
    x: (Cow<'a, str>, Expression<'a>),
)
    ensures
        view_entries(v.push(x)) == view_entries(v).push((x.0@, x.1.deep_view())),
{
    assert(v.push(x).drop_last() =~= v);
}

pub proof fn lemma_view_entries<'a>(v: Seq<(Cow<'a, str>, Expression<'a>)>)
    ensures
        view_entries(v).len() == v.len(),
        forall|k: int|
            0 <= k < v.len() ==> #[trigger] view_entries(v)[k] == (v[k].0@, v[k].1.deep_view()),
    decreases v.len(),
{
    if v.len() > 0 {
        lemma_view_entries(v.drop_last());
        assert(view_entries(v) == view_entries(v.drop_last()).push(
            (v.last().0@, v.last().1.deep_view()),
        ));
    } else {
        assert(view_entries(v) == Seq::<(Seq<char>, ExprV)>::empty());
    }
}

pub proof fn lemma_view_entries_update<'a>(
    v: Seq<(Cow<'a, str>, Expression<'a>)>,
    t: int,
    x: (Cow<'a, str>, Expression<'a>),
)
    requires
        0 <= t < v.len(),
    ensures
        view_entries(v.update(t, x)) == view_entries(v).update(t, (x.0@, x.1.deep_view())),
{
    lemma_view_entries(v);
    lemma_view_entries(v.update(t, x));
    assert(view_entries(v.update(t, x)) =~= view_entries(v).update(t, (x.0@, x.1.deep_view())));
}

pub proof fn lemma_view_entries_insert<'a>(
    v: Seq<(Cow<'a, str>, Expression<'a>)>,
    t: int,
    x: (Cow<'a, str>, Expression<'a>),
)
    requires
        0 <= t <= v.len(),
    ensures
        view_entries(v.insert(t, x)) == view_entries(v).insert(t, (x.0@, x.1.deep_view())),
{
    lemma_view_entries(v);
    lemma_view_entries(v.insert(t, x));
    assert(view_entries(v.insert(t, x)) =~= view_entries(v).insert(t, (x.0@, x.1.deep_view())));
}

/// The mathematical value of an assignment target.
pub open spec fn target_view<'a>(t: &AssignTarget<'a>) -> TargetV
    decreases t,
{
    match t {
        AssignTarget::ID(s) => TargetV::ID(s@),
        AssignTarget::Getter(e, k) => TargetV::Getter(e.deep_view(), k@),
    }
}

impl<'a> DeepView for AssignTarget<'a> {
    type V = TargetV;

    open spec fn deep_view(&self) -> TargetV {
        target_view(self)
    }
}

impl<'a> Expression<'a> {
    pub fn literal(literal: Literal<Cow<'a, str>>) -> (r: Self)
        ensures
            r == Expression::Literal(literal),
    {
        Expression::Literal(literal)
    }

    pub fn binary(left: Self, op: BinOp, right: Self) -> (r: Self)
        ensures
            r == (Expression::Binary { op, left: Box::new(left), right: Box::new(right) }),
    {
        Expression::Binary { op, left: Box::new(left), right: Box::new(right) }
    }

    pub fn empty() -> (r: Self)
        ensures
            r == Expression::<'a>::Empty,
    {
        Expression::Empty
    }

    pub fn id(name: &'a str) -> (r: Self)
        ensures
            r == Expression::ID(name),
    {
        Expression::ID(name)
    }

    pub fn custom_id(name: &'a str) -> (r: Self)
        ensures
            r == Expression::CustomID(name),
    {
        Expression::CustomID(name)
    }

    pub fn assign(assigned: AssignTarget<'a>, value: Self) -> (r: Self)
        ensures
            r == Expression::Assign(Box::new(assigned), Box::new(value)),
    {
        Expression::Assign(Box::new(assigned), Box::new(value))
    }

    pub fn unary(op: UnaryOp, operand: Self) -> (r: Self)
        ensures
            r == Expression::Unary(op, Box::new(operand)),
    {
        Expression::Unary(op, Box::new(operand))
    }

    pub fn getter(object: Self, key: &'a str) -> (r: Self)
        ensures
            r == Expression::Getter(Box::new(object), key),
    {
        Expression::Getter(Box::new(object), key)
    }

    pub fn index(receiver: Self, argument: Option<Self>) -> (r: Self)
        ensures
            r == (Expression::Index {
                receiver: Box::new(receiver),
                argument: match argument {
                    Some(a) => Some(Box::new(a)),
                    None => None,
                },
            }),
    {
        let argument = match argument {
            Some(a) => Some(Box::new(a)),
            None => None,
        };
        Expression::Index { receiver: Box::new(receiver), argument }
    }

    pub fn invoke(receiver: Self, method: Option<&'a str>, arguments: Vec<Self>) -> (r: Self)
        ensures
            r == (Expression::Invoke { receiver: Box::new(receiver), method, arguments }),
    {
        Expression::Invoke { receiver: Box::new(receiver), method, arguments }
    }

    pub fn ternary(cond: Self, left: Self, right: Self) -> (r: Self)
        ensures
            r == (Expression::Ternary {
                cond: Box::new(cond),
                left: Box::new(left),
                right: Box::new(right),
            }),
    {
        Expression::Ternary { cond: Box::new(cond), left: Box::new(left), right: Box::new(right) }
    }

    /// A map literal from entries read in order: a later entry replaces
    /// the value of an earlier one with the same key.
    pub fn map(entries: Vec<(Cow<'a, str>, Expression<'a>)>) -> (r: Self)
        ensures
            r matches Expression::MapLiteral(m) && view_entries(m@) == syntax::collect_entries(
                view_entries(entries@),
            ) && key_flags(m@) == syntax::collect_flags(view_entries(entries@), key_flags(entries@)),
    {
        Expression::MapLiteral(collect_entries(entries))
    }

    pub fn list(items: Vec<Self>) -> (r: Self)
        ensures
            r == Expression::List(items),
    {
        Expression::List(items)
    }

    pub fn arrow_func(params: Vec<&'a str>, body: Self) -> (r: Self)
        ensures
            r == (Expression::ArrowFunc { params, body: Box::new(body) }),
    {
        Expression::ArrowFunc { params, body: Box::new(body) }
    }

    pub fn paren(inner: Self) -> (r: Self)
        ensures
            r == Expression::Paren(Box::new(inner)),
    {
        Expression::Paren(Box::new(inner))
    }

    /// The name, where the expression is a plain name.
    pub fn as_id(&self) -> (r: Option<&'a str>)
        ensures
            match self.deep_view() {
                ExprV::ID(n) => r matches Some(m) && m@ == n,
                _ => r is None,
            },
    {
        match self {
            Expression::ID(n) => Some(*n),
            _ => None,
        }
    }
}

/// A copy of a literal.
fn clone_literal<'a>(l: &Literal<Cow<'a, str>>) -> (r: Literal<Cow<'a, str>>)
    ensures
        r == *l,
{
    match l {
        Literal::String(Cow::Borrowed(b)) => Literal::String(Cow::Borrowed(*b)),
        Literal::String(Cow::Owned(o)) => Literal::String(Cow::Owned(o.clone())),
        Literal::Number(n) => Literal::Number(Number { negative: n.negative, text: n.text.clone() }),
        Literal::Boolean(b) => Literal::Boolean(*b),
        Literal::Null => Literal::Null,
        Literal::Undefined => Literal::Undefined,
    }
}

/// A copy of a key.
fn clone_key<'a>(k: &Cow<'a, str>) -> (r: Cow<'a, str>)
    ensures
        r == *k,
{
    match k {
        Cow::Borrowed(b) => Cow::Borrowed(*b),
        Cow::Owned(o) => Cow::Owned(o.clone()),
    }
}

/// A copy of a list of names.
fn clone_names<'a>(v: &Vec<&'a str>) -> (r: Vec<&'a str>)
    ensures
        r@ == v@,
{
    let mut r: Vec<&'a str> = Vec::new();
    let mut i: usize = 0;
    while i < v.len()
        invariant
            i <= v.len(),
            r@ == v@.subrange(0, i as int),
        decreases v.len() - i,
    {
        r.push(v[i]);
        assert(r@ =~= v@.subrange(0, i + 1));
        i = i + 1;
    }
    assert(r@ =~= v@);
    r
}

/// A copy of a list of expressions.
fn clone_list<'a>(v: &Vec<Expression<'a>>) -> (r: Vec<Expression<'a>>)
    ensures
        view_list(r@) == view_list(v@),
    decreases v,
{
    let mut r: Vec<Expression<'a>> = Vec::new();
    let mut i: usize = 0;
    while i < v.len()
        invariant
            i <= v.len(),
            r@.len() == i,
            forall|k: int| 0 <= k < i ==> (#[trigger] r@[k]).deep_view() == v@[k].deep_view(),
        decreases v.len() - i,
    {
        assert(decreases_to!(v => v@[i as int]));
        let e = clone_expr(&v[i]);
        r.push(e);
        i = i + 1;
    }
    proof {
        lemma_view_list(r@);
        lemma_view_list(v@);
        assert(view_list(r@) =~= view_list(v@));
    }
    r
}

/// A copy of the entries of a map literal.
fn clone_entries<'a>(v: &Vec<(Cow<'a, str>, Expression<'a>)>) -> (r: Vec<(Cow<'a, str>, Expression<'a>)>)
    ensures
        view_entries(r@) == view_entries(v@),
        key_flags(r@) == key_flags(v@),
    decreases v,
{
    let mut r: Vec<(Cow<'a, str>, Expression<'a>)> = Vec::new();
    let mut i: usize = 0;
    while i < v.len()
        invariant
            i <= v.len(),
            r@.len() == i,
            forall|k: int|
                0 <= k < i ==> (#[trigger] r@[k]).0 == v@[k].0 && r@[k].1.deep_view()
                    == v@[k].1.deep_view(),
        decreases v.len() - i,
    {
        assert(decreases_to!(v => v@[i as int].1));
        let k = clone_key(&v[i].0);
        let e = clone_expr(&v[i].1);
        r.push((k, e));
        i = i + 1;
    }
    proof {
        lemma_view_entries(r@);
        lemma_view_entries(v@);
        assert(view_entries(r@) =~= view_entries(v@));
        assert(key_flags(r@) =~= key_flags(v@));
    }
    r
}

/// A copy of an assignment target.
fn clone_target<'a>(t: &AssignTarget<'a>) -> (r: AssignTarget<'a>)
    ensures
        target_view(&r) == target_view(t),
    decreases t,
{
    match t {
        AssignTarget::ID(n) => AssignTarget::ID(*n),
        AssignTarget::Getter(e, k) => AssignTarget::Getter(clone_expr(e), *k),
    }
}

/// A copy of an expression.
fn clone_expr<'a>(e: &Expression<'a>) -> (r: Expression<'a>)
    ensures
        r.deep_view() == e.deep_view(),
    decreases e,
{
    match e {
        Expression::Literal(l) => Expression::Literal(clone_literal(l)),
        Expression::Empty => Expression::Empty,
        Expression::ID(n) => Expression::ID(*n),
        Expression::CustomID(n) => Expression::CustomID(*n),
        Expression::Assign(t, v) => Expression::Assign(
            Box::new(clone_target(t)),
            Box::new(clone_expr(v)),
        ),
        Expression::Unary(op, v) => Expression::Unary(*op, Box::new(clone_expr(v))),
        Expression::Binary { op, left, right } => Expression::Binary {
            op: *op,
            left: Box::new(clone_expr(left)),
            right: Box::new(clone_expr(right)),
        },
        Expression::Getter(v, k) => Expression::Getter(Box::new(clone_expr(v)), *k),
        Expression::Index { receiver, argument } => Expression::Index {
            receiver: Box::new(clone_expr(receiver)),
            argument: match argument {
                Some(a) => Some(Box::new(clone_expr(a))),
                None => None,
            },
        },
        Expression::Invoke { receiver, method, arguments } => Expression::Invoke {
            receiver: Box::new(clone_expr(receiver)),
            method: *method,
            arguments: clone_list(arguments),
        },
        Expression::Ternary { cond, left, right } => Expression::Ternary {
            cond: Box::new(clone_expr(cond)),
            left: Box::new(clone_expr(left)),
            right: Box::new(clone_expr(right)),
        },
        Expression::MapLiteral(entries) => Expression::MapLiteral(clone_entries(entries)),
        Expression::List(items) => Expression::List(clone_list(items)),
        Expression::ArrowFunc { params, body } => {
            let r = Expression::ArrowFunc { params: clone_names(params), body: Box::new(clone_expr(body)) };
            assert(r.deep_view()->ArrowFunc_params =~= e.deep_view()->ArrowFunc_params);
            r
        },
        Expression::Paren(v) => Expression::Paren(Box::new(clone_expr(v))),
    }
}

impl<'a> Clone for Expression<'a> {
    /// A copy, with the same value as the expression.
    fn clone(&self) -> (r: Self)
        ensures
            r.deep_view() == self.deep_view(),
    {
        clone_expr(self)
    }
}

impl<'a> Clone for AssignTarget<'a> {
    /// A copy, with the same value as the target.
    fn clone(&self) -> (r: Self)
        ensures
            r.deep_view() == self.deep_view(),
    {
        clone_target(self)
    }
}

impl<'a> From<AssignTarget<'a>> for Expression<'a> {
    /// The expression that the target stands for.
    fn from(value: AssignTarget<'a>) -> (r: Self) {
        match value {
            AssignTarget::ID(id) => Expression::ID(id),
            AssignTarget::Getter(receiver, field) => Expression::Getter(Box::new(receiver), field),
        }
    }
}

impl<'a> vstd::std_specs::convert::FromSpecImpl<AssignTarget<'a>> for Expression<'a> {
    open spec fn obeys_from_spec() -> bool {
        true
    }

    open spec fn from_spec(value: AssignTarget<'a>) -> Expression<'a> {
        match value {
            AssignTarget::ID(id) => Expression::ID(id),
            AssignTarget::Getter(receiver, field) => Expression::Getter(Box::new(receiver), field),
        }
    }
}

impl<'a> TryFrom<Expression<'a>> for AssignTarget<'a> {
    type Error = Expression<'a>;

    /// The target that a name or a member expression stands for; any other
    /// expression is handed back.
    fn try_from(value: Expression<'a>) -> (r: Result<Self, Self::Error>) {
        match value {
            Expression::ID(id) => Ok(AssignTarget::ID(id)),
            Expression::Getter(receiver, field) => Ok(AssignTarget::Getter(*receiver, field)),
            val => Err(val),
        }
    }
}

impl<'a> vstd::std_specs::convert::TryFromSpecImpl<Expression<'a>> for AssignTarget<'a> {
    open spec fn obeys_try_from_spec() -> bool {
        true
    }

    open spec fn try_from_spec(value: Expression<'a>) -> Result<AssignTarget<'a>, Expression<'a>> {
        match value {
            Expression::ID(id) => Ok(AssignTarget::ID(id)),
            Expression::Getter(receiver, field) => Ok(AssignTarget::Getter(*receiver, field)),
            val => Err(val),
        }
    }
}

/// Chooses the string types of a syntax tree: `Str` for names, `Escaped` for
/// string literals and map keys.
pub trait StrRepr {
    type Str;
    type Escaped;
}

/// Names borrowed from the source; literals borrowed where no escape needed
/// rewriting.
#[derive(Debug, Clone, Copy, PartialEq, Eq)]
pub struct BorrowedRepr<'a>(pub PhantomData<&'a ()>);

/// Every string owned.
#[derive(Debug, Clone, Copy, PartialEq, Eq)]
pub struct OwnedRepr;

impl<'a> StrRepr for BorrowedRepr<'a> {
    type Str = &'a str;
    type Escaped = Cow<'a, str>;
}

impl StrRepr for OwnedRepr {
    type Str = String;
    type Escaped = String;
}

/// The text of a map key.
fn key_text<'b, 'a>(key: &'b Cow<'a, str>) -> (r: &'b str)
    ensures
        r@ == key@,
{
    match key {
        Cow::Borrowed(b) => b,
        Cow::Owned(o) => o.as_str(),
    }
}

/// Where a key stands against another in the key order.
pub enum KeyOrder {
    Before,
    Same,
    After,
}

/// Compares two keys, given by their characters, in the key order of
/// `syntax::key_less`.
fn compare_keys(a: &Vec<char>, b: &Vec<char>) -> (r: KeyOrder)
    ensures
        r is Before <==> syntax::key_less(a@, b@),
        r is Same <==> a@ == b@,
        r is After <==> syntax::key_less(b@, a@),
{
    proof {
        syntax::lemma_key_less_asymmetric(a@, b@);
        syntax::lemma_key_less_total(a@, b@);
        syntax::lemma_key_less_irreflexive(a@);
        assert(a@.skip(0) =~= a@);
        assert(b@.skip(0) =~= b@);
    }
    let mut i: usize = 0;
    while i < a.len() && i < b.len() && a[i] == b[i]
        invariant
            i <= a.len(),
            i <= b.len(),
            a@.subrange(0, i as int) == b@.subrange(0, i as int),
            syntax::key_less(a@, b@) == syntax::key_less(a@.skip(i as int), b@.skip(i as int)),
            syntax::key_less(b@, a@) == syntax::key_less(b@.skip(i as int), a@.skip(i as int)),
        decreases a.len() - i,
    {
        proof {
            assert(a@.skip(i as int).drop_first() =~= a@.skip(i + 1));
            assert(b@.skip(i as int).drop_first() =~= b@.skip(i + 1));
            assert(a@.subrange(0, i + 1) =~= a@.subrange(0, i as int).push(a@[i as int]));
            assert(b@.subrange(0, i + 1) =~= b@.subrange(0, i as int).push(b@[i as int]));
        }
        i = i + 1;
    }
    if i == a.len() && i == b.len() {
        assert(a@ =~= a@.subrange(0, i as int));
        assert(b@ =~= b@.subrange(0, i as int));
        KeyOrder::Same
    } else if i == a.len() {
        KeyOrder::Before
    } else if i == b.len() {
        KeyOrder::After
    } else if a[i] < b[i] {
        assert(a@ != b@ && a@[i as int] != b@[i as int]);
        KeyOrder::Before
    } else {
        assert(a@ != b@ && a@[i as int] != b@[i as int]);
        KeyOrder::After
    }
}

/// Stores an entry as a map does: the value replaces that of an equal key,
/// or the entry goes where its key belongs in the key order.
fn insert_entry<'a>(m: &mut Vec<(Cow<'a, str>, Expression<'a>)>, key: Cow<'a, str>, val: Expression<'a>)
    ensures
        view_entries(final(m)@) == syntax::entries_insert(view_entries(old(m)@), key@, val.deep_view()),
        key_flags(final(m)@) == syntax::flags_insert(
            view_entries(old(m)@),
            key_flags(old(m)@),
            key@,
            key is Borrowed,
        ),
{
    let ghost mv = view_entries(m@);
    let ghost borrowed = key is Borrowed;
    proof {
        lemma_view_entries(m@);
    }
    let kc = char_vec(key_text(&key));
    let mut t: usize = 0;
    loop
        invariant
            t <= m.len(),
            mv == view_entries(m@),
            m@ == old(m)@,
            mv.len() == m@.len(),
            kc@ == key@,
            forall|u: int|
                0 <= u < m@.len() ==> #[trigger] mv[u] == (m@[u].0@, m@[u].1.deep_view()),
            forall|u: int| 0 <= u < t ==> syntax::key_less((#[trigger] mv[u]).0, key@),
        ensures
            t < m.len() ==> !syntax::key_less(mv[t as int].0, key@) && mv[t as int].0 != key@,
        decreases m.len() - t,
    {
        if t == m.len() {
            break;
        }
        assert(mv[t as int] == (m@[t as int].0@, m@[t as int].1.deep_view()));
        match compare_keys(&char_vec(key_text(&m[t].0)), &kc) {
            KeyOrder::Before => {
                t = t + 1;
            },
            KeyOrder::Same => {
                // As in a hash map, the key already there stays and takes
                // the new value.
                let ghost before = m@;
                let (kept, _) = m.remove(t);
                proof {
                    syntax::lemma_slot(mv, key@, t as int);
                    lemma_view_entries_update(before, t as int, (kept, val));
                }
                m.insert(t, (kept, val));
                assert(m@ =~= before.update(t as int, (kept, val)));
                assert(key_flags(m@) =~= key_flags(before));
                return;
            },
            KeyOrder::After => {
                proof {
                    syntax::lemma_key_less_asymmetric(key@, mv[t as int].0);
                }
                break;
            },
        }
    }
    let ghost before = m@;
    proof {
        syntax::lemma_slot(mv, key@, t as int);
        lemma_view_entries_insert(m@, t as int, (key, val));
    }
    m.insert(t, (key, val));
    assert(key_flags(m@) =~= key_flags(before).insert(t as int, borrowed));
}

/// The entries stored as a map is filled from them, in key order.
pub fn collect_entries<'a>(es: Vec<(Cow<'a, str>, Expression<'a>)>) -> (r: Vec<(Cow<'a, str>, Expression<'a>)>)
    ensures
        view_entries(r@) == syntax::collect_entries(view_entries(es@)),
        key_flags(r@) == syntax::collect_flags(view_entries(es@), key_flags(es@)),
{
    let ghost orig = es@;
    let ghost ev = view_entries(es@);
    let ghost fl = key_flags(es@);
    proof {
        lemma_view_entries(es@);
    }
    let mut m: Vec<(Cow<'a, str>, Expression<'a>)> = Vec::new();
    let mut es = es;
    let mut taken: usize = 0;
    assert(orig.len() == es.len());
    assert(ev.take(0) =~= Seq::<(Seq<char>, ExprV)>::empty());
    assert(fl.take(0) =~= Seq::<bool>::empty());
    while es.len() > 0
        invariant
            taken <= orig.len() <= usize::MAX,
            es@ == orig.subrange(taken as int, orig.len() as int),
            ev == view_entries(orig),
            ev.len() == orig.len(),
            forall|u: int| 0 <= u < orig.len() ==> #[trigger] ev[u] == (orig[u].0@, orig[u].1.deep_view()),
            view_entries(m@) == syntax::collect_entries(ev.take(taken as int)),
            fl == key_flags(orig),
            key_flags(m@) == syntax::collect_flags(ev.take(taken as int), fl.take(taken as int)),
        decreases es.len(),
    {
        let (key, val) = es.remove(0);
        proof {
            assert(ev.take(taken + 1).drop_last() =~= ev.take(taken as int));
            assert(ev.take(taken + 1).last() == ev[taken as int]);
            assert(fl.take(taken + 1).drop_last() =~= fl.take(taken as int));
            assert(fl.take(taken + 1).last() == fl[taken as int]);
            assert(key == orig[taken as int].0);
        }
        insert_entry(&mut m, key, val);
        taken = taken + 1;
        assert(es@ =~= orig.subrange(taken as int, orig.len() as int));
    }
    let ghost n = orig.len();
    assert(ev.take(n as int) =~= ev);
    assert(fl.take(n as int) =~= fl);
    m
}


} // verus!
