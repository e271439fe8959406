//! What holds of the parsers and the syntax tree on all inputs, proved over
//! the grammar of module `syntax` and the conversions of module `ast`.
use crate::ast::{AssignTarget, BinOp, ExprV, Expression, UnaryOp};
use crate::syntax::{
    assignment, binary, binary_rest, collect_entries, entries_insert, expr, ident, is_space, js_map,
    key_less, keys_sorted, lemma_key_less_asymmetric, lemma_key_less_irreflexive,
    lemma_key_less_total,
    lemma_key_less_transitive, lemma_float_shape, slot,
    is_alnum, is_alpha, key_position, lemma_key_position, level_op, list, literal, next_step,
    number_scan, number_start, occurs_at, paren, parse_result, postfix, postfix_rest, primary,
    comma_next, custom_ident, ident_name, entry_list, entry_list_keys, expr_list, escape_of, lemma_string_body, map_entry, CommaState, run_end, lemma_run_end, starts_nan_or_inf, string_body, string_literal, class_has, ErrorKind, ternary, tokc, unary, unary_op, apply_unary, CharClass, Dialect, Outcome,
    StepV,
};
use crate::outside::incomplete_text;
use vstd::prelude::*;
use vstd::std_specs::convert::{FromSpec, TryFromSpec};

verus! {

/// The value stored under `key`: that of the first entry with this key.
pub open spec fn lookup(m: Seq<(Seq<char>, ExprV)>, key: Seq<char>) -> Option<ExprV> {
    if key_position(m, key) < m.len() {
        Some(m[key_position(m, key)].1)
    } else {
        None
    }
}

/// The value of the last entry with this key, if any.
pub open spec fn last_value(es: Seq<(Seq<char>, ExprV)>, key: Seq<char>) -> Option<ExprV>
    decreases es.len(),
{
    if es.len() == 0 {
        None
    } else if es.last().0 == key {
        Some(es.last().1)
    } else {
        last_value(es.drop_last(), key)
    }
}

proof fn lemma_key_position_bounds(m: Seq<(Seq<char>, ExprV)>, key: Seq<char>)
    ensures
        0 <= key_position(m, key) <= m.len(),
        forall|u: int| 0 <= u < key_position(m, key) ==> (#[trigger] m[u]).0 != key,
        key_position(m, key) < m.len() ==> m[key_position(m, key)].0 == key,
    decreases m.len(),
{
    if m.len() > 0 && m[0].0 != key {
        lemma_key_position_bounds(m.drop_first(), key);
        assert forall|u: int| 0 <= u < key_position(m, key) implies (#[trigger] m[u]).0 != key by {
            if u > 0 {
                assert(m[u] == m.drop_first()[u - 1]);
            }
        }
    }
}

proof fn lemma_slot_bounds(m: Seq<(Seq<char>, ExprV)>, key: Seq<char>)
    ensures
        0 <= slot(m, key) <= m.len(),
        forall|u: int| 0 <= u < slot(m, key) ==> key_less((#[trigger] m[u]).0, key),
        slot(m, key) < m.len() ==> !key_less(m[slot(m, key)].0, key),
    decreases m.len(),
{
    if m.len() > 0 && key_less(m[0].0, key) {
        lemma_slot_bounds(m.drop_first(), key);
        assert forall|u: int| 0 <= u < slot(m, key) implies key_less((#[trigger] m[u]).0, key) by {
            if u > 0 {
                assert(m[u] == m.drop_first()[u - 1]);
            }
        }
    }
}

/// Storing an entry keeps the keys sorted, gives the key its new value and
/// leaves every other key as it was.
proof fn lemma_entries_insert(
    m: Seq<(Seq<char>, ExprV)>,
    k: Seq<char>,
    v: ExprV,
    key: Seq<char>,
)
    requires
        keys_sorted(m),
    ensures
        keys_sorted(entries_insert(m, k, v)),
        lookup(entries_insert(m, k, v), key) == if key == k {
            Some(v)
        } else {
            lookup(m, key)
        },
{
    lemma_slot_bounds(m, k);
    lemma_key_position_bounds(m, key);
    let p = slot(m, k);
    let q = key_position(m, key);
    let m2 = entries_insert(m, k, v);
    assert forall|u: int| 0 <= u < p implies (#[trigger] m[u]).0 != k by {
        lemma_key_less_irreflexive(k);
    }
    if p < m.len() && m[p].0 == k {
        assert(m2 == m.update(p, (k, v)));
        assert forall|u: int| 0 <= u < m2.len() implies (#[trigger] m2[u]).0 == m[u].0 by {}
        if key == k {
            lemma_key_position(m2, key, p);
        } else {
            lemma_key_position(m2, key, q);
        }
    } else {
        assert(m2 == m.insert(p, (k, v)));
        if p < m.len() {
            lemma_key_less_total(k, m[p].0);
        }
        assert forall|a: int, b: int| 0 <= a < b < m2.len() implies key_less(
            (#[trigger] m2[a]).0,
            (#[trigger] m2[b]).0,
        ) by {
            if b < p {
                assert(m2[a] == m[a] && m2[b] == m[b]);
            } else if b == p {
                assert(m2[a] == m[a]);
            } else if a < p {
                assert(m2[a] == m[a] && m2[b] == m[b - 1]);
                lemma_key_less_transitive(m[a].0, k, m[b - 1].0);
                if b - 1 > p {
                    lemma_key_less_transitive(k, m[p].0, m[b - 1].0);
                }
            } else if a == p {
                assert(m2[b] == m[b - 1]);
                if b - 1 > p {
                    lemma_key_less_transitive(k, m[p].0, m[b - 1].0);
                }
            } else {
                assert(m2[a] == m[a - 1] && m2[b] == m[b - 1]);
            }
        }
        if key == k {
            lemma_key_position(m2, key, p);
        } else if q < p {
            assert forall|u: int| 0 <= u < q implies (#[trigger] m2[u]).0 != key by {
                assert(m2[u] == m[u]);
            }
            assert(m2[q] == m[q]);
            lemma_key_position(m2, key, q);
        } else {
            assert forall|u: int| 0 <= u < q + 1 implies (#[trigger] m2[u]).0 != key by {
                if u < p {
                    assert(m2[u] == m[u]);
                } else if u > p {
                    assert(m2[u] == m[u - 1]);
                }
            }
            if q < m.len() {
                assert(m2[q + 1] == m[q]);
            }
            lemma_key_position(m2, key, q + 1);
        }
    }
}

/// A map literal holds its entries sorted by key, each key once, and the
/// value under a key is that of the last entry written with this key: a
/// later entry replaces an earlier one, as in a hash map filled in order.
pub proof fn law_map_entries(es: Seq<(Seq<char>, ExprV)>, key: Seq<char>)
    ensures
        keys_sorted(collect_entries(es)),
        lookup(collect_entries(es), key) == last_value(es, key),
    decreases es.len(),
{
    if es.len() == 0 {
        let m = collect_entries(es);
        assert(m.len() == 0);
        lemma_key_position_bounds(m, key);
    } else {
        let prefix = es.drop_last();
        law_map_entries(prefix, key);
        law_map_entries(prefix, es.last().0);
        lemma_entries_insert(collect_entries(prefix), es.last().0, es.last().1, key);
    }
}

/// Sorted entries that store the same value under every key are the same
/// entries.
proof fn lemma_sorted_unique(m1: Seq<(Seq<char>, ExprV)>, m2: Seq<(Seq<char>, ExprV)>)
    requires
        keys_sorted(m1),
        keys_sorted(m2),
        forall|key: Seq<char>| #[trigger] lookup(m1, key) == lookup(m2, key),
    ensures
        m1 == m2,
    decreases m1.len() + m2.len(),
{
    if m1.len() == 0 || m2.len() == 0 {
        if m2.len() > 0 {
            assert(lookup(m2, m2[0].0) == lookup(m1, m2[0].0));
        }
        if m1.len() > 0 {
            assert(lookup(m1, m1[0].0) == lookup(m2, m1[0].0));
        }
        assert(m1 =~= m2);
    } else {
        let k1 = m1[0].0;
        let k2 = m2[0].0;
        assert(lookup(m1, k1) == lookup(m2, k1));
        assert(lookup(m1, k2) == lookup(m2, k2));
        lemma_key_position_bounds(m1, k2);
        lemma_key_position_bounds(m2, k1);
        lemma_key_less_asymmetric(k1, k2);
        if key_position(m2, k1) > 0 && key_position(m1, k2) > 0 {
            assert(key_less(m2[0].0, m2[key_position(m2, k1)].0));
            assert(key_less(m1[0].0, m1[key_position(m1, k2)].0));
        }
        assert(k1 == k2);
        let r1 = m1.drop_first();
        let r2 = m2.drop_first();
        assert forall|key: Seq<char>| #[trigger] lookup(r1, key) == lookup(r2, key) by {
            assert(lookup(m1, key) == lookup(m2, key));
            if key == k1 {
                lemma_key_position_bounds(r1, key);
                lemma_key_position_bounds(r2, key);
                lemma_key_less_irreflexive(k1);
                if key_position(r1, key) < r1.len() {
                    assert(r1[key_position(r1, key)] == m1[key_position(r1, key) + 1]);
                }
                if key_position(r2, key) < r2.len() {
                    assert(r2[key_position(r2, key)] == m2[key_position(r2, key) + 1]);
                }
            } else {
                lemma_key_position_bounds(r1, key);
                lemma_key_position_bounds(r2, key);
                if key_position(r1, key) < r1.len() {
                    assert(r1[key_position(r1, key)] == m1[key_position(r1, key) + 1]);
                }
                if key_position(r2, key) < r2.len() {
                    assert(r2[key_position(r2, key)] == m2[key_position(r2, key) + 1]);
                }
            }
        }
        assert(keys_sorted(r1)) by {
            assert forall|a: int, b: int| 0 <= a < b < r1.len() implies key_less(
                (#[trigger] r1[a]).0,
                (#[trigger] r1[b]).0,
            ) by {
                assert(r1[a] == m1[a + 1] && r1[b] == m1[b + 1]);
            }
        }
        assert(keys_sorted(r2)) by {
            assert forall|a: int, b: int| 0 <= a < b < r2.len() implies key_less(
                (#[trigger] r2[a]).0,
                (#[trigger] r2[b]).0,
            ) by {
                assert(r2[a] == m2[a + 1] && r2[b] == m2[b + 1]);
            }
        }
        lemma_sorted_unique(r1, r2);
        assert(m1 =~= seq![m1[0]] + r1);
        assert(m2 =~= seq![m2[0]] + r2);
    }
}

/// The order in which entries are written does not matter, only the value
/// each key ends with: two runs of entries that leave every key with the
/// same last value make the same entries of a map literal, as two hash
/// maps with the same contents are equal.
pub proof fn law_map_order_free(es1: Seq<(Seq<char>, ExprV)>, es2: Seq<(Seq<char>, ExprV)>)
    requires
        forall|key: Seq<char>| #[trigger] last_value(es1, key) == last_value(es2, key),
    ensures
        collect_entries(es1) == collect_entries(es2),
{
    let m1 = collect_entries(es1);
    let m2 = collect_entries(es2);
    assert forall|key: Seq<char>| #[trigger] lookup(m1, key) == lookup(m2, key) by {
        law_map_entries(es1, key);
        law_map_entries(es2, key);
    }
    law_map_entries(es1, Seq::empty());
    law_map_entries(es2, Seq::empty());
    lemma_sorted_unique(m1, m2);
}

/// Turning an assignment target into an expression and back gives the same
/// target, and an expression that converts to a target is what that target
/// converts back to.
pub proof fn law_target_round_trip<'a>(t: AssignTarget<'a>, e: Expression<'a>)
    ensures
        <AssignTarget<'a> as TryFromSpec<Expression<'a>>>::try_from_spec(
            <Expression<'a> as FromSpec<AssignTarget<'a>>>::from_spec(t),
        ) == Ok::<AssignTarget<'a>, Expression<'a>>(t),
        <AssignTarget<'a> as TryFromSpec<Expression<'a>>>::try_from_spec(e) matches Ok(u)
            ==> <Expression<'a> as FromSpec<AssignTarget<'a>>>::from_spec(u) == e,
{
}

/// Where the blanks that start at `e` end.
pub open spec fn past_blanks(s: Seq<char>, e: int) -> int {
    run_end(s, e, CharClass::Space)
}

/// Blanks from `i` up to `j`, and no blank at `j`: the run ends at `j`.
proof fn lemma_blanks_run(s: Seq<char>, i: int, j: int)
    requires
        0 <= i <= j <= s.len(),
        forall|k: int| i <= k < j ==> is_space(#[trigger] s[k]),
        j < s.len() ==> !is_space(s[j]),
    ensures
        past_blanks(s, i) == j,
    decreases j - i,
{
    if i < j {
        lemma_blanks_run(s, i + 1, j);
    }
}

/// Where no operand can start, every precedence level reads nothing.
proof fn lemma_levels_mismatch(d: Dialect, s: Seq<char>, q: int, lvl: int)
    requires
        unary(d, s, q) == Outcome::<ExprV>::Mismatch,
        0 <= lvl <= 10,
    ensures
        binary(d, s, q, lvl) == Outcome::<ExprV>::Mismatch,
    decreases 10 - lvl,
{
    if lvl < 10 {
        lemma_levels_mismatch(d, s, q, lvl + 1);
    }
}

/// Can no operand start with `c`?
spec fn no_operand_start(c: char) -> bool {
    &&& !is_alpha(c)
    &&& !number_start(c)
    &&& c != '!' && c != '"' && c != '\'' && c != '$' && c != '[' && c != '{' && c != '('
}

/// A text starting with another character does not stand at `q`.
proof fn lemma_not_at(s: Seq<char>, q: int, p: Seq<char>)
    requires
        p.len() > 0,
        0 <= q < s.len() ==> s[q] != p[0],
    ensures
        !occurs_at(s, q, p),
{
    if occurs_at(s, q, p) {
        assert(s.subrange(q, q + p.len())[0] == s[q]);
    }
}

proof fn lemma_no_literal(d: Dialect, s: Seq<char>, q: int)
    requires
        0 <= q <= s.len(),
        q == s.len() || no_operand_start(s[q]),
    ensures
        literal(d, s, q) == Outcome::<ExprV>::Mismatch,
{
    lemma_not_at(s, q, seq!['t', 'r', 'u', 'e']);
    lemma_not_at(s, q, seq!['f', 'a', 'l', 's', 'e']);
    lemma_not_at(s, q, seq!['n', 'u', 'l', 'l']);
    lemma_not_at(s, q, seq!['u', 'n', 'd', 'e', 'f', 'i', 'n', 'e', 'd']);
    let t = s.subrange(q, s.len() as int);
    assert(t.len() == 0 || t[0] == s[q]);
    lemma_float_shape(t);
    assert(number_scan(t) == Err::<nat, Option<Seq<char>>>(None));
}

proof fn lemma_no_paren(d: Dialect, s: Seq<char>, q: int)
    requires
        0 <= q <= s.len(),
        q == s.len() || no_operand_start(s[q]),
    ensures
        paren(d, s, q) == Outcome::<ExprV>::Mismatch,
{
    lemma_not_at(s, q, seq!['(']);
}

proof fn lemma_no_map(d: Dialect, s: Seq<char>, q: int)
    requires
        0 <= q <= s.len(),
        q == s.len() || no_operand_start(s[q]),
    ensures
        js_map(d, s, q) == Outcome::<ExprV>::Mismatch,
{
    lemma_not_at(s, q, seq!['{']);
}

proof fn lemma_no_list(d: Dialect, s: Seq<char>, q: int)
    requires
        0 <= q <= s.len(),
        q == s.len() || no_operand_start(s[q]),
    ensures
        list(d, s, q) == Outcome::<ExprV>::Mismatch,
{
    lemma_not_at(s, q, seq!['[']);
}

#[verifier::spinoff_prover]
proof fn lemma_no_primary(d: Dialect, s: Seq<char>, q: int)
    requires
        0 <= q <= s.len(),
        q == s.len() || no_operand_start(s[q]),
    ensures
        primary(d, s, q) == Outcome::<ExprV>::Mismatch,
{
    lemma_no_literal(d, s, q);
    lemma_not_at(s, q, seq!['$', '{']);
    lemma_no_list(d, s, q);
    lemma_no_map(d, s, q);
    lemma_no_paren(d, s, q);
    assert(ident(d, s, q) == Outcome::<ExprV>::Mismatch);
}

/// Where the input ends, or holds a character that no operand starts with,
/// no operand starts, at any precedence level.
proof fn lemma_no_operand(d: Dialect, s: Seq<char>, q: int)
    requires
        0 <= q <= s.len(),
        q == s.len() || no_operand_start(s[q]),
    ensures
        unary(d, s, q) == Outcome::<ExprV>::Mismatch,
        forall|lvl: int| 0 <= lvl <= 10 ==> #[trigger] binary(d, s, q, lvl) == Outcome::<ExprV>::Mismatch,
{
    lemma_no_primary(d, s, q);
    assert(postfix(d, s, q) == Outcome::<ExprV>::Mismatch);
    assert(unary(d, s, q) == Outcome::<ExprV>::Mismatch);
    assert forall|lvl: int| 0 <= lvl <= 10 implies #[trigger] binary(d, s, q, lvl)
        == Outcome::<ExprV>::Mismatch by {
        lemma_levels_mismatch(d, s, q, lvl);
    }
}

/// At the end of the input no expression starts.
proof fn lemma_nothing_at_end(d: Dialect, s: Seq<char>)
    ensures
        expr(d, s, s.len() as int) == Outcome::<ExprV>::Mismatch,
{
    let n = s.len() as int;
    lemma_no_operand(d, s, n);
    assert(binary(d, s, n, 0) == Outcome::<ExprV>::Mismatch);
    assert(ternary(d, s, n) == Outcome::<ExprV>::Mismatch);
    assert(assignment(d, s, n) == Outcome::<ExprV>::Mismatch);
}

/// An input of blanks only, the empty input among them, is the empty
/// expression, in both grammars.
pub proof fn law_blank_input_is_empty(d: Dialect, s: Seq<char>)
    requires
        forall|k: int| 0 <= k < s.len() ==> is_space(#[trigger] s[k]),
    ensures
        parse_result(d, s) == Ok::<ExprV, Seq<char>>(ExprV::Empty),
{
    lemma_blanks_run(s, 0, s.len() as int);
    lemma_nothing_at_end(d, s);
}

/// The text of a binary operator.
pub open spec fn op_text(op: BinOp) -> Seq<char> {
    match op {
        BinOp::Assign => seq!['='],
        BinOp::Pipe => seq!['|', '>'],
        BinOp::NullishCoalesce => seq!['?', '?'],
        BinOp::LogicalOr => seq!['|', '|'],
        BinOp::LogicalAnd => seq!['&', '&'],
        BinOp::BitwiseOr => seq!['|'],
        BinOp::BitwiseXor => seq!['^'],
        BinOp::BitwiseAnd => seq!['&'],
        BinOp::StrictEqual => seq!['=', '=', '='],
        BinOp::Equal => seq!['=', '='],
        BinOp::StrictNotEqual => seq!['!', '=', '='],
        BinOp::NotEqual => seq!['!', '='],
        BinOp::GreaterOrEqual => seq!['>', '='],
        BinOp::LessOrEqual => seq!['<', '='],
        BinOp::GreaterThan => seq!['>'],
        BinOp::LessThan => seq!['<'],
        BinOp::Add => seq!['+'],
        BinOp::Subtract => seq!['-'],
        BinOp::Multiply => seq!['*'],
        BinOp::Divide => seq!['/'],
        BinOp::Modulo => seq!['%'],
    }
}

/// The precedence level of a left-associative binary operator, from 0 (the
/// loosest, `|>`) to 10 (the tightest, `*` `/` `%`); assignment, looser
/// than all of them, has level -1.
pub open spec fn op_level(op: BinOp) -> int {
    match op {
        BinOp::Assign => -1,
        BinOp::Pipe => 0,
        BinOp::NullishCoalesce => 1,
        BinOp::LogicalOr => 2,
        BinOp::LogicalAnd => 3,
        BinOp::BitwiseOr => 4,
        BinOp::BitwiseXor => 5,
        BinOp::BitwiseAnd => 6,
        BinOp::StrictEqual | BinOp::Equal | BinOp::StrictNotEqual | BinOp::NotEqual => 7,
        BinOp::GreaterOrEqual | BinOp::LessOrEqual | BinOp::GreaterThan | BinOp::LessThan => 8,
        BinOp::Add | BinOp::Subtract => 9,
        BinOp::Multiply | BinOp::Divide | BinOp::Modulo => 10,
    }
}

/// A character after which no operand can start.
spec fn dead_char(c: char) -> bool {
    c == '|' || c == '>' || c == '&'
}

/// The operator `op`, other than assignment, is written at `p` and followed
/// by blanks, if any, and a letter.
spec fn op_at(s: Seq<char>, p: int, op: BinOp) -> bool {
    &&& op != BinOp::Assign
    &&& 0 <= p
    &&& p + op_text(op).len() <= s.len()
    &&& forall|j: int| 0 <= j < op_text(op).len() ==> s[p + j] == op_text(op)[j]
    &&& past_blanks(s, p + op_text(op).len()) < s.len()
    &&& is_alpha(s[past_blanks(s, p + op_text(op).len())])
}

/// An operator written at `p` and followed by a letter is read by its own
/// level, with the blanks after it; a tighter level reads nothing there, or
/// only a first character after which no operand can start.
proof fn lemma_op_at(s: Seq<char>, p: int, op: BinOp, lvl: int)
    requires
        op_at(s, p, op),
        op_level(op) <= lvl <= 10,
    ensures
        p + op_text(op).len() <= past_blanks(s, p + op_text(op).len()),
        lvl == op_level(op) ==> level_op(s, p, lvl) == Some(
            (past_blanks(s, p + op_text(op).len()), op),
        ),
        lvl > op_level(op) ==> (level_op(s, p, lvl) is None || (level_op(s, p, lvl) matches Some(
            (q, _),
        ) && q == p + 1 && q < s.len() && dead_char(s[q]))),
{
    let t = op_text(op);
    let e = p + t.len();
    lemma_run_end(s, e, CharClass::Space);
    assert(s.subrange(p, e) =~= t);
    assert(s[p] == t[0]);
    if t.len() >= 2 {
        assert(s[p + 1] == t[1]);
        assert(run_end(s, p + 1, CharClass::Space) == p + 1);
    }
    if t.len() >= 3 {
        assert(s[p + 2] == t[2]);
    }
}

/// Does `w` begin with `p`?
pub open spec fn begins_with(w: Seq<char>, p: Seq<char>) -> bool {
    p.len() <= w.len() && w.subrange(0, p.len() as int) == p
}

/// A name that the grammar reads as a plain name: an ASCII letter followed
/// by letters and digits, that does not begin with a literal's keyword, nor
/// with `nan` or `inf` in any case (those begin number literals).
pub open spec fn plain_name(w: Seq<char>) -> bool {
    &&& w.len() > 0
    &&& is_alpha(w[0])
    &&& forall|k: int| 0 <= k < w.len() ==> is_alnum(#[trigger] w[k])
    &&& !starts_nan_or_inf(w)
    &&& !begins_with(w, seq!['t', 'r', 'u', 'e'])
    &&& !begins_with(w, seq!['f', 'a', 'l', 's', 'e'])
    &&& !begins_with(w, seq!['n', 'u', 'l', 'l'])
    &&& !begins_with(w, seq!['u', 'n', 'd', 'e', 'f', 'i', 'n', 'e', 'd'])
}

/// A plain name stands from `i` to `e`, the input ends at `e` or goes on
/// with a character that ends the name, and no `=>` follows the blanks
/// after it.
spec fn word_at(s: Seq<char>, i: int, e: int) -> bool {
    &&& bare_word(s, i, e)
    &&& !occurs_at(s, past_blanks(s, e), seq!['=', '>'])
}

/// A plain name stands from `i` to `e`, and the input ends at `e` or goes
/// on with a character that ends the name.
spec fn bare_word(s: Seq<char>, i: int, e: int) -> bool {
    &&& 0 <= i < e <= s.len()
    &&& plain_name(s.subrange(i, e))
    &&& e < s.len() ==> !is_alnum(s[e])
}

/// A plain name stands from `i` to `e`, and no postfix step follows it and
/// the blanks after it.
spec fn name_at(s: Seq<char>, i: int, e: int) -> bool {
    &&& word_at(s, i, e)
    &&& past_blanks(s, e) < s.len() ==> {
        let w = past_blanks(s, e);
        s[w] != '.' && s[w] != '[' && s[w] != '('
    }
}

/// A plain name followed directly by the end of the input, or by a
/// character that is no blank, letter or digit, starts no postfix step and
/// no `=>`, stands as `name_at` asks, with no blanks after it.
proof fn lemma_name_at(s: Seq<char>, i: int, e: int)
    requires
        0 <= i < e <= s.len(),
        plain_name(s.subrange(i, e)),
        e < s.len() ==> !is_alnum(s[e]) && !is_space(s[e]),
        e < s.len() ==> s[e] != '.' && s[e] != '[' && s[e] != '(',
        !occurs_at(s, e, seq!['=', '>']),
    ensures
        name_at(s, i, e),
        past_blanks(s, e) == e,
{
    assert(past_blanks(s, e) == e);
}

proof fn lemma_name_chars(s: Seq<char>, i: int, e: int)
    requires
        bare_word(s, i, e),
    ensures
        forall|k: int| i <= k < e ==> is_alnum(#[trigger] s[k]),
        is_alpha(s[i]),
{
    let w = s.subrange(i, e);
    assert forall|k: int| i <= k < e implies is_alnum(#[trigger] s[k]) by {
        assert(w[k - i] == s[k]);
    }
    assert(w[0] == s[i]);
}

proof fn lemma_alnum_run(s: Seq<char>, i: int, e: int)
    requires
        0 <= i <= e <= s.len(),
        forall|k: int| i <= k < e ==> is_alnum(#[trigger] s[k]),
        e < s.len() ==> !is_alnum(s[e]),
    ensures
        run_end(s, i, CharClass::Alnum) == e,
    decreases e - i,
{
    if i < e {
        lemma_alnum_run(s, i + 1, e);
    }
}

/// A keyword that the name does not begin with does not stand where the
/// name starts.
proof fn lemma_no_keyword(s: Seq<char>, i: int, e: int, kw: Seq<char>)
    requires
        bare_word(s, i, e),
        kw.len() > 0,
        forall|j: int| 0 <= j < kw.len() ==> is_alpha(#[trigger] kw[j]),
        !begins_with(s.subrange(i, e), kw),
    ensures
        !occurs_at(s, i, kw),
{
    if occurs_at(s, i, kw) {
        if kw.len() <= e - i {
            assert(s.subrange(i, e).subrange(0, kw.len() as int) =~= s.subrange(i, i + kw.len()));
        } else {
            assert(s.subrange(i, i + kw.len())[e - i] == s[e]);
            assert(is_alpha(kw[e - i]));
        }
    }
}

/// No number starts where a plain name starts.
proof fn lemma_name_no_number(s: Seq<char>, i: int, e: int)
    requires
        bare_word(s, i, e),
    ensures
        number_scan(s.subrange(i, s.len() as int)) == Err::<nat, Option<Seq<char>>>(None),
{
    let t = s.subrange(i, s.len() as int);
    let w = s.subrange(i, e);
    lemma_name_chars(s, i, e);
    assert(t[0] == s[i]);
    lemma_float_shape(t);
    if starts_nan_or_inf(t) {
        if e - i >= 3 {
            assert(w[0] == t[0] && w[1] == t[1] && w[2] == t[2]);
        } else {
            assert(t[e - i] == s[e]);
        }
    }
}

proof fn lemma_name_literal(d: Dialect, s: Seq<char>, i: int, e: int)
    requires
        bare_word(s, i, e),
    ensures
        literal(d, s, i) == Outcome::<ExprV>::Mismatch,
{
    lemma_name_chars(s, i, e);
    lemma_no_keyword(s, i, e, seq!['t', 'r', 'u', 'e']);
    lemma_no_keyword(s, i, e, seq!['f', 'a', 'l', 's', 'e']);
    lemma_no_keyword(s, i, e, seq!['n', 'u', 'l', 'l']);
    lemma_no_keyword(s, i, e, seq!['u', 'n', 'd', 'e', 'f', 'i', 'n', 'e', 'd']);
    lemma_name_no_number(s, i, e);
}

proof fn lemma_name_ident(d: Dialect, s: Seq<char>, i: int, e: int)
    requires
        word_at(s, i, e),
    ensures
        ident(d, s, i) == Outcome::Parsed(past_blanks(s, e), ExprV::ID(s.subrange(i, e))),
{
    lemma_name_chars(s, i, e);
    lemma_alnum_run(s, i, e);
}

proof fn lemma_name_primary(d: Dialect, s: Seq<char>, i: int, e: int)
    requires
        word_at(s, i, e),
    ensures
        primary(d, s, i) == Outcome::Parsed(past_blanks(s, e), ExprV::ID(s.subrange(i, e))),
{
    lemma_name_literal(d, s, i, e);
    lemma_name_ident(d, s, i, e);
}

proof fn lemma_name_postfix(d: Dialect, s: Seq<char>, i: int, e: int)
    requires
        name_at(s, i, e),
    ensures
        postfix(d, s, i) == Outcome::Parsed(past_blanks(s, e), ExprV::ID(s.subrange(i, e))),
{
    let w = past_blanks(s, e);
    lemma_run_end(s, e, CharClass::Space);
    lemma_name_primary(d, s, i, e);
    law_postfix_without_step(d, s, w, ExprV::ID(s.subrange(i, e)));
}

/// A plain name is an operand on its own: it ends after the blanks that
/// follow the name.
proof fn lemma_name_operand(d: Dialect, s: Seq<char>, i: int, e: int)
    requires
        name_at(s, i, e),
    ensures
        unary(d, s, i) == Outcome::Parsed(past_blanks(s, e), ExprV::ID(s.subrange(i, e))),
        e <= past_blanks(s, e) <= s.len(),
{
    lemma_run_end(s, e, CharClass::Space);
    lemma_name_chars(s, i, e);
    lemma_name_postfix(d, s, i, e);
    lemma_not_at(s, i, seq!['+']);
    lemma_not_at(s, i, seq!['-']);
    lemma_not_at(s, i, seq!['!']);
}

/// At the end of the input a chain of operators ends.
proof fn lemma_rest_at_end(d: Dialect, s: Seq<char>, lvl: int, acc: ExprV)
    requires
        0 <= lvl <= 10,
    ensures
        binary_rest(d, s, s.len() as int, lvl, acc) == Outcome::Parsed(s.len() as int, acc),
{
    let n = s.len() as int;
    assert(!occurs_at(s, n, seq!['|', '>']));
    assert(level_op(s, n, lvl) is None);
}

/// An operator of a looser level ends the chain of a tighter level.
proof fn lemma_rest_passes(d: Dialect, s: Seq<char>, p: int, op: BinOp, lvl: int, acc: ExprV)
    requires
        op_at(s, p, op),
        op_level(op) < lvl <= 10,
    ensures
        binary_rest(d, s, p, lvl, acc) == Outcome::Parsed(p, acc),
{
    lemma_op_at(s, p, op, lvl);
    match level_op(s, p, lvl) {
        Some((q, o)) => {
            lemma_no_operand(d, s, q);
            if lvl < 10 {
                assert(binary(d, s, q, lvl + 1) == Outcome::<ExprV>::Mismatch);
            }
            assert(binary_rest(d, s, p, lvl, acc) == Outcome::Parsed(p, acc));
        },
        None => {},
    }
}

/// Where the operand after the operator `op` at `p` starts: past the
/// blanks that follow the operator.
spec fn after_op(s: Seq<char>, p: int, op: BinOp) -> int {
    past_blanks(s, p + op_text(op).len())
}

/// An operator of the chain's own level takes the operand after it.
proof fn lemma_rest_takes(
    d: Dialect,
    s: Seq<char>,
    p: int,
    op: BinOp,
    acc: ExprV,
    j: int,
    rhs: ExprV,
)
    requires
        op_at(s, p, op),
        after_op(s, p, op) <= j <= s.len(),
        (if op_level(op) < 10 {
            binary(d, s, after_op(s, p, op), op_level(op) + 1)
        } else {
            unary(d, s, after_op(s, p, op))
        }) == Outcome::Parsed(j, rhs),
    ensures
        binary_rest(d, s, p, op_level(op), acc) == binary_rest(
            d,
            s,
            j,
            op_level(op),
            ExprV::Binary { op, left: Box::new(acc), right: Box::new(rhs) },
        ),
{
    lemma_op_at(s, p, op, op_level(op));
}

/// A name that ends the input reads, at every level, as itself.
proof fn lemma_last_name(d: Dialect, s: Seq<char>, pc: int, lvl: int)
    requires
        name_at(s, pc, s.len() as int),
        0 <= lvl <= 10,
    ensures
        binary(d, s, pc, lvl) == Outcome::Parsed(
            s.len() as int,
            ExprV::ID(s.subrange(pc, s.len() as int)),
        ),
    decreases 10 - lvl,
{
    let n = s.len() as int;
    lemma_name_operand(d, s, pc, n);
    if lvl < 10 {
        lemma_last_name(d, s, pc, lvl + 1);
    }
    lemma_rest_at_end(d, s, lvl, ExprV::ID(s.subrange(pc, n)));
}

/// What the level `lvl` reads of `b op c` ending the input, the operator
/// standing after the blanks that follow `b`: the whole of it up to the
/// operator's level, the name `b` alone at tighter levels.
proof fn lemma_pair(d: Dialect, s: Seq<char>, pb: int, eb: int, op: BinOp, lvl: int)
    requires
        name_at(s, pb, eb),
        op_at(s, past_blanks(s, eb), op),
        name_at(s, after_op(s, past_blanks(s, eb), op), s.len() as int),
        0 <= lvl <= 10,
    ensures
        binary(d, s, pb, lvl) == if lvl <= op_level(op) {
            Outcome::Parsed(
                s.len() as int,
                ExprV::Binary {
                    op,
                    left: Box::new(ExprV::ID(s.subrange(pb, eb))),
                    right: Box::new(
                        ExprV::ID(
                            s.subrange(after_op(s, past_blanks(s, eb), op), s.len() as int),
                        ),
                    ),
                },
            )
        } else {
            Outcome::Parsed(past_blanks(s, eb), ExprV::ID(s.subrange(pb, eb)))
        },
    decreases 10 - lvl,
{
    let n = s.len() as int;
    let q = past_blanks(s, eb);
    let pc = after_op(s, q, op);
    let b = ExprV::ID(s.subrange(pb, eb));
    let c = ExprV::ID(s.subrange(pc, n));
    let whole = ExprV::Binary { op, left: Box::new(b), right: Box::new(c) };
    lemma_name_operand(d, s, pb, eb);
    lemma_name_operand(d, s, pc, n);
    if lvl < 10 {
        lemma_pair(d, s, pb, eb, op, lvl + 1);
    }
    if lvl < op_level(op) {
        lemma_rest_at_end(d, s, lvl, whole);
    } else if lvl == op_level(op) {
        if lvl < 10 {
            lemma_last_name(d, s, pc, lvl + 1);
        }
        lemma_rest_takes(d, s, q, op, b, n, c);
        lemma_rest_at_end(d, s, lvl, whole);
    } else {
        lemma_rest_passes(d, s, q, op, lvl, b);
    }
}

/// What the level `lvl` reads of `a op1 b op2 c` ending the input.
spec fn triple_level(
    lvl: int,
    n: int,
    qa: int,
    qb: int,
    a: ExprV,
    b: ExprV,
    c: ExprV,
    op1: BinOp,
    op2: BinOp,
) -> Outcome<ExprV> {
    let ab = ExprV::Binary { op: op1, left: Box::new(a), right: Box::new(b) };
    if lvl > op_level(op1) {
        Outcome::Parsed(qa, a)
    } else if op_level(op1) < op_level(op2) {
        Outcome::Parsed(
            n,
            ExprV::Binary {
                op: op1,
                left: Box::new(a),
                right: Box::new(ExprV::Binary { op: op2, left: Box::new(b), right: Box::new(c) }),
            },
        )
    } else if lvl <= op_level(op2) {
        Outcome::Parsed(n, ExprV::Binary { op: op2, left: Box::new(ab), right: Box::new(c) })
    } else {
        Outcome::Parsed(qb, ab)
    }
}

#[verifier::spinoff_prover]
proof fn lemma_triple(
    d: Dialect,
    s: Seq<char>,
    ea: int,
    op1: BinOp,
    eb: int,
    op2: BinOp,
    lvl: int,
)
    requires
        name_at(s, 0, ea),
        op_at(s, past_blanks(s, ea), op1),
        name_at(s, after_op(s, past_blanks(s, ea), op1), eb),
        op_at(s, past_blanks(s, eb), op2),
        name_at(s, after_op(s, past_blanks(s, eb), op2), s.len() as int),
        0 <= lvl <= 10,
    ensures
        binary(d, s, 0, lvl) == triple_level(
            lvl,
            s.len() as int,
            past_blanks(s, ea),
            past_blanks(s, eb),
            ExprV::ID(s.subrange(0, ea)),
            ExprV::ID(s.subrange(after_op(s, past_blanks(s, ea), op1), eb)),
            ExprV::ID(s.subrange(after_op(s, past_blanks(s, eb), op2), s.len() as int)),
            op1,
            op2,
        ),
    decreases 10 - lvl,
{
    let n = s.len() as int;
    let qa = past_blanks(s, ea);
    let qb = past_blanks(s, eb);
    let pb = after_op(s, qa, op1);
    let pc = after_op(s, qb, op2);
    let a = ExprV::ID(s.subrange(0, ea));
    let b = ExprV::ID(s.subrange(pb, eb));
    let c = ExprV::ID(s.subrange(pc, n));
    let l1 = op_level(op1);
    let l2 = op_level(op2);
    let ab = ExprV::Binary { op: op1, left: Box::new(a), right: Box::new(b) };
    let bc = ExprV::Binary { op: op2, left: Box::new(b), right: Box::new(c) };
    lemma_name_operand(d, s, 0, ea);
    lemma_name_operand(d, s, pb, eb);
    lemma_name_operand(d, s, pc, n);
    if lvl < 10 {
        lemma_triple(d, s, ea, op1, eb, op2, lvl + 1);
    }
    if lvl > l1 {
        lemma_rest_passes(d, s, qa, op1, lvl, a);
    } else if lvl == l1 {
        if l1 < 10 {
            lemma_pair(d, s, pb, eb, op2, l1 + 1);
        }
        if l1 < l2 {
            lemma_rest_takes(d, s, qa, op1, a, n, bc);
            lemma_rest_at_end(d, s, lvl, ExprV::Binary { op: op1, left: Box::new(a), right: Box::new(bc) });
        } else {
            lemma_rest_takes(d, s, qa, op1, a, qb, b);
            if l1 == l2 {
                if l2 < 10 {
                    lemma_last_name(d, s, pc, l2 + 1);
                }
                lemma_rest_takes(d, s, qb, op2, ab, n, c);
                lemma_rest_at_end(d, s, lvl, ExprV::Binary { op: op2, left: Box::new(ab), right: Box::new(c) });
            } else {
                lemma_rest_passes(d, s, qb, op2, lvl, ab);
            }
        }
    } else {
        if l1 < l2 {
            lemma_rest_at_end(d, s, lvl, ExprV::Binary { op: op1, left: Box::new(a), right: Box::new(bc) });
        } else if lvl < l2 {
            lemma_rest_at_end(d, s, lvl, ExprV::Binary { op: op2, left: Box::new(ab), right: Box::new(c) });
        } else if lvl == l2 {
            if l2 < 10 {
                lemma_last_name(d, s, pc, l2 + 1);
            }
            lemma_rest_takes(d, s, qb, op2, ab, n, c);
            lemma_rest_at_end(d, s, lvl, ExprV::Binary { op: op2, left: Box::new(ab), right: Box::new(c) });
        } else {
            lemma_rest_passes(d, s, qb, op2, lvl, ab);
        }
    }
}

proof fn lemma_op_text(op: BinOp)
    requires
        op != BinOp::Assign,
    ensures
        1 <= op_text(op).len() <= 3,
        0 <= op_level(op) <= 10,
        !is_alnum(op_text(op)[0]) && !is_space(op_text(op)[0]),
        op_text(op)[0] != '.' && op_text(op)[0] != '[' && op_text(op)[0] != '(',
        op_text(op)[0] == '=' ==> op_text(op).len() >= 2 && op_text(op)[1] == '=',
{
}

proof fn lemma_no_arrow(s: Seq<char>, p: int)
    requires
        0 <= p,
        p + 1 < s.len() ==> !(s[p] == '=' && s[p + 1] == '>'),
    ensures
        !occurs_at(s, p, seq!['=', '>']),
{
    if occurs_at(s, p, seq!['=', '>']) {
        assert(s.subrange(p, p + 2)[0] == s[p]);
        assert(s.subrange(p, p + 2)[1] == s[p + 1]);
    }
}

/// An expression that the loosest binary level reads to the end of the
/// input is what the whole input parses to.
proof fn lemma_whole_input(d: Dialect, s: Seq<char>, e: ExprV)
    requires
        s.len() > 0,
        !is_space(s[0]),
        binary(d, s, 0, 0) == Outcome::Parsed(s.len() as int, e),
    ensures
        parse_result(d, s) == Ok::<ExprV, Seq<char>>(e),
{
    let n = s.len() as int;
    assert(run_end(s, 0, CharClass::Space) == 0);
    assert(ternary(d, s, 0) == Outcome::Parsed(n, e));
    assert(assignment(d, s, 0) == Outcome::Parsed(n, e));
}

/// A plain name on its own is read as that name, in both grammars.
pub proof fn law_name_alone(d: Dialect, a: Seq<char>)
    requires
        plain_name(a),
    ensures
        parse_result(d, a) == Ok::<ExprV, Seq<char>>(ExprV::ID(a)),
{
    let n = a.len() as int;
    assert(a.subrange(0, n) =~= a);
    assert(name_at(a, 0, n));
    lemma_name_operand(d, a, 0, n);
    lemma_whole_operand(d, a, ExprV::ID(a), 0);
    lemma_whole_input(d, a, ExprV::ID(a));
}

/// Is every character of `w` a blank?
pub open spec fn blanks(w: Seq<char>) -> bool {
    forall|k: int| 0 <= k < w.len() ==> is_space(#[trigger] w[k])
}

/// The blanks `w`, standing at `i` and followed by the end of the input or
/// by a character that is no blank, are all the blanks there.
proof fn lemma_gap(s: Seq<char>, i: int, w: Seq<char>)
    requires
        0 <= i,
        i + w.len() <= s.len(),
        s.subrange(i, i + w.len()) == w,
        blanks(w),
        i + w.len() < s.len() ==> !is_space(s[i + w.len()]),
    ensures
        past_blanks(s, i) == i + w.len(),
{
    assert forall|k: int| i <= k < i + w.len() implies is_space(#[trigger] s[k]) by {
        assert(s.subrange(i, i + w.len())[k - i] == s[k]);
    }
    lemma_blanks_run(s, i, i + w.len());
}

/// The text `t` stands in `s` at `i`.
proof fn lemma_piece(s: Seq<char>, i: int, t: Seq<char>)
    requires
        0 <= i,
        i + t.len() <= s.len(),
        s.subrange(i, i + t.len()) == t,
    ensures
        forall|k: int| 0 <= k < t.len() ==> s[i + k] == #[trigger] t[k],
{
    assert forall|k: int| 0 <= k < t.len() implies s[i + k] == #[trigger] t[k] by {
        assert(s.subrange(i, i + t.len())[k] == s[i + k]);
    }
}

/// The precedence and grouping of the binary operators (all but
/// assignment): for plain names `a`, `b`, `c`, operators `op1`, `op2` and
/// runs of blanks `w1` to `w4` (each possibly empty), the text
/// `a w1 op1 w2 b w3 op2 w4 c` is read as `(a op1 b) op2 c` where `op1`
/// binds at least as tightly as `op2`, and as `a op1 (b op2 c)` where `op2`
/// binds more tightly. Operators of one level thus group to the left, and a
/// tighter level groups first, with or without blanks around the
/// operators, in both grammars.
#[verifier::spinoff_prover]
#[verifier::rlimit(60)]
pub proof fn law_precedence(
    d: Dialect,
    a: Seq<char>,
    w1: Seq<char>,
    op1: BinOp,
    w2: Seq<char>,
    b: Seq<char>,
    w3: Seq<char>,
    op2: BinOp,
    w4: Seq<char>,
    c: Seq<char>,
)
    requires
        plain_name(a),
        plain_name(b),
        plain_name(c),
        op1 != BinOp::Assign,
        op2 != BinOp::Assign,
        blanks(w1),
        blanks(w2),
        blanks(w3),
        blanks(w4),
    ensures
        parse_result(d, a + w1 + op_text(op1) + w2 + b + w3 + op_text(op2) + w4 + c) == Ok::<
            ExprV,
            Seq<char>,
        >(
            if op_level(op1) < op_level(op2) {
                ExprV::Binary {
                    op: op1,
                    left: Box::new(ExprV::ID(a)),
                    right: Box::new(
                        ExprV::Binary {
                            op: op2,
                            left: Box::new(ExprV::ID(b)),
                            right: Box::new(ExprV::ID(c)),
                        },
                    ),
                }
            } else {
                ExprV::Binary {
                    op: op2,
                    left: Box::new(
                        ExprV::Binary {
                            op: op1,
                            left: Box::new(ExprV::ID(a)),
                            right: Box::new(ExprV::ID(b)),
                        },
                    ),
                    right: Box::new(ExprV::ID(c)),
                }
            },
        ),
{
    let t1 = op_text(op1);
    let t2 = op_text(op2);
    let s = a + w1 + t1 + w2 + b + w3 + t2 + w4 + c;
    let ea = a.len() as int;
    let qa = ea + w1.len();
    let la = qa + t1.len();
    let pb = la + w2.len();
    let eb = pb + b.len();
    let qb = eb + w3.len();
    let lb = qb + t2.len();
    let pc = lb + w4.len();
    let n = s.len() as int;
    assert(n == pc + c.len());
    lemma_op_text(op1);
    lemma_op_text(op2);
    assert(s.subrange(0, ea) =~= a);
    assert(s.subrange(ea, qa) =~= w1);
    assert(s.subrange(qa, la) =~= t1);
    assert(s.subrange(la, pb) =~= w2);
    assert(s.subrange(pb, eb) =~= b);
    assert(s.subrange(eb, qb) =~= w3);
    assert(s.subrange(qb, lb) =~= t2);
    assert(s.subrange(lb, pc) =~= w4);
    assert(s.subrange(pc, n) =~= c);
    lemma_piece(s, 0, a);
    lemma_piece(s, ea, w1);
    lemma_piece(s, qa, t1);
    lemma_piece(s, la, w2);
    lemma_piece(s, pb, b);
    lemma_piece(s, eb, w3);
    lemma_piece(s, qb, t2);
    lemma_piece(s, lb, w4);
    lemma_piece(s, pc, c);
    assert(s[0] == a[0]);
    assert(s[qa] == t1[0]);
    assert(s[pb] == b[0]);
    assert(s[qb] == t2[0]);
    assert(s[pc] == c[0]);
    assert(!is_alnum(s[ea])) by {
        if w1.len() > 0 {
            assert(s[ea] == w1[0]);
        }
    }
    assert(!is_alnum(s[eb])) by {
        if w3.len() > 0 {
            assert(s[eb] == w3[0]);
        }
    }
    lemma_gap(s, ea, w1);
    lemma_gap(s, la, w2);
    lemma_gap(s, eb, w3);
    lemma_gap(s, lb, w4);
    if t1[0] == '=' {
        assert(s[qa + 1] == t1[1]);
    }
    if t2[0] == '=' {
        assert(s[qb + 1] == t2[1]);
    }
    lemma_no_arrow(s, qa);
    lemma_no_arrow(s, qb);
    assert(name_at(s, 0, ea));
    assert(op_at(s, qa, op1));
    assert(name_at(s, pb, eb));
    assert(op_at(s, qb, op2));
    assert(name_at(s, pc, n));
    lemma_triple(d, s, ea, op1, eb, op2, 0);
    lemma_whole_input(
        d,
        s,
        triple_level(
            0,
            n,
            qa,
            qb,
            ExprV::ID(a),
            ExprV::ID(b),
            ExprV::ID(c),
            op1,
            op2,
        )->Parsed_1,
    );
}

/// A character that ends an operand chain without being a binary
/// operator: `=`, `?` or `:`.
spec fn stop_char(c: char) -> bool {
    c == '=' || c == '?' || c == ':'
}

/// `=`, `?` or `:` followed by a letter is read by no binary level.
proof fn lemma_stop_sign(s: Seq<char>, p: int, lvl: int)
    requires
        0 <= p,
        p + 1 < s.len(),
        stop_char(s[p]),
        is_alpha(s[p + 1]),
        0 <= lvl <= 10,
    ensures
        level_op(s, p, lvl) is None,
{
    lemma_not_at(s, p, seq!['|', '>']);
    lemma_not_at(s, p, seq!['|', '|']);
    lemma_not_at(s, p, seq!['&', '&']);
    lemma_not_at(s, p, seq!['|']);
    lemma_not_at(s, p, seq!['^']);
    lemma_not_at(s, p, seq!['&']);
    lemma_not_at(s, p, seq!['!', '=', '=']);
    lemma_not_at(s, p, seq!['!', '=']);
    lemma_not_at(s, p, seq!['>', '=']);
    lemma_not_at(s, p, seq!['<', '=']);
    lemma_not_at(s, p, seq!['>']);
    lemma_not_at(s, p, seq!['<']);
    lemma_not_at(s, p, seq!['+']);
    lemma_not_at(s, p, seq!['-']);
    lemma_not_at(s, p, seq!['*']);
    lemma_not_at(s, p, seq!['/']);
    lemma_not_at(s, p, seq!['%']);
    if occurs_at(s, p, seq!['?', '?']) {
        assert(s.subrange(p, p + 2)[1] == s[p + 1]);
    }
    if occurs_at(s, p, seq!['=', '=']) {
        assert(s.subrange(p, p + 2)[1] == s[p + 1]);
    }
    if occurs_at(s, p, seq!['=', '=', '=']) {
        assert(s.subrange(p, p + 3)[1] == s[p + 1]);
    }
}

/// A name followed by `=`, `?` or `:` and a letter is read, at every
/// binary level, as the name alone.
proof fn lemma_name_before_stop(d: Dialect, s: Seq<char>, i: int, e: int, lvl: int)
    requires
        name_at(s, i, e),
        e + 1 < s.len(),
        stop_char(s[e]),
        is_alpha(s[e + 1]),
        0 <= lvl <= 10,
    ensures
        binary(d, s, i, lvl) == Outcome::Parsed(e, ExprV::ID(s.subrange(i, e))),
    decreases 10 - lvl,
{
    lemma_name_operand(d, s, i, e);
    if lvl < 10 {
        lemma_name_before_stop(d, s, i, e, lvl + 1);
    }
    lemma_stop_sign(s, e, lvl);
    assert(binary_rest(d, s, e, lvl, ExprV::ID(s.subrange(i, e))) == Outcome::Parsed(
        e,
        ExprV::ID(s.subrange(i, e)),
    ));
}

/// A name that ends the input is an expression on its own.
proof fn lemma_last_expr(d: Dialect, s: Seq<char>, pc: int)
    requires
        name_at(s, pc, s.len() as int),
    ensures
        expr(d, s, pc) == Outcome::Parsed(s.len() as int, ExprV::ID(s.subrange(pc, s.len() as int))),
{
    let n = s.len() as int;
    lemma_last_name(d, s, pc, 0);
    assert(ternary(d, s, pc) == Outcome::Parsed(n, ExprV::ID(s.subrange(pc, n))));
    assert(assignment(d, s, pc) == Outcome::Parsed(n, ExprV::ID(s.subrange(pc, n))));
}

/// `b=c` ending the input is one assignment.
proof fn lemma_assign_pair(d: Dialect, s: Seq<char>, pb: int, eb: int)
    requires
        name_at(s, pb, eb),
        eb + 1 < s.len(),
        s[eb] == '=',
        name_at(s, eb + 1, s.len() as int),
    ensures
        assignment(d, s, pb) == Outcome::Parsed(
            s.len() as int,
            ExprV::Binary {
                op: BinOp::Assign,
                left: Box::new(ExprV::ID(s.subrange(pb, eb))),
                right: Box::new(ExprV::ID(s.subrange(eb + 1, s.len() as int))),
            },
        ),
{
    let n = s.len() as int;
    lemma_name_chars(s, eb + 1, n);
    lemma_name_before_stop(d, s, pb, eb, 0);
    lemma_not_at(s, eb, seq!['?']);
    assert(ternary(d, s, pb) == Outcome::Parsed(eb, ExprV::ID(s.subrange(pb, eb))));
    assert(s.subrange(eb, eb + 1) =~= seq!['=']);
    assert(run_end(s, eb + 1, CharClass::Space) == eb + 1);
    lemma_last_expr(d, s, eb + 1);
}

/// An expression read to the end of the input, from its first character,
/// is what the whole input parses to.
proof fn lemma_parse_of_expr(d: Dialect, s: Seq<char>, e: ExprV)
    requires
        s.len() > 0,
        !is_space(s[0]),
        expr(d, s, 0) == Outcome::Parsed(s.len() as int, e),
    ensures
        parse_result(d, s) == Ok::<ExprV, Seq<char>>(e),
{
    assert(run_end(s, 0, CharClass::Space) == 0);
}

/// `a=b=c`, for plain names standing between the marks, read as a whole
/// input.
#[verifier::spinoff_prover]
proof fn lemma_assign_whole(d: Dialect, s: Seq<char>, ea: int, eb: int)
    requires
        name_at(s, 0, ea),
        s[ea] == '=',
        ea + 1 < eb,
        name_at(s, ea + 1, eb),
        s[eb] == '=',
        eb + 1 < s.len(),
        name_at(s, eb + 1, s.len() as int),
    ensures
        parse_result(d, s) == Ok::<ExprV, Seq<char>>(
            ExprV::Binary {
                op: BinOp::Assign,
                left: Box::new(ExprV::ID(s.subrange(0, ea))),
                right: Box::new(
                    ExprV::Binary {
                        op: BinOp::Assign,
                        left: Box::new(ExprV::ID(s.subrange(ea + 1, eb))),
                        right: Box::new(ExprV::ID(s.subrange(eb + 1, s.len() as int))),
                    },
                ),
            },
        ),
{
    let n = s.len() as int;
    let pb = ea + 1;
    let a = s.subrange(0, ea);
    let b = s.subrange(pb, eb);
    let c = s.subrange(eb + 1, n);
    lemma_name_chars(s, 0, ea);
    lemma_name_chars(s, pb, eb);
    let bc = ExprV::Binary {
        op: BinOp::Assign,
        left: Box::new(ExprV::ID(b)),
        right: Box::new(ExprV::ID(c)),
    };
    lemma_assign_pair(d, s, pb, eb);
    assert(expr(d, s, pb) == Outcome::Parsed(n, bc));
    lemma_name_before_stop(d, s, 0, ea, 0);
    lemma_not_at(s, ea, seq!['?']);
    assert(ternary(d, s, 0) == Outcome::Parsed(ea, ExprV::ID(a)));
    assert(s.subrange(ea, ea + 1) =~= seq!['=']);
    assert(run_end(s, pb, CharClass::Space) == pb);
    assert(assignment(d, s, 0) == Outcome::Parsed(
        n,
        ExprV::Binary { op: BinOp::Assign, left: Box::new(ExprV::ID(a)), right: Box::new(bc) },
    ));
    lemma_parse_of_expr(
        d,
        s,
        ExprV::Binary { op: BinOp::Assign, left: Box::new(ExprV::ID(a)), right: Box::new(bc) },
    );
}

/// Assignment groups to the right: for plain names `a`, `b`, `c`, the
/// text `a=b=c` is read as `a = (b = c)`, in both grammars.
#[verifier::spinoff_prover]
pub proof fn law_assignment_groups_right(d: Dialect, a: Seq<char>, b: Seq<char>, c: Seq<char>)
    requires
        plain_name(a),
        plain_name(b),
        plain_name(c),
    ensures
        parse_result(d, a + seq!['='] + b + seq!['='] + c) == Ok::<ExprV, Seq<char>>(
            ExprV::Binary {
                op: BinOp::Assign,
                left: Box::new(ExprV::ID(a)),
                right: Box::new(
                    ExprV::Binary {
                        op: BinOp::Assign,
                        left: Box::new(ExprV::ID(b)),
                        right: Box::new(ExprV::ID(c)),
                    },
                ),
            },
        ),
{
    let s = a + seq!['='] + b + seq!['='] + c;
    let ea = a.len() as int;
    let pb = ea + 1;
    let eb = pb + b.len();
    let pc = eb + 1;
    let n = s.len() as int;
    assert(s.subrange(0, ea) =~= a);
    assert(s.subrange(pb, eb) =~= b);
    assert(s.subrange(pc, n) =~= c);
    assert(s[0] == a[0]);
    assert(s[ea] == '=');
    assert(s[pb] == b[0]);
    assert(s[eb] == '=');
    assert(s[pc] == c[0]);
    lemma_no_arrow(s, ea);
    lemma_no_arrow(s, eb);
    lemma_name_at(s, 0, ea);
    lemma_name_at(s, pb, eb);
    lemma_name_at(s, pc, n);
    lemma_assign_whole(d, s, ea, eb);
}

/// The name after a dot: an ASCII letter followed by letters and digits.
pub open spec fn member_name(w: Seq<char>) -> bool {
    &&& w.len() > 0
    &&& is_alpha(w[0])
    &&& forall|k: int| 0 <= k < w.len() ==> is_alnum(#[trigger] w[k])
}

/// An operand read to the end of the input is read so at every level.
proof fn lemma_whole_operand(d: Dialect, s: Seq<char>, e: ExprV, lvl: int)
    requires
        unary(d, s, 0) == Outcome::Parsed(s.len() as int, e),
        0 <= lvl <= 10,
    ensures
        binary(d, s, 0, lvl) == Outcome::Parsed(s.len() as int, e),
    decreases 10 - lvl,
{
    if lvl < 10 {
        lemma_whole_operand(d, s, e, lvl + 1);
    }
    lemma_rest_at_end(d, s, lvl, e);
}

/// The member `.w` at `p`, `w` ending at `e`, is one postfix step.
proof fn lemma_member_step(d: Dialect, s: Seq<char>, p: int, e: int)
    requires
        0 <= p,
        p + 1 < e <= s.len(),
        s[p] == '.',
        member_name(s.subrange(p + 1, e)),
        e < s.len() ==> s[e] == '.',
    ensures
        next_step(d, s, p) == Outcome::Parsed(e, StepV::Member(s.subrange(p + 1, e))),
{
    let w = s.subrange(p + 1, e);
    assert forall|k: int| p + 1 <= k < e implies is_alnum(#[trigger] s[k]) by {
        assert(w[k - p - 1] == s[k]);
    }
    assert(w[0] == s[p + 1]);
    assert(s.subrange(p, p + 1) =~= seq!['.']);
    assert(run_end(s, p + 1, CharClass::Space) == p + 1);
    lemma_alnum_run(s, p + 1, e);
    assert(run_end(s, e, CharClass::Space) == e);
}

/// Member steps group to the left: for a plain name `a` and member names
/// `b`, `c`, the text `a.b.c` is read as `(a.b).c`, in both grammars.
#[verifier::spinoff_prover]
pub proof fn law_members_group_left(d: Dialect, a: Seq<char>, b: Seq<char>, c: Seq<char>)
    requires
        plain_name(a),
        member_name(b),
        member_name(c),
    ensures
        parse_result(d, a + seq!['.'] + b + seq!['.'] + c) == Ok::<ExprV, Seq<char>>(
            ExprV::Getter(Box::new(ExprV::Getter(Box::new(ExprV::ID(a)), b)), c),
        ),
{
    let s = a + seq!['.'] + b + seq!['.'] + c;
    let ea = a.len() as int;
    let pb = ea + 1;
    let eb = pb + b.len();
    let pc = eb + 1;
    let n = s.len() as int;
    assert(s.subrange(0, ea) =~= a);
    assert(s.subrange(pb, eb) =~= b);
    assert(s.subrange(pc, n) =~= c);
    assert(s[0] == a[0]);
    assert(s[ea] == '.');
    assert(s[eb] == '.');
    lemma_no_arrow(s, ea);
    assert(word_at(s, 0, ea));
    lemma_name_primary(d, s, 0, ea);
    let ga = ExprV::Getter(Box::new(ExprV::ID(a)), b);
    let gb = ExprV::Getter(Box::new(ga), c);
    lemma_member_step(d, s, ea, eb);
    lemma_member_step(d, s, eb, n);
    lemma_not_at(s, n, seq!['.']);
    assert(next_step(d, s, n) == Outcome::<StepV>::Mismatch);
    assert(postfix_rest(d, s, n, gb) == Outcome::Parsed(n, gb));
    assert(postfix_rest(d, s, eb, ga) == Outcome::Parsed(n, gb));
    assert(postfix_rest(d, s, ea, ExprV::ID(a)) == Outcome::Parsed(n, gb));
    assert(postfix(d, s, 0) == Outcome::Parsed(n, gb));
    lemma_not_at(s, 0, seq!['+']);
    lemma_not_at(s, 0, seq!['-']);
    lemma_not_at(s, 0, seq!['!']);
    assert(unary(d, s, 0) == Outcome::Parsed(n, gb));
    lemma_whole_operand(d, s, gb, 0);
    lemma_whole_input(d, s, gb);
}

/// A name followed by `?` or `:` and a letter: the loosest binary level
/// reads the name alone, and before `:` so does an expression.
proof fn lemma_name_before_mark(d: Dialect, s: Seq<char>, i: int, e: int)
    requires
        name_at(s, i, e),
        e + 1 < s.len(),
        s[e] == '?' || s[e] == ':',
        is_alpha(s[e + 1]),
    ensures
        binary(d, s, i, 0) == Outcome::Parsed(e, ExprV::ID(s.subrange(i, e))),
        s[e] == ':' ==> expr(d, s, i) == Outcome::Parsed(e, ExprV::ID(s.subrange(i, e))),
{
    lemma_name_before_stop(d, s, i, e, 0);
    if s[e] == ':' {
        lemma_not_at(s, e, seq!['?']);
        lemma_not_at(s, e, seq!['=']);
        assert(ternary(d, s, i) == Outcome::Parsed(e, ExprV::ID(s.subrange(i, e))));
        assert(assignment(d, s, i) == Outcome::Parsed(e, ExprV::ID(s.subrange(i, e))));
    }
}

/// The one-character token `c` at `p`, followed by a letter.
proof fn lemma_mark(s: Seq<char>, p: int, c: char)
    requires
        0 <= p,
        p + 1 < s.len(),
        s[p] == c,
        is_alpha(s[p + 1]),
    ensures
        tokc(s, p, c) == Some(p + 1),
{
    assert(s.subrange(p, p + 1) =~= seq![c]);
    assert(run_end(s, p + 1, CharClass::Space) == p + 1);
}

/// `x?y:z` ending the input, for plain names, is one conditional
/// expression.
#[verifier::spinoff_prover]
proof fn lemma_cond_tail(d: Dialect, s: Seq<char>, p: int, ex: int, ey: int)
    requires
        name_at(s, p, ex),
        s[ex] == '?',
        name_at(s, ex + 1, ey),
        s[ey] == ':',
        ey + 1 < s.len(),
        name_at(s, ey + 1, s.len() as int),
    ensures
        expr(d, s, p) == Outcome::Parsed(
            s.len() as int,
            ExprV::Ternary {
                cond: Box::new(ExprV::ID(s.subrange(p, ex))),
                left: Box::new(ExprV::ID(s.subrange(ex + 1, ey))),
                right: Box::new(ExprV::ID(s.subrange(ey + 1, s.len() as int))),
            },
        ),
{
    let n = s.len() as int;
    lemma_name_chars(s, ex + 1, ey);
    lemma_name_chars(s, ey + 1, n);
    lemma_name_before_mark(d, s, p, ex);
    lemma_name_before_mark(d, s, ex + 1, ey);
    lemma_last_expr(d, s, ey + 1);
    lemma_mark(s, ex, '?');
    lemma_mark(s, ey, ':');
    let t = ExprV::Ternary {
        cond: Box::new(ExprV::ID(s.subrange(p, ex))),
        left: Box::new(ExprV::ID(s.subrange(ex + 1, ey))),
        right: Box::new(ExprV::ID(s.subrange(ey + 1, n))),
    };
    assert(ternary(d, s, p) == Outcome::Parsed(n, t));
    assert(assignment(d, s, p) == Outcome::Parsed(n, t));
}

/// `a?b:c?x:y`, for plain names standing between the marks, read as a
/// whole input.
#[verifier::spinoff_prover]
proof fn lemma_cond_whole(d: Dialect, s: Seq<char>, ea: int, eb: int, ec: int, ex: int)
    requires
        name_at(s, 0, ea),
        s[ea] == '?',
        name_at(s, ea + 1, eb),
        s[eb] == ':',
        name_at(s, eb + 1, ec),
        s[ec] == '?',
        name_at(s, ec + 1, ex),
        s[ex] == ':',
        ex + 1 < s.len(),
        name_at(s, ex + 1, s.len() as int),
    ensures
        parse_result(d, s) == Ok::<ExprV, Seq<char>>(
            ExprV::Ternary {
                cond: Box::new(ExprV::ID(s.subrange(0, ea))),
                left: Box::new(ExprV::ID(s.subrange(ea + 1, eb))),
                right: Box::new(
                    ExprV::Ternary {
                        cond: Box::new(ExprV::ID(s.subrange(eb + 1, ec))),
                        left: Box::new(ExprV::ID(s.subrange(ec + 1, ex))),
                        right: Box::new(ExprV::ID(s.subrange(ex + 1, s.len() as int))),
                    },
                ),
            },
        ),
{
    let n = s.len() as int;
    lemma_name_chars(s, 0, ea);
    lemma_name_chars(s, ea + 1, eb);
    lemma_name_chars(s, eb + 1, ec);
    let inner = ExprV::Ternary {
        cond: Box::new(ExprV::ID(s.subrange(eb + 1, ec))),
        left: Box::new(ExprV::ID(s.subrange(ec + 1, ex))),
        right: Box::new(ExprV::ID(s.subrange(ex + 1, n))),
    };
    let whole = ExprV::Ternary {
        cond: Box::new(ExprV::ID(s.subrange(0, ea))),
        left: Box::new(ExprV::ID(s.subrange(ea + 1, eb))),
        right: Box::new(inner),
    };
    lemma_cond_tail(d, s, eb + 1, ec, ex);
    lemma_name_before_mark(d, s, 0, ea);
    lemma_name_before_mark(d, s, ea + 1, eb);
    lemma_mark(s, ea, '?');
    lemma_mark(s, eb, ':');
    assert(ternary(d, s, 0) == Outcome::Parsed(n, whole));
    assert(assignment(d, s, 0) == Outcome::Parsed(n, whole));
    lemma_parse_of_expr(d, s, whole);
}

/// The conditional operator groups to the right: for plain names `a`, `b`,
/// `c`, `x`, `y`, the text `a?b:c?x:y` is read as `a ? b : (c ? x : y)`, in
/// both grammars.
#[verifier::spinoff_prover]
pub proof fn law_conditional_groups_right(
    d: Dialect,
    a: Seq<char>,
    b: Seq<char>,
    c: Seq<char>,
    x: Seq<char>,
    y: Seq<char>,
)
    requires
        plain_name(a),
        plain_name(b),
        plain_name(c),
        plain_name(x),
        plain_name(y),
    ensures
        parse_result(d, a + seq!['?'] + b + seq![':'] + c + seq!['?'] + x + seq![':'] + y) == Ok::<
            ExprV,
            Seq<char>,
        >(
            ExprV::Ternary {
                cond: Box::new(ExprV::ID(a)),
                left: Box::new(ExprV::ID(b)),
                right: Box::new(
                    ExprV::Ternary {
                        cond: Box::new(ExprV::ID(c)),
                        left: Box::new(ExprV::ID(x)),
                        right: Box::new(ExprV::ID(y)),
                    },
                ),
            },
        ),
{
    let s = a + seq!['?'] + b + seq![':'] + c + seq!['?'] + x + seq![':'] + y;
    let ea = a.len() as int;
    let pb = ea + 1;
    let eb = pb + b.len();
    let pc = eb + 1;
    let ec = pc + c.len();
    let px = ec + 1;
    let ex = px + x.len();
    let py = ex + 1;
    let n = s.len() as int;
    assert(s.subrange(0, ea) =~= a);
    assert(s.subrange(pb, eb) =~= b);
    assert(s.subrange(pc, ec) =~= c);
    assert(s.subrange(px, ex) =~= x);
    assert(s.subrange(py, n) =~= y);
    assert(s[0] == a[0]);
    assert(s[ea] == '?' && s[pb] == b[0]);
    assert(s[eb] == ':' && s[pc] == c[0]);
    assert(s[ec] == '?' && s[px] == x[0]);
    assert(s[ex] == ':' && s[py] == y[0]);
    lemma_no_arrow(s, ea);
    lemma_no_arrow(s, eb);
    lemma_no_arrow(s, ec);
    lemma_no_arrow(s, ex);
    lemma_name_at(s, 0, ea);
    lemma_name_at(s, pb, eb);
    lemma_name_at(s, pc, ec);
    lemma_name_at(s, px, ex);
    lemma_name_at(s, py, n);
    lemma_cond_whole(d, s, ea, eb, ec, ex);
}

/// The character of a prefix operator.
pub open spec fn prefix_char(op: UnaryOp) -> char {
    match op {
        UnaryOp::Plus => '+',
        UnaryOp::Minus => '-',
        UnaryOp::Not => '!',
    }
}

/// The prefix operator written at `p`: the token ends after the blanks
/// that follow it.
proof fn lemma_prefix_token(s: Seq<char>, p: int, op: UnaryOp)
    requires
        0 <= p < s.len(),
        s[p] == prefix_char(op),
    ensures
        unary_op(s, p) == Some((run_end(s, p + 1, CharClass::Space), op)),
{
    assert(s.subrange(p, p + 1) =~= seq![s[p]]);
    match op {
        UnaryOp::Plus => {},
        UnaryOp::Minus => {
            lemma_not_at(s, p, seq!['+']);
        },
        UnaryOp::Not => {
            lemma_not_at(s, p, seq!['+']);
            lemma_not_at(s, p, seq!['-']);
        },
    }
}

/// The prefix operator written at `p`, followed by a character that is no
/// blank.
proof fn lemma_prefix_at(s: Seq<char>, p: int, op: UnaryOp)
    requires
        0 <= p,
        p + 1 < s.len(),
        s[p] == prefix_char(op),
        !is_space(s[p + 1]),
    ensures
        unary_op(s, p) == Some((p + 1, op)),
{
    lemma_prefix_token(s, p, op);
    assert(run_end(s, p + 1, CharClass::Space) == p + 1);
}

/// Prefix operators nest to the right: for a plain name `a` and prefix
/// operators `u1`, `u2`, the text `u1 u2 a`, written without blanks, is
/// read as `u1 (u2 a)`, in both grammars.
#[verifier::spinoff_prover]
pub proof fn law_prefix_operators_nest(d: Dialect, u1: UnaryOp, u2: UnaryOp, a: Seq<char>)
    requires
        plain_name(a),
    ensures
        parse_result(d, seq![prefix_char(u1), prefix_char(u2)] + a) == Ok::<ExprV, Seq<char>>(
            ExprV::Unary(u1, Box::new(ExprV::Unary(u2, Box::new(ExprV::ID(a))))),
        ),
{
    let s = seq![prefix_char(u1), prefix_char(u2)] + a;
    let n = s.len() as int;
    assert(s.subrange(2, n) =~= a);
    assert(s[0] == prefix_char(u1));
    assert(s[1] == prefix_char(u2));
    assert(s[2] == a[0]);
    lemma_no_arrow(s, n);
    assert(name_at(s, 2, n));
    lemma_name_operand(d, s, 2, n);
    lemma_name_chars(s, 2, n);
    lemma_prefix_at(s, 1, u2);
    lemma_prefix_at(s, 0, u1);
    let inner = ExprV::Unary(u2, Box::new(ExprV::ID(a)));
    let whole = ExprV::Unary(u1, Box::new(inner));
    assert(unary(d, s, 1) == Outcome::Parsed(n, inner));
    assert(unary(d, s, 0) == Outcome::Parsed(n, whole));
    lemma_whole_operand(d, s, whole, 0);
    lemma_whole_input(d, s, whole);
}

/// A prefix operator applies to the operand after it: where `s` holds the
/// character of `op` at `i`, and `unary` reads, after the blanks that
/// follow it, an operand `e` up to `r`, `unary` reads from `i` up to `r`
/// the operator applied to `e` (`+` and `-` fold into a number literal, see
/// `apply_unary`), in both grammars.
pub proof fn law_prefix_operator(
    d: Dialect,
    s: Seq<char>,
    i: int,
    op: UnaryOp,
    r: int,
    e: ExprV,
)
    requires
        0 <= i < s.len(),
        s[i] == prefix_char(op),
        unary(d, s, run_end(s, i + 1, CharClass::Space)) == Outcome::Parsed(r, e),
    ensures
        unary(d, s, i) == Outcome::Parsed(r, apply_unary(op, e)),
{
    lemma_prefix_token(s, i, op);
}

/// With no postfix step after it, an expression is handed back unchanged
/// and nothing more is read: where the text has ended at `j`, or goes on
/// with neither `.`, `[` nor `(`, the postfix steps after `acc` are none.
pub proof fn law_postfix_without_step(d: Dialect, s: Seq<char>, j: int, acc: ExprV)
    requires
        0 <= j <= s.len(),
        j == s.len() || (s[j] != '.' && s[j] != '[' && s[j] != '('),
    ensures
        postfix_rest(d, s, j, acc) == Outcome::Parsed(j, acc),
{
    lemma_not_at(s, j, seq!['.']);
    lemma_not_at(s, j, seq!['[']);
    lemma_not_at(s, j, seq!['(']);
    assert(next_step(d, s, j) == Outcome::<StepV>::Mismatch);
}

/// Is `e` a parenthesised expression or an arrow function?
pub open spec fn paren_shaped(e: ExprV) -> bool {
    e is Paren || e is ArrowFunc
}

/// A parenthesised expression is never handed back unwrapped: what `paren`
/// reads at `i` starts with `(` and is a parenthesised expression or an
/// arrow function, in both grammars.
pub proof fn law_paren_keeps_its_parentheses(d: Dialect, s: Seq<char>, i: int)
    requires
        0 <= i <= s.len(),
    ensures
        paren(d, s, i) matches Outcome::Parsed(_, e) ==> i < s.len() && s[i] == '(' && paren_shaped(e),
{
    if tokc(s, i, '(') is Some {
        assert(s.subrange(i, i + 1)[0] == s[i]);
    }
}

/// `x` as it is written between double quotes: each backslash and each
/// double quote gets a backslash before it.
pub open spec fn escaped(x: Seq<char>) -> Seq<char>
    decreases x.len(),
{
    if x.len() == 0 {
        Seq::empty()
    } else if x[0] == '\\' || x[0] == '"' {
        seq!['\\', x[0]] + escaped(x.drop_first())
    } else {
        seq![x[0]] + escaped(x.drop_first())
    }
}

/// The string items of `escaped(x)`, standing at `j` and followed by a
/// double quote, stand for `x`.
proof fn lemma_body_of_escaped(d: Dialect, s: Seq<char>, j: int, x: Seq<char>)
    requires
        0 <= j,
        j + escaped(x).len() < s.len(),
        s.subrange(j, j + escaped(x).len()) == escaped(x),
        s[j + escaped(x).len()] == '"',
    ensures
        string_body(d, s, j, '"') == (j + escaped(x).len(), x),
    decreases x.len(),
{
    let ex = escaped(x);
    let n = ex.len() as int;
    if x.len() == 0 {
        assert(string_body(d, s, j, '"') == (j, Seq::<char>::empty()));
        assert(x =~= Seq::<char>::empty());
    } else {
        let t = x.drop_first();
        let et = escaped(t);
        let w: int = if x[0] == '\\' || x[0] == '"' { 2 } else { 1 };
        assert(n == w + et.len());
        assert(s[j] == ex[0]) by {
            assert(s.subrange(j, j + n)[0] == s[j]);
        }
        if w == 2 {
            assert(s[j + 1] == ex[1]) by {
                assert(s.subrange(j, j + n)[1] == s[j + 1]);
            }
        }
        assert(s.subrange(j + w, j + w + et.len()) =~= et) by {
            assert forall|k: int| 0 <= k < et.len() implies s.subrange(
                j + w,
                j + w + et.len(),
            )[k] == et[k] by {
                assert(s.subrange(j, j + n)[k + w] == s[j + w + k]);
                assert(ex[k + w] == et[k]);
            }
        }
        lemma_body_of_escaped(d, s, j + w, t);
        assert(seq![x[0]] + t =~= x);
    }
}

/// Plain characters at the start of a run of string items stand for
/// themselves.
proof fn lemma_body_plain_prefix(d: Dialect, s: Seq<char>, j: int, k: int, q: char)
    requires
        0 <= j <= k <= s.len(),
        forall|m: int| j <= m < k ==> class_has(CharClass::Plain(q), #[trigger] s[m]),
    ensures
        string_body(d, s, j, q) == (
            string_body(d, s, k, q).0,
            s.subrange(j, k) + string_body(d, s, k, q).1,
        ),
    decreases k - j,
{
    let cs = string_body(d, s, k, q).1;
    if j < k {
        lemma_body_plain_prefix(d, s, j + 1, k, q);
        assert(class_has(CharClass::Plain(q), s[j]));
        assert(seq![s[j]] + (s.subrange(j + 1, k) + cs) =~= s.subrange(j, k) + cs);
    } else {
        assert(s.subrange(j, k) + cs =~= cs);
    }
}

/// Decoding undoes escaping: for any characters `x` and any rest `r`, the
/// double-quoted literal of `escaped(x)` followed by `r` is read, up to its
/// closing quote, as `x`, in both grammars.
#[verifier::spinoff_prover]
pub proof fn law_escapes_round_trip(d: Dialect, x: Seq<char>, r: Seq<char>)
    ensures
        string_literal(d, seq!['"'] + escaped(x) + seq!['"'] + r, 0) == Ok::<
            (int, Seq<char>),
            (int, ErrorKind),
        >((escaped(x).len() + 2int, x)),
{
    let ex = escaped(x);
    let s = seq!['"'] + ex + seq!['"'] + r;
    let n = ex.len() as int;
    assert(s.subrange(1, 1 + n) =~= ex);
    assert(s[1 + n] == '"');
    assert(s[0] == '"');
    lemma_body_of_escaped(d, s, 1, x);
    if d == Dialect::Parser {
        let q = '"';
        let k = run_end(s, 1, CharClass::Plain(q));
        lemma_run_end(s, 1, CharClass::Plain(q));
        if k > 1 + n {
            assert(class_has(CharClass::Plain(q), s[1 + n]));
        }
        assert(k <= 1 + n);
        lemma_body_plain_prefix(d, s, 1, k, q);
        if s[k] == q {
            assert(string_body(d, s, k, q) == (k, Seq::<char>::empty()));
            assert(s.subrange(1, k) + Seq::<char>::empty() =~= s.subrange(1, k));
        }
    }
}

/// What a level reads as its operand: the next tighter level, or a prefix
/// expression at the tightest level.
pub open spec fn tighter(d: Dialect, s: Seq<char>, i: int, lvl: int) -> Outcome<ExprV> {
    if lvl < 10 {
        binary(d, s, i, lvl + 1)
    } else {
        unary(d, s, i)
    }
}

/// The operands `first` and `rhs` joined by the operators `ops`, grouped
/// from the left: `((first op0 rhs0) op1 rhs1) ...`.
pub open spec fn fold_left(first: ExprV, ops: Seq<BinOp>, rhs: Seq<ExprV>) -> ExprV
    decreases ops.len(),
{
    if ops.len() == 0 || rhs.len() == 0 {
        first
    } else {
        ExprV::Binary {
            op: ops.last(),
            left: Box::new(fold_left(first, ops.drop_last(), rhs.drop_last())),
            right: Box::new(rhs.last()),
        }
    }
}

/// The chain at level `lvl` as the law below describes it: operand `k`
/// (`first`, then `rhs[k - 1]`) is read from `starts[k]` up to `ends[k]`,
/// the operator `ops[k]` of the level from `ends[k]` up to `starts[k + 1]`,
/// and no operator of the level follows the last operand.
pub open spec fn chain_at(
    d: Dialect,
    s: Seq<char>,
    lvl: int,
    first: ExprV,
    ops: Seq<BinOp>,
    rhs: Seq<ExprV>,
    starts: Seq<int>,
    ends: Seq<int>,
) -> bool {
    &&& 0 <= lvl <= 10
    &&& ops.len() == rhs.len()
    &&& starts.len() == ops.len() + 1
    &&& ends.len() == ops.len() + 1
    &&& forall|k: int| 0 <= k <= ops.len() ==> 0 <= #[trigger] starts[k] <= ends[k] <= s.len()
    &&& tighter(d, s, starts[0], lvl) == Outcome::Parsed(ends[0], first)
    &&& forall|k: int|
        0 <= k < ops.len() ==> tighter(d, s, #[trigger] starts[k + 1], lvl) == Outcome::Parsed(
            ends[k + 1],
            rhs[k],
        )
    &&& forall|k: int|
        0 <= k < ops.len() ==> level_op(s, #[trigger] ends[k], lvl) == Some(
            (starts[k + 1], ops[k]),
        )
    &&& level_op(s, ends[ops.len() as int], lvl) is None
}

proof fn lemma_chain_rest(
    d: Dialect,
    s: Seq<char>,
    lvl: int,
    first: ExprV,
    ops: Seq<BinOp>,
    rhs: Seq<ExprV>,
    starts: Seq<int>,
    ends: Seq<int>,
    k: int,
)
    requires
        chain_at(d, s, lvl, first, ops, rhs, starts, ends),
        0 <= k <= ops.len(),
    ensures
        binary_rest(d, s, ends[k], lvl, fold_left(first, ops.take(k), rhs.take(k)))
            == Outcome::Parsed(ends[ops.len() as int], fold_left(first, ops, rhs)),
    decreases ops.len() - k,
{
    let n = ops.len() as int;
    if k == n {
        assert(ops.take(k) =~= ops);
        assert(rhs.take(k) =~= rhs);
    } else {
        let acc = fold_left(first, ops.take(k), rhs.take(k));
        let next = ExprV::Binary { op: ops[k], left: Box::new(acc), right: Box::new(rhs[k]) };
        assert(level_op(s, ends[k], lvl) == Some((starts[k + 1], ops[k])));
        assert(tighter(d, s, starts[k + 1], lvl) == Outcome::Parsed(ends[k + 1], rhs[k]));
        assert(0 <= starts[k + 1] <= ends[k + 1] <= s.len());
        assert(ops.take(k + 1).drop_last() =~= ops.take(k));
        assert(rhs.take(k + 1).drop_last() =~= rhs.take(k));
        assert(fold_left(first, ops.take(k + 1), rhs.take(k + 1)) == next);
        assert(binary_rest(d, s, ends[k], lvl, acc) == binary_rest(d, s, ends[k + 1], lvl, next));
        lemma_chain_rest(d, s, lvl, first, ops, rhs, starts, ends, k + 1);
    }
}

/// The operators of one level fold from the left, whatever their operands:
/// where, at level `lvl`, a first operand is read from `starts[0]`, each
/// operator `ops[k]` of the level is followed by the operand `rhs[k]`, and
/// no operator of the level follows the last operand (see `chain_at`), the
/// level reads from `starts[0]` up to the end of the last operand the
/// operands grouped from the left, `(first op0 rhs0) op1 rhs1 ...`, in both
/// grammars.
pub proof fn law_level_folds_left(
    d: Dialect,
    s: Seq<char>,
    lvl: int,
    first: ExprV,
    ops: Seq<BinOp>,
    rhs: Seq<ExprV>,
    starts: Seq<int>,
    ends: Seq<int>,
)
    requires
        chain_at(d, s, lvl, first, ops, rhs, starts, ends),
    ensures
        binary(d, s, starts[0], lvl) == Outcome::Parsed(
            ends[ops.len() as int],
            fold_left(first, ops, rhs),
        ),
{
    assert(0 <= starts[0] <= ends[0] <= s.len());
    assert(ops.take(0) =~= Seq::<BinOp>::empty());
    assert(rhs.take(0) =~= Seq::<ExprV>::empty());
    lemma_chain_rest(d, s, lvl, first, ops, rhs, starts, ends, 0);
}

/// Assignment groups to the right, whatever its operands and blanks: where
/// the conditional level reads `left` from `i` up to `j`, an `=` stands at
/// `j`, and an expression `right` is read after it and the blanks that
/// follow it, up to `k`, the expression at `i` is `left = right`, up to
/// `k`, in both grammars. As `right` is itself an expression, a further `=`
/// nests inside it.
pub proof fn law_assignment_takes_an_expression(
    d: Dialect,
    s: Seq<char>,
    i: int,
    j: int,
    left: ExprV,
    k: int,
    right: ExprV,
)
    requires
        0 <= i <= j < s.len(),
        ternary(d, s, i) == Outcome::Parsed(j, left),
        s[j] == '=',
        expr(d, s, past_blanks(s, j + 1)) == Outcome::Parsed(k, right),
    ensures
        expr(d, s, i) == Outcome::Parsed(
            k,
            ExprV::Binary { op: BinOp::Assign, left: Box::new(left), right: Box::new(right) },
        ),
{
    assert(s.subrange(j, j + 1) =~= seq!['=']);
}

/// The conditional operator groups to the right, whatever its operands and
/// blanks: where the loosest binary level reads `cond` from `i` up to `j`,
/// a `?` stands at `j`, an expression `left` follows it (after blanks) up
/// to `k`, a `:` stands at `k`, an expression `right` follows it (after
/// blanks) up to `m`, and no `=` stands at `m`, the expression at `i` is
/// `cond ? left : right`, up to `m`, in both grammars. As `right` is itself
/// an expression, a further conditional nests inside it.
pub proof fn law_conditional_takes_expressions(
    d: Dialect,
    s: Seq<char>,
    i: int,
    j: int,
    cond: ExprV,
    k: int,
    left: ExprV,
    m: int,
    right: ExprV,
)
    requires
        0 <= i <= j < s.len(),
        binary(d, s, i, 0) == Outcome::Parsed(j, cond),
        s[j] == '?',
        past_blanks(s, j + 1) <= k < s.len(),
        expr(d, s, past_blanks(s, j + 1)) == Outcome::Parsed(k, left),
        s[k] == ':',
        past_blanks(s, k + 1) <= m <= s.len(),
        expr(d, s, past_blanks(s, k + 1)) == Outcome::Parsed(m, right),
        m == s.len() || s[m] != '=',
    ensures
        expr(d, s, i) == Outcome::Parsed(
            m,
            ExprV::Ternary { cond: Box::new(cond), left: Box::new(left), right: Box::new(right) },
        ),
{
    let t = ExprV::Ternary { cond: Box::new(cond), left: Box::new(left), right: Box::new(right) };
    lemma_run_end(s, j + 1, CharClass::Space);
    lemma_run_end(s, k + 1, CharClass::Space);
    assert(s.subrange(j, j + 1) =~= seq!['?']);
    assert(s.subrange(k, k + 1) =~= seq![':']);
    assert(ternary(d, s, i) == Outcome::Parsed(m, t));
    lemma_not_at(s, m, seq!['=']);
}

/// Once stopped, the entry iterator stays stopped: in state `Done` or
/// `Failed`, a further step yields nothing and keeps the position and the
/// state, so `finish` answers the same after any number of further steps;
/// and an entry is yielded only with the iterator in state `Rest` after it.
#[verifier::spinoff_prover]
pub proof fn law_iterator_stays_stopped(d: Dialect, s: Seq<char>, pos: int, st: CommaState)
    ensures
        (st is Done || st is Failed) ==> comma_next(d, s, pos, st) == (
            pos,
            st,
            None::<(Seq<char>, ExprV)>,
        ),
        comma_next(d, s, pos, st).2 is Some ==> comma_next(d, s, pos, st).1 == CommaState::Rest,
{
    reveal(comma_next);
    let r = comma_next(d, s, pos, st);
    match st {
        CommaState::First => {
            let o = map_entry(d, s, pos).within(pos, s.len() as int);
            assert(r.2 is Some ==> o is Parsed);
        },
        CommaState::Rest => {
            if pos < s.len() && s[pos] == ',' {
                let k2 = run_end(s, pos + 1, CharClass::Space);
                let o = map_entry(d, s, k2).within(k2, s.len() as int);
                assert(r.2 is Some ==> o is Parsed);
            }
        },
        _ => {},
    }
}

/// A backslash followed by no character, or by one that names no escape,
/// is no string item: the run of items ends there.
pub proof fn law_unknown_escape_ends_the_items(d: Dialect, s: Seq<char>, j: int, q: char)
    requires
        0 <= j < s.len(),
        s[j] == '\\',
        j + 1 == s.len() || escape_of(d, s[j + 1]) is None,
    ensures
        string_body(d, s, j, q) == (j, Seq::<char>::empty()),
{
}

/// A string literal whose items stop at a backslash is refused there: where
/// the run of items after the opening quote at `i` ends at a backslash (an
/// unknown escape), the literal is an error of kind `Char` at that
/// backslash, in both grammars.
#[verifier::spinoff_prover]
pub proof fn law_unknown_escape_is_refused(d: Dialect, s: Seq<char>, i: int)
    requires
        0 <= i < s.len(),
        s[i] == '"' || s[i] == '\'',
        string_body(d, s, i + 1, s[i]).0 < s.len(),
        s[string_body(d, s, i + 1, s[i]).0] == '\\',
    ensures
        string_literal(d, s, i) == Err::<(int, Seq<char>), (int, ErrorKind)>(
            (string_body(d, s, i + 1, s[i]).0, ErrorKind::Char),
        ),
{
    let q = s[i];
    let m = string_body(d, s, i + 1, q).0;
    if d == Dialect::Parser {
        let k = run_end(s, i + 1, CharClass::Plain(q));
        lemma_run_end(s, i + 1, CharClass::Plain(q));
        lemma_body_plain_prefix(d, s, i + 1, k, q);
        lemma_string_body(d, s, i + 1, q);
        if k < s.len() && s[k] == q {
            assert(string_body(d, s, k, q).0 == k);
        }
        assert(k < s.len());
        assert(s[k] != q);
    }
}

/// A comma-separated list may be empty: where no first item is read at
/// `j` (no expression, or no map entry), the list has no items and ends at
/// `j`, in both grammars.
pub proof fn law_lists_may_be_empty(d: Dialect, s: Seq<char>, j: int)
    ensures
        !(expr(d, s, j).within(j, s.len() as int) is Parsed) ==> expr_list(d, s, j)
            == Outcome::Parsed(j, Seq::<ExprV>::empty()),
        !(map_entry(d, s, j).within(j, s.len() as int) is Parsed) ==> entry_list(d, s, j)
            == Outcome::Parsed(j, Seq::<(Seq<char>, ExprV)>::empty()),
        !(map_entry(d, s, j).within(j, s.len() as int) is Parsed) ==> entry_list_keys(d, s, j)
            == Seq::<bool>::empty(),
{
    reveal(entry_list_keys);
}

/// Why the entry iterator fails: a step after an entry fails with nom's
/// request for more input exactly where the input has ended; any other
/// failure carries the abort of the entry being read.
#[verifier::spinoff_prover]
pub proof fn law_iterator_failures(d: Dialect, s: Seq<char>, pos: int, st: CommaState)
    requires
        0 <= pos <= s.len(),
    ensures
        st is Rest && pos == s.len() ==> comma_next(d, s, pos, st).1 == CommaState::Failed(
            incomplete_text(),
        ),
        st is First && comma_next(d, s, pos, st).1 is Failed ==> map_entry(d, s, pos)
            == Outcome::<(Seq<char>, ExprV)>::Abort(comma_next(d, s, pos, st).1->Failed_0),
        st is Rest && pos < s.len() && comma_next(d, s, pos, st).1 is Failed ==> map_entry(
            d,
            s,
            run_end(s, pos + 1, CharClass::Space),
        ) == Outcome::<(Seq<char>, ExprV)>::Abort(comma_next(d, s, pos, st).1->Failed_0),
{
    reveal(comma_next);
}

/// An operand that the primary rule reads at the start of the input up to
/// its end, with no prefix operator before it, is the whole input.
proof fn lemma_whole_primary(d: Dialect, s: Seq<char>, e: ExprV)
    requires
        s.len() > 0,
        !is_space(s[0]),
        s[0] != '+' && s[0] != '-' && s[0] != '!',
        primary(d, s, 0) == Outcome::Parsed(s.len() as int, e),
    ensures
        parse_result(d, s) == Ok::<ExprV, Seq<char>>(e),
{
    let n = s.len() as int;
    law_postfix_without_step(d, s, n, e);
    assert(postfix(d, s, 0) == Outcome::Parsed(n, e));
    lemma_not_at(s, 0, seq!['+']);
    lemma_not_at(s, 0, seq!['-']);
    lemma_not_at(s, 0, seq!['!']);
    assert(unary(d, s, 0) == Outcome::Parsed(n, e));
    lemma_whole_operand(d, s, e, 0);
    lemma_whole_input(d, s, e);
}

/// A one-parameter arrow function takes a whole expression as its body:
/// for a plain name `a`, blanks `w1` and `w2` (each possibly empty), and a
/// text `b` that starts with no blank and is read, where it stands in
/// `a w1 => w2 b`, as an expression `e` running to the end of the input,
/// the whole text is the arrow function with the parameter `a` and the
/// body `e`, in both grammars.
#[verifier::spinoff_prover]
pub proof fn law_arrow_body_is_an_expression(
    d: Dialect,
    a: Seq<char>,
    w1: Seq<char>,
    w2: Seq<char>,
    b: Seq<char>,
    e: ExprV,
)
    requires
        plain_name(a),
        blanks(w1),
        blanks(w2),
        b.len() > 0,
        !is_space(b[0]),
        expr(d, a + w1 + seq!['=', '>'] + w2 + b, a.len() + w1.len() + 2int + w2.len())
            == Outcome::Parsed((a + w1 + seq!['=', '>'] + w2 + b).len() as int, e),
    ensures
        parse_result(d, a + w1 + seq!['=', '>'] + w2 + b) == Ok::<ExprV, Seq<char>>(
            ExprV::ArrowFunc { params: seq![a], body: Box::new(e) },
        ),
{
    let arrow = seq!['=', '>'];
    let s = a + w1 + arrow + w2 + b;
    let ea = a.len() as int;
    let p: int = ea + w1.len();
    let q: int = p + 2 + w2.len();
    let n = s.len() as int;
    assert(s.subrange(0, ea) =~= a);
    assert(s.subrange(ea, p) =~= w1);
    assert(s.subrange(p, p + 2) =~= arrow);
    assert(s.subrange(p + 2, q) =~= w2);
    assert(s.subrange(q, n) =~= b);
    lemma_piece(s, 0, a);
    lemma_piece(s, ea, w1);
    lemma_piece(s, p + 2, w2);
    assert(s[0] == a[0]);
    assert(s[p] == '=');
    assert(s[q] == b[0]);
    assert(!is_alnum(s[ea])) by {
        if w1.len() > 0 {
            assert(s[ea] == w1[0]);
        }
    }
    lemma_gap(s, ea, w1);
    lemma_gap(s, p + 2, w2);
    assert(bare_word(s, 0, ea));
    lemma_name_literal(d, s, 0, ea);
    lemma_name_chars(s, 0, ea);
    lemma_alnum_run(s, 0, ea);
    let f = ExprV::ArrowFunc { params: seq![s.subrange(0, ea)], body: Box::new(e) };
    assert(ident(d, s, 0) == Outcome::Parsed(n, f));
    assert(primary(d, s, 0) == Outcome::Parsed(n, f));
    lemma_whole_primary(d, s, f);
}

/// A list literal holds whatever comma-separated expressions stand between
/// its brackets, however many, none included: where `[` stands at `i`, the
/// expressions after it and its blanks are read up to `k` as `items`, and
/// `]` stands at `k`, the list literal at `i` holds `items` and ends after
/// the `]` and the blanks that follow it, in both grammars.
#[verifier::spinoff_prover]
pub proof fn law_list_holds_its_items(
    d: Dialect,
    s: Seq<char>,
    i: int,
    k: int,
    items: Seq<ExprV>,
)
    requires
        0 <= i < s.len(),
        s[i] == '[',
        past_blanks(s, i + 1) <= k < s.len(),
        expr_list(d, s, past_blanks(s, i + 1)) == Outcome::Parsed(k, items),
        s[k] == ']',
    ensures
        list(d, s, i) == Outcome::Parsed(past_blanks(s, k + 1), ExprV::List(items)),
{
    let j = past_blanks(s, i + 1);
    lemma_run_end(s, i + 1, CharClass::Space);
    assert(s.subrange(i, i + 1) =~= seq!['[']);
    assert(s.subrange(k, k + 1) =~= seq![']']);
    assert(tokc(s, i, '[') == Some(j));
    assert(expr_list(d, s, j).within(j, s.len() as int) == Outcome::Parsed(k, items));
    assert(tokc(s, k, ']') == Some(past_blanks(s, k + 1)));
}

/// Where `[` starts the input, the primary rule reads a list literal.
#[verifier::spinoff_prover]
proof fn lemma_bracket_primary(d: Dialect, s: Seq<char>)
    requires
        s.len() > 0,
        s[0] == '[',
    ensures
        primary(d, s, 0) == list(d, s, 0),
{
    let n = s.len() as int;
    lemma_not_at(s, 0, seq!['t', 'r', 'u', 'e']);
    lemma_not_at(s, 0, seq!['f', 'a', 'l', 's', 'e']);
    lemma_not_at(s, 0, seq!['n', 'u', 'l', 'l']);
    lemma_not_at(s, 0, seq!['u', 'n', 'd', 'e', 'f', 'i', 'n', 'e', 'd']);
    lemma_not_at(s, 0, seq!['$', '{']);
    let t = s.subrange(0, n);
    assert(t[0] == '[');
    lemma_float_shape(t);
    assert(literal(d, s, 0) == Outcome::<ExprV>::Mismatch);
    assert(ident(d, s, 0) == Outcome::<ExprV>::Mismatch);
    assert(custom_ident(s, 0) is None);
}

/// Where `]` stands at `j`, the expressions there are none.
#[verifier::spinoff_prover]
proof fn lemma_no_items_before_bracket(d: Dialect, s: Seq<char>, j: int)
    requires
        0 <= j < s.len(),
        s[j] == ']',
    ensures
        expr_list(d, s, j) == Outcome::Parsed(j, Seq::<ExprV>::empty()),
{
    lemma_no_operand(d, s, j);
    assert(binary(d, s, j, 0) == Outcome::<ExprV>::Mismatch);
    assert(ternary(d, s, j) == Outcome::<ExprV>::Mismatch);
    assert(expr(d, s, j) == Outcome::<ExprV>::Mismatch);
    law_lists_may_be_empty(d, s, j);
}

/// Brackets with only blanks between them are the empty list, in both
/// grammars.
#[verifier::spinoff_prover]
pub proof fn law_empty_brackets_are_the_empty_list(d: Dialect, w: Seq<char>)
    requires
        blanks(w),
    ensures
        parse_result(d, seq!['['] + w + seq![']']) == Ok::<ExprV, Seq<char>>(
            ExprV::List(Seq::empty()),
        ),
{
    let s = seq!['['] + w + seq![']'];
    let j: int = 1int + w.len();
    let n = s.len() as int;
    assert(s.subrange(1, j) =~= w);
    assert(s[0] == '[');
    assert(s[j] == ']');
    lemma_gap(s, 1, w);
    lemma_no_items_before_bracket(d, s, j);
    law_list_holds_its_items(d, s, 0, j, Seq::empty());
    assert(past_blanks(s, j + 1) == n);
    lemma_bracket_primary(d, s);
    lemma_whole_primary(d, s, ExprV::List(Seq::empty()));
}

/// The escapes of a string literal stand for their own characters: `\b`,
/// `\f`, `\n`, `\r` and `\t` for backspace, form feed, line feed,
/// carriage return and tab, `\"`, `\\` and `\/` for themselves, and in
/// dialect `Parser` also `\'`. For plain texts `x` and `y` (no double
/// quote, no backslash) and any rest `r`, the literal `"x\cy"` is read,
/// up to its closing quote, as `x`, the character of the escape, and `y`.
#[verifier::spinoff_prover]
pub proof fn law_escapes_decode(
    d: Dialect,
    x: Seq<char>,
    c: char,
    ch: char,
    y: Seq<char>,
    r: Seq<char>,
)
    requires
        forall|k: int| 0 <= k < x.len() ==> x[k] != '"' && x[k] != '\\',
        forall|k: int| 0 <= k < y.len() ==> y[k] != '"' && y[k] != '\\',
        (c == 'b' && ch == '\x08') || (c == 'f' && ch == '\x0C') || (c == 'n' && ch == '\n')
            || (c == 'r' && ch == '\r') || (c == 't' && ch == '\t') || ((c == '"' || c == '\\'
            || c == '/') && ch == c) || (d == Dialect::Parser && c == '\'' && ch == c),
    ensures
        string_literal(d, seq!['"'] + x + seq!['\\', c] + y + seq!['"'] + r, 0) == Ok::<
            (int, Seq<char>),
            (int, ErrorKind),
        >((x.len() + y.len() + 4int, x + seq![ch] + y)),
{
    let q = '"';
    let s = seq!['"'] + x + seq!['\\', c] + y + seq!['"'] + r;
    let k: int = 1int + x.len();
    let m: int = k + 2 + y.len();
    assert(s.subrange(1, k) =~= x);
    assert(s.subrange(k + 2, m) =~= y);
    lemma_piece(s, 1, x);
    lemma_piece(s, k + 2, y);
    assert(s[0] == q);
    assert(s[k] == '\\');
    assert(s[k + 1] == c);
    assert(s[m] == q);
    assert(escape_of(d, c) == Some(ch));
    assert forall|u: int| 1 <= u < k implies class_has(CharClass::Plain(q), #[trigger] s[u]) by {
        assert(s[1 + (u - 1)] == x[u - 1]);
    }
    assert forall|u: int| k + 2 <= u < m implies class_has(CharClass::Plain(q), #[trigger] s[u]) by {
        assert(s[k + 2 + (u - k - 2)] == y[u - k - 2]);
    }
    lemma_body_plain_prefix(d, s, 1, k, q);
    lemma_body_plain_prefix(d, s, k + 2, m, q);
    assert(string_body(d, s, m, q) == (m, Seq::<char>::empty()));
    assert(string_body(d, s, k, q) == (m, seq![ch] + (s.subrange(k + 2, m) + Seq::<char>::empty())));
    assert(seq![ch] + (s.subrange(k + 2, m) + Seq::<char>::empty()) =~= seq![ch] + y);
    assert(s.subrange(1, k) + (seq![ch] + y) =~= x + seq![ch] + y);
    if d == Dialect::Parser {
        lemma_run_plain(s, 1, k, q);
    }
}

/// A run of plain characters from `i` up to `k`, followed by a character
/// that is not plain, ends at `k`.
proof fn lemma_run_plain(s: Seq<char>, i: int, k: int, q: char)
    requires
        0 <= i <= k < s.len(),
        forall|u: int| i <= u < k ==> class_has(CharClass::Plain(q), #[trigger] s[u]),
        !class_has(CharClass::Plain(q), s[k]),
    ensures
        run_end(s, i, CharClass::Plain(q)) == k,
    decreases k - i,
{
    if i < k {
        lemma_run_plain(s, i + 1, k, q);
    }
}

} // verus!
