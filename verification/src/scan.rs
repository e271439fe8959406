//! The lexical level of the grammar: blanks, tokens, names and string
//! literals, read from the characters of the input.
use crate::syntax::{CharClass, Dialect, ErrorKind, class_has};
use crate::syntax;
use vstd::prelude::*;

verus! {

broadcast use vstd::string::group_string_axioms;

/// The characters of `text`, in order.
pub fn char_vec(text: &str) -> (v: Vec<char>)
    ensures
        v@ == text@,
{
    let mut it = text.chars();
    let mut v: Vec<char> = Vec::new();
    loop
        invariant
            v@ + vstd::std_specs::iter::IteratorSpec::remaining(&it) == text@,
            vstd::std_specs::iter::IteratorSpec::decrease(&it) is Some,
        ensures
            v@ == text@,
        decreases vstd::std_specs::iter::IteratorSpec::decrease(&it)->0,
    {
        match it.next() {
            Some(c) => {
                v.push(c);
            },
            None => {
                break;
            },
        }
    }
    v
}


fn in_class(k: CharClass, c: char) -> (b: bool)
    ensures
        b == class_has(k, c),
{
    match k {
        CharClass::Space => c == ' ' || c == '\t',
        CharClass::Alnum => ('a' <= c && c <= 'z') || ('A' <= c && c <= 'Z') || ('0' <= c && c
            <= '9'),
        CharClass::Digit => '0' <= c && c <= '9',
        CharClass::NotBrace => c != '}',
        CharClass::Plain(q) => c != q && c != '\\',
    }
}

/// The end of the run of characters of class `k` that starts at `i`.
pub fn run_end(cs: &Vec<char>, i: usize, k: CharClass) -> (j: usize)
    requires
        i <= cs.len(),
    ensures
        j == syntax::run_end(cs@, i as int, k),
        i <= j <= cs.len(),
{
    let mut j = i;
    while j < cs.len() && in_class(k, cs[j])
        invariant
            i <= j <= cs.len(),
            syntax::run_end(cs@, i as int, k) == syntax::run_end(cs@, j as int, k),
        decreases cs.len() - j,
    {
        j = j + 1;
    }
    j
}

/// Does `p` stand in the input at `i`?
pub fn occurs_at(cs: &Vec<char>, i: usize, p: &[char]) -> (b: bool)
    ensures
        b == syntax::occurs_at(cs@, i as int, p@),
{
    if p.len() > cs.len() || i > cs.len() - p.len() {
        return false;
    }
    let mut m: usize = 0;
    while m < p.len()
        invariant
            i + p.len() <= cs.len(),
            m <= p.len(),
            forall|t: int| 0 <= t < m ==> cs@[i + t] == p@[t],
        decreases p.len() - m,
    {
        if cs[i + m] != p[m] {
            assert(cs@.subrange(i as int, i + p.len())[m as int] != p@[m as int]);
            return false;
        }
        m = m + 1;
    }
    assert(cs@.subrange(i as int, i + p.len()) =~= p@);
    true
}

/// A token: the text `p` followed by blanks. The answer is the position after
/// the blanks.
pub fn tok(cs: &Vec<char>, i: usize, p: &[char]) -> (r: Option<usize>)
    requires
        i <= cs.len(),
    ensures
        match r {
            Some(j) => syntax::tok(cs@, i as int, p@) == Some(j as int) && i + p@.len() <= j
                <= cs.len(),
            None => syntax::tok(cs@, i as int, p@) is None,
        },
{
    if occurs_at(cs, i, p) {
        Some(run_end(cs, i + p.len(), CharClass::Space))
    } else {
        None
    }
}

/// A one-character token.
pub fn tokc(cs: &Vec<char>, i: usize, c: char) -> (r: Option<usize>)
    requires
        i <= cs.len(),
    ensures
        match r {
            Some(j) => syntax::tokc(cs@, i as int, c) == Some(j as int) && i < j <= cs.len(),
            None => syntax::tokc(cs@, i as int, c) is None,
        },
{
    if i < cs.len() && cs[i] == c {
        assert(cs@.subrange(i as int, i + 1) =~= seq![c]);
        Some(run_end(cs, i + 1, CharClass::Space))
    } else {
        assert(!syntax::occurs_at(cs@, i as int, seq![c])) by {
            if syntax::occurs_at(cs@, i as int, seq![c]) {
                assert(cs@.subrange(i as int, i + 1)[0] == c);
            }
        }
        None
    }
}

/// A name; the answer is its end (blanks after it are not read).
pub fn ident_name(cs: &Vec<char>, i: usize) -> (r: Option<usize>)
    requires
        i <= cs.len(),
    ensures
        match r {
            Some(j) => syntax::ident_name(cs@, i as int) == Some(j as int) && i < j <= cs.len(),
            None => syntax::ident_name(cs@, i as int) is None,
        },
{
    if i < cs.len() && (('a' <= cs[i] && cs[i] <= 'z') || ('A' <= cs[i] && cs[i] <= 'Z')) {
        proof {
            syntax::lemma_ident_name(cs@, i as int);
        }
        Some(run_end(cs, i, CharClass::Alnum))
    } else {
        None
    }
}

/// A custom name `${...}`; the answer is the end of the closing brace.
pub fn custom_ident(cs: &Vec<char>, i: usize) -> (r: Option<usize>)
    requires
        i <= cs.len(),
    ensures
        match r {
            Some(j) => syntax::custom_ident(cs@, i as int) == Some(j as int) && i + 3 <= j
                <= cs.len(),
            None => syntax::custom_ident(cs@, i as int) is None,
        },
{
    if occurs_at(cs, i, &['$', '{']) {
        let k = run_end(cs, i + 2, CharClass::NotBrace);
        if k < cs.len() {
            Some(k + 1)
        } else {
            None
        }
    } else {
        None
    }
}


/// What the escape `\\c` stands for in a string literal (see
/// `syntax::escape_of`): `None` for a character that names no escape.
pub fn escape_of(d: Dialect, c: char) -> (r: Option<char>)
    ensures
        r == syntax::escape_of(d, c),
{
    if c == '"' || c == '\\' || c == '/' || (c == '\'' && d == Dialect::Parser) {
        Some(c)
    } else if c == 'b' {
        Some('\x08')
    } else if c == 'f' {
        Some('\x0C')
    } else if c == 'n' {
        Some('\n')
    } else if c == 'r' {
        Some('\r')
    } else if c == 't' {
        Some('\t')
    } else {
        None
    }
}

/// The longest run of string items from `j` on (see `syntax::string_body`),
/// with the characters it stands for appended to `out`.
fn string_body(d: Dialect, cs: &Vec<char>, j: usize, q: char, out: &mut Vec<char>) -> (k: usize)
    requires
        j <= cs.len(),
    ensures
        k == syntax::string_body(d, cs@, j as int, q).0,
        final(out)@ == old(out)@ + syntax::string_body(d, cs@, j as int, q).1,
        j <= k <= cs.len(),
{
    let mut k = j;
    proof {
        syntax::lemma_string_body(d, cs@, j as int, q);
    }
    loop
        invariant
            j <= k <= cs.len(),
            syntax::string_body(d, cs@, j as int, q).0 == syntax::string_body(d, cs@, k as int, q).0,
            old(out)@ + syntax::string_body(d, cs@, j as int, q).1 == out@ + syntax::string_body(
                d,
                cs@,
                k as int,
                q,
            ).1,
        ensures
            k == syntax::string_body(d, cs@, j as int, q).0,
            out@ == old(out)@ + syntax::string_body(d, cs@, j as int, q).1,
        decreases cs.len() - k,
    {
        if k >= cs.len() {
            assert(out@ + Seq::<char>::empty() == out@);
            break;
        }
        let c = cs[k];
        if c == '\\' && k + 1 < cs.len() {
            if let Some(e) = escape_of(d, cs[k + 1]) {
                let ghost before = out@;
                out.push(e);
                proof {
                    let rest = syntax::string_body(d, cs@, k + 2, q).1;
                    assert(before + (seq![e] + rest) == out@ + rest);
                }
                k = k + 2;
                continue;
            }
        }
        if c != q && c != '\\' {
            let ghost before = out@;
            out.push(c);
            proof {
                let rest = syntax::string_body(d, cs@, k + 1, q).1;
                assert(before + (seq![c] + rest) == out@ + rest);
            }
            k = k + 1;
        } else {
            assert(out@ + Seq::<char>::empty() == out@);
            break;
        }
    }
    k
}

/// Reads a string literal at `i` (see `syntax::string_literal`). On success
/// the answer is the end of the closing quote and, where the literal holds an
/// escape that the dialect rewrites or the dialect always copies, the
/// characters it stands for; `None` stands for the characters between the
/// quotes as they are.
pub fn string_literal(d: Dialect, cs: &Vec<char>, i: usize) -> (r: Result<
    (usize, Option<Vec<char>>),
    (usize, ErrorKind),
>)
    requires
        i <= cs.len(),
    ensures
        match r {
            Ok((j, None)) => i + 2 <= j && syntax::string_literal(d, cs@, i as int) == Ok::<
                (int, Seq<char>),
                (int, ErrorKind),
            >((j as int, cs@.subrange(i + 1, j - 1))),
            Ok((j, Some(v))) => syntax::string_literal(d, cs@, i as int) == Ok::<
                (int, Seq<char>),
                (int, ErrorKind),
            >((j as int, v@)),
            Err((j, e)) => syntax::string_literal(d, cs@, i as int) == Err::<
                (int, Seq<char>),
                (int, ErrorKind),
            >((j as int, e)),
        },
        r matches Ok((j, _)) ==> i < j <= cs.len(),
        r matches Err((j, _)) ==> i <= j <= cs.len(),
        d == Dialect::Parser ==> (r matches Ok((j, v)) ==> (v is None <==> forall|k: int|
            i < k < j - 1 ==> cs@[k] != '\\')),
        r matches Ok((_, v)) ==> (v is None <==> syntax::literal_borrowed(d, cs@, i as int)),
{
    proof {
        syntax::lemma_string_literal(d, cs@, i as int);
    }
    if !(i < cs.len() && (cs[i] == '"' || cs[i] == '\'')) {
        return Err((i, ErrorKind::Char));
    }
    let q = cs[i];
    match d {
        Dialect::Combinator => {
            let mut out: Vec<char> = Vec::new();
            let k = string_body(d, cs, i + 1, q, &mut out);
            assert(out@ == syntax::string_body(d, cs@, i + 1, q).1);
            if k < cs.len() && cs[k] == q {
                Ok((k + 1, Some(out)))
            } else {
                Err((k, ErrorKind::Char))
            }
        },
        Dialect::Parser => {
            let k = run_end(cs, i + 1, CharClass::Plain(q));
            proof {
                syntax::lemma_run_end(cs@, i + 1, CharClass::Plain(q));
            }
            if k == cs.len() {
                Err((k, ErrorKind::Eof))
            } else if cs[k] == q {
                Ok((k + 1, None))
            } else {
                let mut out: Vec<char> = Vec::new();
                let mut t = i + 1;
                while t < k
                    invariant
                        i + 1 <= t <= k,
                        k <= cs.len(),
                        out@ == cs@.subrange(i + 1, t as int),
                    decreases k - t,
                {
                    out.push(cs[t]);
                    assert(out@ =~= cs@.subrange(i + 1, t + 1));
                    t = t + 1;
                }
                let m = string_body(d, cs, k, q, &mut out);
                if m < cs.len() && cs[m] == q {
                    assert(cs@[k as int] == '\\');
                    Ok((m + 1, Some(out)))
                } else {
                    Err((m, ErrorKind::Char))
                }
            }
        },
    }
}

} // verus!
