//! The iterator over the entries of a map literal in dialect `Parser`: it
//! yields every entry of a comma-separated list, reads one trailing comma,
//! and remembers why it stopped.
use crate::ast::{view_entry, ExprV, Expression};
use crate::engine::{at, map_entry, Input, Step};
use crate::outside::streaming_comma;
use crate::scan::run_end;
use crate::syntax;
use crate::syntax::{CharClass, CommaState, Dialect};
use std::borrow::Cow;
use vstd::prelude::*;

verus! {

/// Where the iterator stands.
pub enum State {
    First,
    Rest,
    Done,
    /// Stopped on an error that no alternative recovers from, with its
    /// message.
    Failed(String),
}

impl State {
    pub open spec fn view_state(&self) -> CommaState {
        match self {
            State::First => CommaState::First,
            State::Rest => CommaState::Rest,
            State::Done => CommaState::Done,
            State::Failed(m) => CommaState::Failed(m@),
        }
    }
}

/// The iterator: the position it reads from and its state.
pub struct CommaSeparated {
    pub input: usize,
    pub state: State,
}

/// An iterator over the entries from position `input` on.
pub fn comma_separated_iter(input: usize) -> (r: CommaSeparated)
    ensures
        r.input == input,
        r.state.view_state() == CommaState::First,
{
    CommaSeparated { input, state: State::First }
}

/// Where the entry that a step from `pos` in state `st` reads starts: at
/// `pos` for the first entry, after the comma and its blanks for a further
/// one.
pub open spec fn entry_start(s: Seq<char>, pos: int, st: CommaState) -> int {
    if st is Rest {
        syntax::run_end(s, pos + 1, CharClass::Space)
    } else {
        pos
    }
}

/// An entry as a value of the grammar.
pub open spec fn entry_view<'a>(e: Option<(Cow<'a, str>, Expression<'a>)>) -> Option<
    (Seq<char>, ExprV),
> {
    match e {
        Some(e) => Some(view_entry(e)),
        None => None,
    }
}

impl CommaSeparated {
    /// The next entry, if any (see `syntax::comma_next`).
    pub fn next<'a>(&mut self, d: Dialect, inp: &Input<'a>) -> (r: Option<(Cow<'a, str>, Expression<'a>)>)
        requires
            at(inp, old(self).input as int),
        ensures
            syntax::comma_next(d, inp.cs@, old(self).input as int, old(self).state.view_state())
                == (final(self).input as int, final(self).state.view_state(), entry_view(r)),
            old(self).input <= final(self).input <= inp.cs.len(),
            r is Some ==> old(self).input < final(self).input,
            r matches Some(e) ==> (e.0 is Borrowed <==> syntax::key_borrowed(
                d,
                inp.cs@,
                entry_start(inp.cs@, old(self).input as int, old(self).state.view_state()),
            )),
        decreases inp.cs.len() - old(self).input, 16int, 0int,
    {
        let (k, st, r) = match self.state {
            State::First => first_entry(d, inp, self.input),
            State::Rest => second_entry(d, inp, self.input),
            _ => {
                proof {
                    reveal(syntax::comma_next);
                }
                return None;
            },
        };
        self.input = k;
        self.state = st;
        r
    }

    /// Where the entries end, or the message of the error that stopped
    /// the iterator.
    pub fn finish(self) -> (r: Result<usize, String>)
        ensures
            match self.state.view_state() {
                CommaState::Failed(m) => r matches Err(e) && e@ == m,
                _ => r == Ok::<usize, String>(self.input),
            },
    {
        match self.state {
            State::Failed(m) => Err(m),
            _ => Ok(self.input),
        }
    }
}

/// The first entry (see `syntax::comma_next` in state `First`).
#[verifier::spinoff_prover]
#[verifier::rlimit(40)]
fn first_entry<'a>(d: Dialect, inp: &Input<'a>, pos: usize) -> (r: (
    usize,
    State,
    Option<(Cow<'a, str>, Expression<'a>)>,
))
    requires
        at(inp, pos as int),
    ensures
        syntax::comma_next(d, inp.cs@, pos as int, CommaState::First) == (
            r.0 as int,
            r.1.view_state(),
            entry_view(r.2),
        ),
        pos <= r.0 <= inp.cs.len(),
        r.2 is Some ==> pos < r.0,
        r.2 matches Some(e) ==> (e.0 is Borrowed <==> syntax::key_borrowed(d, inp.cs@, pos as int)),
    decreases inp.cs.len() - pos, 15int, 1int,
{
    proof {
        reveal(syntax::comma_next);
    }
    match map_entry(d, inp, pos) {
        Step::Parsed(k, e) => (k, State::Rest, Some(e)),
        Step::Mismatch => (pos, State::Done, None),
        Step::Abort(m) => (pos, State::Failed(m), None),
    }
}

/// The entry after the comma (see `syntax::comma_next` in state `Rest`).
#[verifier::spinoff_prover]
#[verifier::rlimit(40)]
fn second_entry<'a>(d: Dialect, inp: &Input<'a>, pos: usize) -> (r: (
    usize,
    State,
    Option<(Cow<'a, str>, Expression<'a>)>,
))
    requires
        at(inp, pos as int),
    ensures
        syntax::comma_next(d, inp.cs@, pos as int, CommaState::Rest) == (
            r.0 as int,
            r.1.view_state(),
            entry_view(r.2),
        ),
        pos <= r.0 <= inp.cs.len(),
        r.2 is Some ==> pos < r.0,
        r.2 matches Some(e) ==> (e.0 is Borrowed <==> syntax::key_borrowed(
            d,
            inp.cs@,
            syntax::run_end(inp.cs@, pos + 1, CharClass::Space),
        )),
    decreases inp.cs.len() - pos, 15int, 1int,
{
    proof {
        reveal(syntax::comma_next);
    }
    match streaming_comma(inp.slice(pos, inp.cs.len())) {
        Ok(true) => {
            let k2 = run_end(&inp.cs, pos + 1, CharClass::Space);
            match map_entry(d, inp, k2) {
                Step::Parsed(k, e) => (k, State::Rest, Some(e)),
                Step::Mismatch => (k2, State::Done, None),
                Step::Abort(m) => (pos, State::Failed(m), None),
            }
        },
        Ok(false) => (pos, State::Done, None),
        Err(m) => (pos, State::Failed(m), None),
    }
}

} // verus!
