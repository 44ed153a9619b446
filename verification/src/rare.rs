//! The matching engine: a set-based simulation of the automaton.
//!
//! The simulation keeps the set of states that a run can be in after reading
//! the text up to the current position.  One step reads one code point: it
//! collects the states that are entered by reading it, and then everything
//! that can be reached from those without reading.  The work of a step is
//! bounded by the size of the automaton, whatever the pattern.
use vstd::prelude::*;
use crate::error::SyntaxError;
use crate::lexer::token_type::TokenType;
use crate::parser::nfa::{Nfa, NfaView};
use crate::parser::{Parser, spec_compile};
use crate::laws::{
    law_compile_means,
    law_compile_outcome,
    law_state_bound,
    law_is_match_iff_some_match,
    law_matches_are_ordered,
};
use crate::meaning::{expr_admits, means_expr, pattern_expr};
use crate::semantics::{consumes, eps_ok, lemma_unmarked_update, ordered_ranges, ranges_view, unmarked};
use crate::text::to_chars;

verus! {

/// A compiled pattern.
///
/// The engine owns its automaton and never changes it, so one engine can be
/// queried from several places at once; every query allocates its own scratch
/// sets.
pub struct RARE {
    pub(crate) nfa: Nfa,
}

impl View for RARE {
    type V = NfaView;

    closed spec fn view(&self) -> NfaView {
        self.nfa@
    }
}

/// The scratch sets of one query.  A set of states is a vector of marks, one
/// per state of the automaton, so that the states of a set are always visited
/// in ascending order of their indices.
struct CurrStatesData {
    /// The states that are active at the current position.
    curr_states: Vec<bool>,
    /// An empty set that the next step fills; the two are swapped after it.
    next_states: Vec<bool>,
    /// Whether a match may begin at any position: then the entry is active at
    /// every position.
    unanchored: bool,
}

/// Where a query stands in its text.
struct StringIterData {
    strlen: usize,
    curr_pos: usize,
    /// The code point at `curr_pos`, or `None` at the end of the text.
    curr_char: Option<char>,
}

impl CurrStatesData {
    /// Both sets range over `n` states, and the second one is empty.
    spec fn wf(&self, n: nat) -> bool {
        &&& self.curr_states@.len() == n
        &&& self.next_states@.len() == n
        &&& forall|t: int| 0 <= t < n ==> !self.next_states@[t]
    }
}

impl StringIterData {
    /// Whether this is position `curr_pos` of `text`.
    spec fn at(&self, text: Seq<char>) -> bool {
        &&& self.strlen == text.len()
        &&& self.curr_pos <= self.strlen
        &&& self.curr_char == if self.curr_pos < self.strlen {
            Some(text[self.curr_pos as int])
        } else {
            None
        }
    }
}

/// Where a query stands when it is at position `pos` of `text`.
fn position(text: &Vec<char>, pos: usize) -> (d: StringIterData)
    requires
        pos <= text@.len(),
    ensures
        d.at(text@),
        d.curr_pos == pos,
{
    let strlen: usize = text.len();
    let curr_char = if pos < strlen {
        Some(text[pos])
    } else {
        None
    };
    StringIterData { strlen, curr_pos: pos, curr_char }
}

/// An empty set over `n` states.
fn no_states(n: usize) -> (marks: Vec<bool>)
    ensures
        marks@.len() == n,
        forall|t: int| 0 <= t < n ==> !marks@[t],
{
    let mut marks: Vec<bool> = Vec::new();
    let mut i: usize = 0;
    while i < n
        invariant
            i <= n,
            marks@.len() == i,
            forall|t: int| 0 <= t < i ==> !marks@[t],
        decreases n - i,
    {
        marks.push(false);
        i += 1;
    }
    marks
}

/// Empties a set.
fn clear_states(marks: &mut Vec<bool>)
    ensures
        final(marks)@.len() == old(marks)@.len(),
        forall|t: int| 0 <= t < final(marks)@.len() ==> !final(marks)@[t],
{
    let n: usize = marks.len();
    let mut i: usize = 0;
    while i < n
        invariant
            i <= n,
            marks@.len() == n,
            forall|t: int| 0 <= t < i ==> !marks@[t],
        decreases n - i,
    {
        marks[i] = false;
        i += 1;
    }
}

/// Whether a set is empty.
fn none_marked(marks: &Vec<bool>) -> (b: bool)
    ensures
        b == (forall|t: int| 0 <= t < marks@.len() ==> !marks@[t]),
{
    let n: usize = marks.len();
    let mut i: usize = 0;
    while i < n
        invariant
            i <= n,
            n == marks@.len(),
            forall|t: int| 0 <= t < i ==> !marks@[t],
        decreases n - i,
    {
        if marks[i] {
            return false;
        }
        i += 1;
    }
    true
}

/// Whether a state labelled `t` may be entered at position `pos` without
/// reading anything.
fn passable(t: TokenType, pos: usize, strlen: usize) -> (b: bool)
    ensures
        b == eps_ok(t, pos as int, strlen as int),
{
    match t {
        TokenType::Empty => true,
        TokenType::Hat => pos == 0,
        TokenType::Dollar => pos == strlen,
        _ => false,
    }
}

/// Whether a state labelled `t` may be entered by reading `ch`.
fn reads(t: TokenType, ch: char) -> (b: bool)
    ensures
        b == consumes(t, ch),
{
    match t {
        TokenType::Character(c) => c == ch,
        TokenType::Dot => true,
        _ => false,
    }
}

/// `e` as a mathematical integer, if there is one.
pub open spec fn end_view(e: Option<usize>) -> Option<int> {
    match e {
        Some(e) => Some(e as int),
        None => None,
    }
}

impl RARE {
    #[verifier::type_invariant]
    spec fn inv(&self) -> bool {
        self.nfa@.wf()
    }

    /// Wraps a well-formed automaton into an engine.
    pub fn from_nfa(nfa: Nfa) -> (r: RARE)
        requires
            nfa@.wf(),
        ensures
            r@ == nfa@,
            r@.wf(),
    {
        RARE { nfa }
    }

    /// Compiles `regex` into an engine, or says what is wrong with it.  The
    /// engine accepts a piece of a text exactly if the expression of the
    /// pattern admits it.
    pub fn new(regex: &str) -> (r: Result<RARE, SyntaxError>)
        ensures
            match spec_compile(regex@) {
                Ok(n) => r is Ok && r->Ok_0@ == n && n.wf() && n.states[0].token.token_type is Empty
                    && n.states.len() <= 6 * regex@.len() + 1,
                Err(e) => r == Err::<RARE, SyntaxError>(e),
            },
            r is Ok ==> pattern_expr(regex@) is Some && means_expr(r->Ok_0@, pattern_expr(regex@)->0),
            r is Ok ==> forall|text: Seq<char>, i: int, j: int| #[trigger]
                r->Ok_0@.accepts(text, i, j) <==> expr_admits(pattern_expr(regex@)->0, text, i, j),
    {
        proof {
            law_compile_outcome(regex@);
            law_state_bound(regex@);
            assert forall|text: Seq<char>, i: int, j: int|
                spec_compile(regex@) is Ok implies (#[trigger] spec_compile(regex@)->Ok_0.accepts(
                    text,
                    i,
                    j,
                ) <==> expr_admits(pattern_expr(regex@)->0, text, i, j)) by {
                law_compile_means(regex@, text, i, j);
            }
            law_compile_means(regex@, Seq::empty(), 0, 0);
        }
        let mut parser = match Parser::new(regex) {
            Err(e) => {
                return Err(e);
            },
            Ok(p) => p,
        };
        match parser.parse() {
            Err(e) => Err(e),
            Ok(engine) => {
                proof {
                    use_type_invariant(&engine);
                }
                Ok(engine)
            },
        }
    }

    /// Whether some piece of `string` is accepted.  A match may begin at any
    /// position: the entry of the automaton is active at every one.  This is
    /// the case exactly if [`RARE::match_all`] finds a match.
    pub fn is_match(&self, string: &str) -> (b: bool)
        ensures
            b == self@.is_match(string@),
            b == (self@.all_matches(string@).len() > 0),
    {
        proof {
            use_type_invariant(self);
            law_is_match_iff_some_match(self@, string@);
        }
        let text = to_chars(string);
        let strlen: usize = text.len();
        let n: usize = self.nfa.states.len();
        let end: usize = self.nfa.end;
        let mut str_data = position(&text, 0);
        let mut state_data = CurrStatesData {
            curr_states: no_states(n),
            next_states: no_states(n),
            unanchored: true,
        };
        self.enter(&mut state_data, &str_data);
        proof {
            assert forall|t: int| 0 <= t < n implies (state_data.curr_states@[t]
                <==> self@.active_anywhere(text@, t, 0)) by {
                if state_data.curr_states@[t] {
                    assert(self@.reaches(text@, 0, t, 0));
                }
                if self@.active_anywhere(text@, t, 0) {
                    let i = choose|i: int| self@.reaches(text@, i, t, 0);
                    self@.lemma_reaches_range(text@, i, t, 0);
                }
            }
        }
        if state_data.curr_states[end] {
            proof {
                let i = choose|i: int| self@.reaches(text@, i, end as int, 0);
                assert(self@.accepts(text@, i, 0));
            }
            return true;
        }
        while str_data.curr_pos < strlen
            invariant
                self@.wf(),
                n == self@.states.len(),
                end == self@.end,
                strlen == text@.len(),
                text@ == string@,
                self@.is_match(string@) <==> self@.all_matches(string@).len() > 0,
                str_data.at(text@),
                state_data.wf(n as nat),
                state_data.unanchored,
                forall|t: int|
                    0 <= t < n ==> (state_data.curr_states@[t] <==> self@.active_anywhere(
                        text@,
                        t,
                        str_data.curr_pos as int,
                    )),
                forall|j: int|
                    0 <= j <= str_data.curr_pos ==> !self@.active_anywhere(text@, end as int, j),
            decreases strlen - str_data.curr_pos,
        {
            let ghost pos = str_data.curr_pos as int;
            let ghost marks = state_data.curr_states@;
            let matched = self.step_once(&mut state_data, &str_data);
            proof {
                assert forall|t: int| 0 <= t < n implies (state_data.curr_states@[t]
                    <==> self@.active_anywhere(text@, t, pos + 1)) by {
                    self@.lemma_step_anywhere(text@, marks, pos, t);
                }
            }
            str_data = position(&text, str_data.curr_pos + 1);
            if matched {
                proof {
                    let q = pos + 1;
                    let i = choose|i: int| self@.reaches(text@, i, end as int, q);
                    assert(self@.accepts(text@, i, q));
                }
                return true;
            }
        }
        proof {
            assert forall|i: int, j: int| !self@.accepts(text@, i, j) by {
                if self@.accepts(text@, i, j) {
                    self@.lemma_reaches_range(text@, i, end as int, j);
                    assert(self@.active_anywhere(text@, end as int, j));
                }
            }
        }
        false
    }

    /// All matches in `string`, from left to right, or `None` if there is
    /// none.  At every position the search takes the longest accepted piece
    /// that begins there and goes on behind it, so the ranges do not overlap.
    /// An accepted piece may be empty; the search then goes on one position
    /// further.
    pub fn match_all(&self, string: &str) -> (r: Option<Vec<(usize, usize)>>)
        ensures
            match r {
                Some(v) => v@.len() > 0 && ranges_view(v@) == self@.all_matches(string@),
                None => self@.all_matches(string@).len() == 0,
            },
            (r is Some) == self@.is_match(string@),
            r matches Some(v) ==> v@.len() == self@.all_matches(string@).len(),
            ordered_ranges(self@.all_matches(string@), 0, string@.len() as int),
    {
        proof {
            law_is_match_iff_some_match(self@, string@);
            law_matches_are_ordered(self@, string@);
        }
        let mut ret_vec: Vec<(usize, usize)> = Vec::new();
        self.write_match_all(string, &mut ret_vec);
        if ret_vec.len() == 0 {
            None
        } else {
            Some(ret_vec)
        }
    }

    /// Appends all matches in `string` to `ret_vec`: see [`RARE::match_all`].
    pub fn write_match_all(&self, string: &str, ret_vec: &mut Vec<(usize, usize)>)
        ensures
            ranges_view(final(ret_vec)@) == ranges_view(old(ret_vec)@) + self@.all_matches(string@),
            final(ret_vec)@.len() == old(ret_vec)@.len() + self@.all_matches(string@).len(),
    {
        proof {
            use_type_invariant(self);
        }
        let text = to_chars(string);
        let strlen: usize = text.len();
        let mut cursor: usize = 0;
        let mut done: bool = false;
        let ghost target = ranges_view(old(ret_vec)@) + self@.all_matches(string@);
        while !done
            invariant
                self@.wf(),
                strlen == text@.len(),
                text@ == string@,
                cursor <= strlen,
                target == ranges_view(old(ret_vec)@) + self@.all_matches(string@),
                !done ==> ranges_view(ret_vec@) + self@.matches_from(text@, cursor as int) == target,
                done ==> ranges_view(ret_vec@) == target,
            decreases strlen - cursor + (if done { 0int } else { 1int }),
        {
            let longest = self.longest_match_at(&text, cursor);
            proof {
                // what is found from `cursor` on: the match at `cursor`, if there
                // is one, and what is found from the next cursor on
                let rest = self@.matches_from(text@, self@.next_cursor(text@, cursor as int));
                assert(self@.matches_from(text@, cursor as int) == match end_view(longest) {
                    Some(e) => seq![(cursor as int, e)] + rest,
                    None => rest,
                });
            }
            let mut next: usize = cursor;
            match longest {
                Some(e) => {
                    ret_vec.push((cursor, e));
                    if e > cursor {
                        next = e;
                    }
                },
                None => {},
            }
            if next > cursor {
                cursor = next;
            } else if cursor < strlen {
                cursor += 1;
            } else {
                done = true;
            }
        }
    }

    /// Appends to `ret_vec` the matches in `text` that begin before `stop`.
    pub(crate) fn write_matches_before(&self, text: &Vec<char>, stop: usize, ret_vec: &mut Vec<(usize, usize)>)
        requires
            stop <= text@.len(),
        ensures
            ranges_view(final(ret_vec)@) == ranges_view(old(ret_vec)@) + self@.matches_before(
                text@,
                0,
                stop as int,
            ),
            final(ret_vec)@.len() == old(ret_vec)@.len() + self@.matches_before(
                text@,
                0,
                stop as int,
            ).len(),
    {
        let mut cursor: usize = 0;
        let ghost target = ranges_view(old(ret_vec)@) + self@.matches_before(text@, 0, stop as int);
        while cursor < stop
            invariant
                stop <= text@.len(),
                cursor <= text@.len(),
                target == ranges_view(old(ret_vec)@) + self@.matches_before(text@, 0, stop as int),
                ranges_view(ret_vec@) + self@.matches_before(text@, cursor as int, stop as int) == target,
            decreases text@.len() - cursor,
        {
            let longest = self.longest_match_at(text, cursor);
            let mut next: usize = cursor + 1;
            match longest {
                Some(e) => {
                    ret_vec.push((cursor, e));
                    if e > cursor {
                        next = e;
                    }
                },
                None => {},
            }
            cursor = next;
        }
    }

    /// The end of the longest accepted piece of `text` that begins at `start`.
    pub(crate) fn longest_match_at(&self, text: &Vec<char>, start: usize) -> (r: Option<usize>)
        requires
            start <= text@.len(),
        ensures
            end_view(r) == self@.longest_match(text@, start as int),
            r matches Some(e) ==> start <= e <= text@.len(),
    {
        proof {
            use_type_invariant(self);
        }
        let strlen: usize = text.len();
        let n: usize = self.nfa.states.len();
        let end: usize = self.nfa.end;
        let mut str_data = position(text, start);
        let mut state_data = CurrStatesData {
            curr_states: no_states(n),
            next_states: no_states(n),
            unanchored: false,
        };
        self.enter(&mut state_data, &str_data);
        let mut last: Option<usize> = if state_data.curr_states[end] {
            Some(start)
        } else {
            None
        };
        proof {
            assert(self@.longest_end(text@, start as int, start as int - 1) is None);
        }
        let mut alive: bool = !none_marked(&state_data.curr_states);
        while str_data.curr_pos < strlen && alive
            invariant
                alive == !(forall|t: int| 0 <= t < n ==> !state_data.curr_states@[t]),
                self@.wf(),
                n == self@.states.len(),
                end == self@.end,
                strlen == text@.len(),
                start <= str_data.curr_pos,
                str_data.at(text@),
                state_data.wf(n as nat),
                !state_data.unanchored,
                forall|t: int|
                    0 <= t < n ==> (state_data.curr_states@[t] <==> self@.reaches(
                        text@,
                        start as int,
                        t,
                        str_data.curr_pos as int,
                    )),
                end_view(last) == self@.longest_end(text@, start as int, str_data.curr_pos as int),
                last matches Some(e) ==> start <= e <= str_data.curr_pos,
            decreases strlen - str_data.curr_pos,
        {
            let ghost pos = str_data.curr_pos as int;
            let ghost marks = state_data.curr_states@;
            let matched = self.step_once(&mut state_data, &str_data);
            proof {
                assert forall|t: int| 0 <= t < n implies (state_data.curr_states@[t] <==> self@.reaches(
                    text@,
                    start as int,
                    t,
                    pos + 1,
                )) by {
                    self@.lemma_step_anchored(text@, marks, start as int, pos, t);
                }
            }
            str_data = position(text, str_data.curr_pos + 1);
            if matched {
                last = Some(str_data.curr_pos);
            }
            alive = !none_marked(&state_data.curr_states);
        }
        proof {
            if str_data.curr_pos < strlen {
                assert forall|t: int| !self@.reaches(text@, start as int, t, str_data.curr_pos as int) by {
                    if self@.reaches(text@, start as int, t, str_data.curr_pos as int) {
                        self@.lemma_reaches_range(text@, start as int, t, str_data.curr_pos as int);
                        assert(state_data.curr_states@[t]);
                    }
                }
                self@.lemma_longest_end_dead(
                    text@,
                    start as int,
                    str_data.curr_pos as int,
                    strlen as int,
                );
            }
        }
        last
    }

    /// Makes the current set the set of states that a run is in when it
    /// begins at the current position.
    fn enter(&self, state_data: &mut CurrStatesData, str_data: &StringIterData)
        requires
            old(state_data).wf(self@.states.len()),
        ensures
            final(state_data).wf(self@.states.len()),
            final(state_data).unanchored == old(state_data).unanchored,
            forall|t: int|
                0 <= t < self@.states.len() ==> (final(state_data).curr_states@[t] <==> self@.eps_reaches(
                    0,
                    t,
                    str_data.curr_pos as int,
                    str_data.strlen as int,
                )),
    {
        proof {
            use_type_invariant(self);
        }
        clear_states(&mut state_data.curr_states);
        state_data.curr_states[0] = true;
        self.skip_empty(&mut state_data.curr_states, str_data.curr_pos, str_data.strlen);
    }

    /// Moves the simulation one step on: reads the current code point and
    /// makes the current set the set of states that are active behind it.
    /// Returns whether the accepting state is among them.  At the end of the
    /// text nothing can be read, and no state stays active.
    fn step_once(&self, state_data: &mut CurrStatesData, str_data: &StringIterData) -> (matched: bool)
        requires
            old(state_data).wf(self@.states.len()),
            str_data.curr_char is Some ==> str_data.curr_pos < str_data.strlen,
        ensures
            final(state_data).wf(self@.states.len()),
            final(state_data).unanchored == old(state_data).unanchored,
            matched == final(state_data).curr_states@[self@.end],
            match str_data.curr_char {
                Some(c) => forall|t: int|
                    0 <= t < self@.states.len() ==> (final(state_data).curr_states@[t] <==> self@.step_has(
                        old(state_data).curr_states@,
                        old(state_data).unanchored,
                        c,
                        t,
                        str_data.curr_pos + 1,
                        str_data.strlen as int,
                    )),
                None => forall|t: int| 0 <= t < self@.states.len() ==> !final(state_data).curr_states@[t],
            },
    {
        proof {
            use_type_invariant(self);
        }
        let n: usize = self.nfa.states.len();
        let ghost marks = state_data.curr_states@;
        match str_data.curr_char {
            None => {
                clear_states(&mut state_data.curr_states);
            },
            Some(ch) => {
                // ascending order of state index
                let mut curr_ref: usize = 0;
                while curr_ref < n
                    invariant
                        curr_ref <= n,
                        n == self@.states.len(),
                        state_data.curr_states@ == marks,
                        marks.len() == n,
                        state_data.next_states@.len() == n,
                        state_data.unanchored == old(state_data).unanchored,
                        forall|s: int|
                            0 <= s < n ==> (state_data.next_states@[s] <==> exists|u: int|
                                0 <= u < curr_ref && marks[u] && #[trigger] self@.char_step(u, s, ch)),
                    decreases n - curr_ref,
                {
                    if state_data.curr_states[curr_ref] {
                        self.get_next_of(curr_ref, ch, &mut state_data.next_states);
                    }
                    curr_ref += 1;
                }
                if state_data.unanchored {
                    state_data.next_states[0] = true;
                }
                self.skip_empty(&mut state_data.next_states, str_data.curr_pos + 1, str_data.strlen);
                core::mem::swap(&mut state_data.curr_states, &mut state_data.next_states);
                clear_states(&mut state_data.next_states);
            },
        }
        state_data.curr_states[self.nfa.end]
    }

    /// Adds to `next` the states that are entered from `state_ref` by reading
    /// `ch`.
    fn get_next_of(&self, state_ref: usize, ch: char, next: &mut Vec<bool>)
        requires
            state_ref < self@.states.len(),
            old(next)@.len() == self@.states.len(),
        ensures
            final(next)@.len() == old(next)@.len(),
            forall|t: int|
                0 <= t < old(next)@.len() ==> (final(next)@[t] <==> (old(next)@[t] || self@.char_step(
                    state_ref as int,
                    t,
                    ch,
                ))),
    {
        proof {
            use_type_invariant(self);
        }
        let n_edges: usize = self.nfa.states[state_ref].edges.len();
        let ghost edges = self@.states[state_ref as int].edges;
        let mut k: usize = 0;
        while k < n_edges
            invariant
                k <= n_edges,
                self@.wf(),
                state_ref < self@.states.len(),
                edges == self@.states[state_ref as int].edges,
                n_edges == edges.len(),
                next@.len() == old(next)@.len(),
                next@.len() == self@.states.len(),
                forall|t: int|
                    0 <= t < next@.len() ==> (next@[t] <==> (old(next)@[t] || (exists|j: int|
                        0 <= j < k && #[trigger] edges[j] == t) && consumes(
                        self@.states[t].token.token_type,
                        ch,
                    ))),
            decreases n_edges - k,
        {
            let next_ref: usize = self.nfa.states[state_ref].edges[k];
            assert(edges[k as int] == next_ref);
            if reads(self.nfa.states[next_ref].token.token_type, ch) {
                next[next_ref] = true;
            }
            k += 1;
        }
    }

    /// Adds to `marks` every state that can be reached from a marked state at
    /// position `pos` without reading anything.
    fn skip_empty(&self, marks: &mut Vec<bool>, pos: usize, strlen: usize)
        requires
            old(marks)@.len() == self@.states.len(),
        ensures
            final(marks)@.len() == old(marks)@.len(),
            forall|t: int|
                0 <= t < old(marks)@.len() ==> (final(marks)@[t] <==> self@.closure_has(
                    old(marks)@,
                    t,
                    pos as int,
                    strlen as int,
                )),
    {
        proof {
            use_type_invariant(self);
        }
        let n: usize = self.nfa.states.len();
        let ghost init = marks@;
        let ghost p = pos as int;
        let ghost len = strlen as int;
        // the marked states whose edges have not been looked at yet
        let mut skip_set: Vec<usize> = Vec::new();
        let mut s: usize = 0;
        while s < n
            invariant
                s <= n,
                n == marks@.len(),
                marks@ == init,
                forall|i: int| 0 <= i < skip_set@.len() ==> skip_set@[i] < n && marks@[skip_set@[i] as int],
                forall|u: int| 0 <= u < s && marks@[u] ==> skip_set@.contains(u as usize),
            decreases n - s,
        {
            if marks[s] {
                let ghost before = skip_set@;
                skip_set.push(s);
                assert(skip_set@[before.len() as int] == s);
                assert forall|u: int| 0 <= u < s && marks@[u] implies skip_set@.contains(u as usize) by {
                    let i = choose|i: int| 0 <= i < before.len() && before[i] == u as usize;
                    assert(skip_set@[i] == u as usize);
                }
            }
            s += 1;
        }
        proof {
            assert forall|t: int| 0 <= t < n && marks@[t] implies self@.closure_has(init, t, p, len) by {
                self@.lemma_eps_refl(t, p, len);
            }
        }
        while skip_set.len() > 0
            invariant
                self@.wf(),
                n == self@.states.len(),
                n == marks@.len(),
                n == init.len(),
                p == pos as int,
                len == strlen as int,
                forall|i: int| 0 <= i < skip_set@.len() ==> skip_set@[i] < n && marks@[skip_set@[i] as int],
                forall|u: int| 0 <= u < n && init[u] ==> marks@[u],
                forall|t: int| 0 <= t < n && marks@[t] ==> self@.closure_has(init, t, p, len),
                forall|u: int, t: int|
                    0 <= u < n && marks@[u] && #[trigger] self@.eps_step(u, t, p, len) && !marks@[t]
                        ==> skip_set@.contains(u as usize),
            decreases unmarked(marks@), skip_set@.len(),
        {
            let ghost work_before = skip_set@;
            let ghost marks_before = marks@;
            let skip_ref: usize = skip_set.pop().unwrap();
            let ghost work_popped = skip_set@;
            let n_edges: usize = self.nfa.states[skip_ref].edges.len();
            let ghost edges = self@.states[skip_ref as int].edges;
            let mut k: usize = 0;
            proof {
                assert forall|u: int, t: int|
                    0 <= u < n && u != skip_ref && marks@[u] && #[trigger] self@.eps_step(u, t, p, len)
                        && !marks@[t] implies skip_set@.contains(u as usize) by {
                    let i = choose|i: int| 0 <= i < work_before.len() && work_before[i] == u as usize;
                    assert(skip_set@[i] == u as usize);
                }
            }
            while k < n_edges
                invariant
                    k <= n_edges,
                    self@.wf(),
                    n == self@.states.len(),
                    n == marks@.len(),
                    n == init.len(),
                    n == marks_before.len(),
                    p == pos as int,
                    len == strlen as int,
                    skip_ref < n,
                    marks@[skip_ref as int],
                    edges == self@.states[skip_ref as int].edges,
                    n_edges == edges.len(),
                    work_popped.len() + 1 == work_before.len(),
                    skip_set@.len() >= work_popped.len(),
                    forall|i: int| 0 <= i < work_popped.len() ==> skip_set@[i] == work_popped[i],
                    forall|i: int|
                        0 <= i < skip_set@.len() ==> skip_set@[i] < n && marks@[skip_set@[i] as int],
                    forall|u: int| 0 <= u < n && marks_before[u] ==> marks@[u],
                    forall|u: int| 0 <= u < n && init[u] ==> marks@[u],
                    forall|t: int| 0 <= t < n && marks@[t] ==> self@.closure_has(init, t, p, len),
                    forall|j: int|
                        0 <= j < k && eps_ok(
                            self@.states[#[trigger] edges[j]].token.token_type,
                            p,
                            len,
                        ) ==> marks@[edges[j]],
                    forall|u: int, t: int|
                        0 <= u < n && u != skip_ref && marks@[u] && #[trigger] self@.eps_step(u, t, p, len)
                            && !marks@[t] ==> skip_set@.contains(u as usize),
                    unmarked(marks@) <= unmarked(marks_before),
                    skip_set@.len() > work_popped.len() ==> unmarked(marks@) < unmarked(marks_before),
                decreases n_edges - k,
            {
                let next_ref: usize = self.nfa.states[skip_ref].edges[k];
                assert(edges[k as int] == next_ref);
                if !marks[next_ref] && passable(self.nfa.states[next_ref].token.token_type, pos, strlen) {
                    let ghost marks_prev = marks@;
                    let ghost work_prev = skip_set@;
                    marks[next_ref] = true;
                    skip_set.push(next_ref);
                    proof {
                        lemma_unmarked_update(marks_prev, next_ref as int);
                        let s0 = choose|s0: int|
                            0 <= s0 < init.len() && init[s0] && #[trigger] self@.eps_reaches(
                                s0,
                                skip_ref as int,
                                p,
                                len,
                            );
                        self@.lemma_eps_extend(s0, skip_ref as int, next_ref as int, p, len);
                        assert(skip_set@[work_prev.len() as int] == next_ref);
                        assert forall|u: int, t: int|
                            0 <= u < n && u != skip_ref && marks@[u] && #[trigger] self@.eps_step(
                                u,
                                t,
                                p,
                                len,
                            ) && !marks@[t] implies skip_set@.contains(u as usize) by {
                            if u != next_ref {
                                let i = choose|i: int| 0 <= i < work_prev.len() && work_prev[i] == u as usize;
                                assert(skip_set@[i] == u as usize);
                            }
                        }
                    }
                }
                k += 1;
            }
        }
        proof {
            assert forall|t: int| 0 <= t < n && self@.closure_has(init, t, p, len) implies marks@[t] by {
                let s0 = choose|s0: int|
                    0 <= s0 < init.len() && init[s0] && #[trigger] self@.eps_reaches(s0, t, p, len);
                let k = choose|k: nat| self@.eps_path(s0, t, p, len, k);
                self@.lemma_closed_holds(marks@, s0, t, p, len, k);
            }
        }
    }
}

} // verus!
