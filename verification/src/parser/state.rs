//! One state of an automaton.
use vstd::prelude::*;
use crate::lexer::token_type::Token;

verus! {

/// A state as a mathematical value: its token and the indices of the states
/// its edges lead to, in the order the edges were added.
pub struct StateView {
    pub token: Token,
    pub edges: Seq<int>,
}

/// A state of an automaton.
///
/// The label sits on the state, not on the edge: whether an edge may be
/// followed, and whether following it reads a code point, is decided by the
/// token of the state the edge leads to.
pub struct State {
    pub token: Token,
    pub edges: Vec<usize>,
}

impl View for State {
    type V = StateView;

    open spec fn view(&self) -> StateView {
        StateView { token: self.token, edges: self.edges@.map_values(|e: usize| e as int) }
    }
}

impl State {
    /// A state labelled `token`, without edges.
    #[inline]
    pub fn new(token: Token) -> (s: State)
        ensures
            s@ == (StateView { token, edges: Seq::empty() }),
    {
        let s = State { token, edges: Vec::new() };
        assert(s@.edges =~= Seq::<int>::empty());
        s
    }

    /// Adds an edge to the state at `index`.
    #[inline]
    pub fn add_edge(&mut self, index: usize)
        ensures
            final(self)@ == (StateView {
                token: old(self)@.token,
                edges: old(self)@.edges.push(index as int),
            }),
    {
        self.edges.push(index);
        assert(self@.edges =~= old(self)@.edges.push(index as int));
    }
}

} // verus!
