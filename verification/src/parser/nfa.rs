//! Automata and how two of them are joined.
use vstd::prelude::*;
use crate::laws::{lemma_atom_means, lemma_link_means, lemma_merge_means};
use crate::lexer::token_type::{Token, TokenType};
use crate::semantics::{means_concat, means_token};
use crate::parser::state::{State, StateView};

verus! {

/// An automaton as a mathematical value.
pub struct NfaView {
    pub states: Seq<StateView>,
    pub end: int,
}

/// `edges` with every index moved up by `off`.
pub open spec fn shift(edges: Seq<int>, off: int) -> Seq<int> {
    edges.map_values(|e: int| e + off)
}

/// The automaton with the single state `token`, which is both its entry and
/// its accepting state.
pub open spec fn single(token: Token) -> NfaView {
    NfaView { states: seq![StateView { token, edges: Seq::empty() }], end: 0 }
}

impl NfaView {
    /// Well-formedness: there is at least one state (state 0 is the entry),
    /// `end` is the index of a state, and every edge leads to a state of this
    /// automaton.
    pub open spec fn wf(self) -> bool {
        &&& 0 <= self.end < self.states.len()
        &&& forall|s: int, k: int|
            0 <= s < self.states.len() && 0 <= k < self.states[s].edges.len() ==> 0 <= (
            #[trigger] self.states[s].edges[k]) < self.states.len()
    }

    /// Well-formed, and the accepting state is the last one.
    pub open spec fn tidy(self) -> bool {
        self.wf() && self.end == self.states.len() - 1
    }

    /// Tidy, and no edge leaves the accepting state.
    pub open spec fn neat(self) -> bool {
        self.tidy() && self.states[self.end].edges.len() == 0
    }

    /// Whether merging `other` behind `self` fuses `other`'s entry with
    /// `self`'s accepting state: both are labelled `Empty`.
    pub open spec fn fuses_with(self, other: NfaView) -> bool {
        self.states[self.end].token.token_type is Empty && other.states[0].token.token_type is Empty
    }
}

/// `b` linked behind `a`, every state of both kept.
///
/// The states of `a` keep their indices.  The states of `b` follow them, with
/// their edges moved up by the number of states of `a`.  The accepting state
/// of `a` gets one more edge, to the entry of `b`.  The last state becomes the
/// accepting state.
pub open spec fn spec_link(a: NfaView, b: NfaView) -> NfaView {
    let off = a.states.len() as int;
    let tail = a.states[a.end];
    let linked = StateView { token: tail.token, edges: tail.edges.push(off) };
    let moved = Seq::new(
        b.states.len(),
        |j: int| StateView { token: b.states[j].token, edges: shift(b.states[j].edges, off) },
    );
    NfaView {
        states: a.states.update(a.end, linked) + moved,
        end: a.states.len() + b.states.len() - 1,
    }
}

/// `b` merged behind `a`.
///
/// If the accepting state of `a` and the entry of `b` are both labelled
/// `Empty`, the two are fused: the entry of `b` is left out, its edges are
/// added to the accepting state of `a`, and the other states of `b` follow
/// the states of `a` with their edges moved up by one less than the number of
/// states of `a`.  Otherwise `b` is linked behind `a` as [`spec_link`] says.
/// Either way the states of `a` keep their indices, and the last state
/// becomes the accepting state.
pub open spec fn spec_merge(a: NfaView, b: NfaView) -> NfaView {
    if a.fuses_with(b) {
        let off = a.states.len() - 1;
        let tail = a.states[a.end];
        let fused = StateView {
            token: tail.token,
            edges: tail.edges + shift(b.states[0].edges, off),
        };
        let moved = Seq::new(
            (b.states.len() - 1) as nat,
            |j: int|
                StateView { token: b.states[j + 1].token, edges: shift(b.states[j + 1].edges, off) },
        );
        NfaView {
            states: a.states.update(a.end, fused) + moved,
            end: a.states.len() + b.states.len() - 2,
        }
    } else {
        spec_link(a, b)
    }
}

/// A nondeterministic finite automaton.
///
/// State 0 is the entry, `end` is the accepting state.  Once a state has an
/// index, the index never changes: automata grow only at the end.
pub struct Nfa {
    pub states: Vec<State>,
    pub end: usize,
}

impl View for Nfa {
    type V = NfaView;

    open spec fn view(&self) -> NfaView {
        NfaView { states: self.states@.map_values(|s: State| s@), end: self.end as int }
    }
}

/// Moves every index in `edges` up by `off`.
fn shift_edges(edges: &mut Vec<usize>, off: usize)
    requires
        forall|k: int| 0 <= k < old(edges)@.len() ==> old(edges)@[k] + off <= usize::MAX,
    ensures
        final(edges)@.len() == old(edges)@.len(),
        forall|k: int| 0 <= k < old(edges)@.len() ==> final(edges)@[k] == old(edges)@[k] + off,
{
    let n: usize = edges.len();
    let mut k: usize = 0;
    while k < n
        invariant
            k <= n,
            n == edges@.len(),
            n == old(edges)@.len(),
            forall|j: int| 0 <= j < k ==> edges@[j] == old(edges)@[j] + off,
            forall|j: int| k <= j < n ==> edges@[j] == old(edges)@[j],
            forall|j: int| 0 <= j < n ==> old(edges)@[j] + off <= usize::MAX,
        decreases n - k,
    {
        let e: usize = edges[k];
        edges[k] = e + off;
        k += 1;
    }
}

impl Nfa {
    /// The automaton with the single state `first_input`.  It admits what
    /// its token says.
    pub fn new(first_input: Token) -> (n: Nfa)
        ensures
            n@ == single(first_input),
            n@.tidy(),
            means_token(n@, first_input.token_type),
    {
        proof {
            lemma_atom_means(first_input);
        }
        let mut states: Vec<State> = Vec::new();
        states.push(State::new(first_input));
        let n = Nfa { states, end: 0 };
        assert(n@.states =~= single(first_input).states);
        n
    }

    /// Appends `state` and makes it the accepting state.  This assumes that
    /// the accepting state was the last one.
    pub fn add_state(&mut self, state: State)
        requires
            old(self)@.end < old(self)@.states.len(),
        ensures
            final(self)@ == (NfaView {
                states: old(self)@.states.push(state@),
                end: old(self)@.end + 1,
            }),
    {
        self.states.push(state);
        proof {
            vstd::std_specs::vec::axiom_spec_len(&self.states);
        }
        self.end += 1;
        assert(self@.states =~= old(self)@.states.push(state@));
    }

    /// Merges `another` behind this automaton, fusing the accepting state
    /// with the entry of `another` if both are `Empty`: see [`spec_merge`].
    ///
    /// If both automata are well-formed and `another` has its accepting state
    /// last, and if, where the two states are fused, this automaton has its
    /// accepting state last and no edge leaves it, the result admits a piece
    /// of text exactly if the piece splits into one that this automaton
    /// admitted and one that `another` admits.
    pub fn merge(&mut self, another: Nfa)
        requires
            0 <= old(self)@.end < old(self)@.states.len(),
            another@.wf(),
        ensures
            final(self)@ == spec_merge(old(self)@, another@),
            old(self)@.wf() && another@.tidy() && (old(self)@.fuses_with(another@) ==> old(
                self,
            )@.neat()) ==> final(self)@.tidy() && means_concat(final(self)@, old(self)@, another@),
    {
        proof {
            if self@.wf() && another@.tidy() && (self@.fuses_with(another@) ==> self@.neat()) {
                lemma_merge_means(self@, another@);
            }
        }
        let fuse: bool = is_empty_kind(self.states[self.end].token.token_type) && is_empty_kind(
            another.states[0].token.token_type,
        );
        if !fuse {
            self.link(another);
            return;
        }
        let ghost a = self@;
        let ghost b = another@;
        let old_len: usize = self.states.len();
        let mut other_states: Vec<State> = another.states;
        let head = other_states.remove(0);
        let head_edges: Vec<usize> = head.edges;
        self.states.append(&mut other_states);
        let new_len: usize = self.states.len();
        let off: usize = old_len - 1;
        let mut i: usize = old_len;
        while i < new_len
            invariant
                old_len <= i <= new_len,
                new_len == self.states@.len(),
                new_len == old_len + b.states.len() - 1,
                old_len == a.states.len(),
                off == old_len - 1,
                b.wf(),
                self.end == a.end,
                forall|j: int| 0 <= j < old_len ==> (#[trigger] self.states@[j])@ == a.states[j],
                forall|j: int|
                    old_len <= j < i ==> (#[trigger] self.states@[j])@ == (StateView {
                        token: b.states[j - old_len + 1].token,
                        edges: shift(b.states[j - old_len + 1].edges, off as int),
                    }),
                forall|j: int|
                    i <= j < new_len ==> (#[trigger] self.states@[j])@ == b.states[j - old_len + 1],
            decreases new_len - i,
        {
            let ghost before = self.states@;
            let ghost src = b.states[i - old_len + 1];
            assert forall|k: int| 0 <= k < before[i as int].edges@.len() implies before[i as int].edges@[k]
                + off <= usize::MAX by {
                assert(src.edges[k] == before[i as int].edges@[k] as int);
            }
            shift_edges(&mut self.states[i].edges, off);
            assert(self.states@[i as int]@.edges =~= shift(src.edges, off as int));
            i += 1;
        }
        let n_head: usize = head_edges.len();
        let mut k: usize = 0;
        let ghost tail_before = a.states[a.end];
        while k < n_head
            invariant
                k <= n_head,
                n_head == head_edges@.len(),
                new_len == self.states@.len(),
                new_len == old_len + b.states.len() - 1,
                old_len == a.states.len(),
                off == old_len - 1,
                b.wf(),
                0 <= a.end < a.states.len(),
                self.end == a.end,
                tail_before == a.states[a.end],
                head_edges@.map_values(|e: usize| e as int) == b.states[0].edges,
                forall|j: int|
                    0 <= j < old_len && j != a.end ==> (#[trigger] self.states@[j])@ == a.states[j],
                forall|j: int|
                    old_len <= j < new_len ==> (#[trigger] self.states@[j])@ == (StateView {
                        token: b.states[j - old_len + 1].token,
                        edges: shift(b.states[j - old_len + 1].edges, off as int),
                    }),
                self.states@[a.end]@.token == tail_before.token,
                self.states@[a.end]@.edges == tail_before.edges + shift(
                    b.states[0].edges.take(k as int),
                    off as int,
                ),
            decreases n_head - k,
        {
            let e: usize = head_edges[k];
            assert(b.states[0].edges[k as int] == e as int);
            self.states[self.end].add_edge(e + off);
            k += 1;
        }
        assert(b.states[0].edges.take(n_head as int) =~= b.states[0].edges);
        self.end = new_len - 1;
        proof {
            let want = spec_merge(a, b);
            assert forall|j: int| 0 <= j < new_len implies self@.states[j] == want.states[j] by {}
            assert(self@.states =~= want.states);
        }
    }

    /// Links `another` behind this automaton, every state of both kept: see
    /// [`spec_link`].  If both are well-formed and `another` has its accepting
    /// state last, the result admits a piece of text exactly if the piece
    /// splits into one that this automaton admitted and one that `another`
    /// admits.
    pub fn link(&mut self, another: Nfa)
        requires
            0 <= old(self)@.end < old(self)@.states.len(),
            another@.wf(),
        ensures
            final(self)@ == spec_link(old(self)@, another@),
            old(self)@.wf() && another@.tidy() ==> final(self)@.tidy() && means_concat(
                final(self)@,
                old(self)@,
                another@,
            ),
    {
        proof {
            if self@.wf() && another@.tidy() {
                lemma_link_means(self@, another@);
                crate::parser::lemma_link_wf(self@, another@);
            }
        }
        let ghost a = self@;
        let ghost b = another@;
        let old_len: usize = self.states.len();
        let mut other_states: Vec<State> = another.states;
        self.states.append(&mut other_states);
        let new_len: usize = self.states.len();
        let mut i: usize = old_len;
        while i < new_len
            invariant
                old_len <= i <= new_len,
                new_len == self.states@.len(),
                new_len == old_len + b.states.len(),
                old_len == a.states.len(),
                b.wf(),
                self.end == a.end,
                forall|j: int| 0 <= j < old_len ==> (#[trigger] self.states@[j])@ == a.states[j],
                forall|j: int|
                    old_len <= j < i ==> (#[trigger] self.states@[j])@ == (StateView {
                        token: b.states[j - old_len].token,
                        edges: shift(b.states[j - old_len].edges, old_len as int),
                    }),
                forall|j: int| i <= j < new_len ==> (#[trigger] self.states@[j])@ == b.states[j - old_len],
            decreases new_len - i,
        {
            let ghost before = self.states@;
            let ghost src = b.states[i - old_len];
            assert forall|k: int| 0 <= k < before[i as int].edges@.len() implies before[i as int].edges@[k]
                + old_len <= usize::MAX by {
                assert(src.edges[k] == before[i as int].edges@[k] as int);
            }
            shift_edges(&mut self.states[i].edges, old_len);
            assert(self.states@[i as int]@.edges =~= shift(src.edges, old_len as int));
            i += 1;
        }
        self.states[self.end].add_edge(old_len);
        self.end = new_len - 1;
        proof {
            let want = spec_link(a, b);
            assert(self@.states =~= want.states);
        }
    }

    /// The state at `index`, if there is one.
    pub fn get_state(&self, index: usize) -> (r: Option<&State>)
        ensures
            index < self.states@.len() ==> r == Some(&self.states@[index as int]),
            index >= self.states@.len() ==> r is None,
    {
        if index < self.states.len() {
            Some(&self.states[index])
        } else {
            None
        }
    }
}

/// Whether `t` is the kind `Empty`.
fn is_empty_kind(t: TokenType) -> (b: bool)
    ensures
        b == (t is Empty),
{
    match t {
        TokenType::Empty => true,
        _ => false,
    }
}

} // verus!
