//! What it means for an automaton to accept a piece of text.
//!
//! A run of an automaton over a text is a walk through its states.  An edge
//! may be followed if the token of the state it leads to allows it: an `Empty`
//! state is entered freely, a `Hat` state only at the start of the text, a
//! `Dollar` state only at its end, and none of these reads anything; a
//! `Character` or `Dot` state is entered by reading one code point.  The
//! automaton accepts the piece `text[i..j]` if a run that starts in state 0 at
//! position `i` can be in the accepting state at position `j`.
//!
//! As a part of a larger automaton, an automaton is entered at its first
//! state like any other state is entered; what it accepts then is what it
//! *admits*.  For an automaton whose entry is `Empty`, the two are the same.
use vstd::prelude::*;
use crate::lexer::token_type::TokenType;
use crate::parser::nfa::NfaView;

verus! {

/// Whether a state labelled `t` may be entered at position `p` of a text of
/// length `len` without reading anything.
pub open spec fn eps_ok(t: TokenType, p: int, len: int) -> bool {
    match t {
        TokenType::Empty => true,
        TokenType::Hat => p == 0,
        TokenType::Dollar => p == len,
        _ => false,
    }
}

/// Whether a state labelled `t` may be entered by reading `c`.
pub open spec fn consumes(t: TokenType, c: char) -> bool {
    match t {
        TokenType::Character(x) => x == c,
        TokenType::Dot => true,
        _ => false,
    }
}

/// Whether a state labelled `t`, entered at position `i`, puts the run at
/// position `j`: at `i` if the state is entered without reading, behind the
/// code point at `i` if it is entered by reading it.
pub open spec fn token_admits(t: TokenType, text: Seq<char>, i: int, j: int) -> bool {
    &&& 0 <= i <= text.len()
    &&& {
        ||| j == i && eps_ok(t, i, text.len() as int)
        ||| j == i + 1 && i < text.len() && consumes(t, text[i])
    }
}

/// Whether `w` means the one token `t`: it admits exactly what enters a
/// state labelled `t`.
pub open spec fn means_token(w: NfaView, t: TokenType) -> bool {
    forall|text: Seq<char>, i: int, j: int| #[trigger]
        w.admits(text, i, j) <==> token_admits(t, text, i, j)
}

/// Whether `w` means `x` followed by `y`: it admits a piece of text exactly
/// if the piece splits into one that `x` admits and one that `y` admits.
pub open spec fn means_concat(w: NfaView, x: NfaView, y: NfaView) -> bool {
    forall|text: Seq<char>, i: int, j: int| #[trigger]
        w.admits(text, i, j) <==> exists|m: int| #[trigger]
            x.admits(text, i, m) && y.admits(text, m, j)
}

/// Whether `w` means `x` or `y`: it admits a piece of text exactly if `x`
/// admits it or `y` admits it.
pub open spec fn means_either(w: NfaView, x: NfaView, y: NfaView) -> bool {
    forall|text: Seq<char>, i: int, j: int| #[trigger]
        w.admits(text, i, j) <==> x.admits(text, i, j) || y.admits(text, i, j)
}

/// Whether `w` means `x` repeated: it admits a piece of text exactly if the
/// piece splits into pieces that `x` admits, at least `least` of them, and
/// at most one if `once`.
pub open spec fn means_repeated(w: NfaView, x: NfaView, least: nat, once: bool) -> bool {
    forall|text: Seq<char>, i: int, j: int| #[trigger]
        w.admits(text, i, j) <==> exists|count: nat|
            x.repeats(text, i, j, count) && count >= least && (once ==> count <= 1)
}

/// The number of `false` entries of `marks`.
pub open spec fn unmarked(marks: Seq<bool>) -> nat
    decreases marks.len(),
{
    if marks.len() == 0 {
        0
    } else {
        unmarked(marks.drop_last()) + if marks.last() {
            0nat
        } else {
            1nat
        }
    }
}

/// Whether the ranges of `m` lie between `lo` and `hi`, begin one behind the
/// other, and do not overlap.
pub open spec fn ordered_ranges(m: Seq<(int, int)>, lo: int, hi: int) -> bool {
    &&& forall|k: int| 0 <= k < m.len() ==> lo <= (#[trigger] m[k]).0 <= m[k].1 <= hi
    &&& forall|k: int, l: int|
        0 <= k < l < m.len() ==> (#[trigger] m[k]).0 < (#[trigger] m[l]).0 && m[k].1 <= m[l].0
}

/// The half-open ranges of `v` as pairs of mathematical integers.
pub open spec fn ranges_view(v: Seq<(usize, usize)>) -> Seq<(int, int)> {
    v.map_values(|r: (usize, usize)| (r.0 as int, r.1 as int))
}

impl NfaView {
    /// Whether there is an edge from state `s` to state `t`.
    pub open spec fn has_edge(self, s: int, t: int) -> bool {
        &&& 0 <= s < self.states.len()
        &&& 0 <= t < self.states.len()
        &&& self.states[s].edges.contains(t)
    }

    /// Whether a run at position `p` can go from `s` to `t` along one edge
    /// without reading anything.
    pub open spec fn eps_step(self, s: int, t: int, p: int, len: int) -> bool {
        self.has_edge(s, t) && eps_ok(self.states[t].token.token_type, p, len)
    }

    /// Whether a run can go from `s` to `t` along one edge by reading `c`.
    pub open spec fn char_step(self, s: int, t: int, c: char) -> bool {
        self.has_edge(s, t) && consumes(self.states[t].token.token_type, c)
    }

    /// Whether a run at position `p` can go from `s` to `t` along exactly `k`
    /// edges without reading anything.
    pub open spec fn eps_path(self, s: int, t: int, p: int, len: int, k: nat) -> bool
        decreases k,
    {
        if k == 0 {
            s == t
        } else {
            exists|m: int|
                self.eps_path(s, m, p, len, (k - 1) as nat) && #[trigger] self.eps_step(m, t, p, len)
        }
    }

    /// Whether a run at position `p` can go from `s` to `t` without reading
    /// anything.
    pub open spec fn eps_reaches(self, s: int, t: int, p: int, len: int) -> bool {
        exists|k: nat| self.eps_path(s, t, p, len, k)
    }

    /// Whether a run that starts in state 0 at position `i` of `text` can be in
    /// state `t` at position `p`, having read `text[i..p]`.
    pub open spec fn reaches(self, text: Seq<char>, i: int, t: int, p: int) -> bool
        decreases p - i,
    {
        if p < i || i < 0 || p > text.len() {
            false
        } else if p == i {
            self.eps_reaches(0, t, p, text.len() as int)
        } else {
            let c = text[p - 1];
            exists|u: int, s: int|
                self.reaches(text, i, u, p - 1) && #[trigger] self.char_step(u, s, c)
                    && self.eps_reaches(s, t, p, text.len() as int)
        }
    }

    /// Whether the automaton accepts `text[i..j]` where it stands in `text`.
    pub open spec fn accepts(self, text: Seq<char>, i: int, j: int) -> bool {
        self.reaches(text, i, self.end, j)
    }

    /// Whether the automaton accepts some piece of `text`.
    pub open spec fn is_match(self, text: Seq<char>) -> bool {
        exists|i: int, j: int| self.accepts(text, i, j)
    }

    /// The greatest `e` with `i <= e <= j` such that `text[i..e]` is accepted,
    /// if there is one.
    pub open spec fn longest_end(self, text: Seq<char>, i: int, j: int) -> Option<int>
        decreases j - i + 1,
    {
        if j < i {
            None
        } else if self.accepts(text, i, j) {
            Some(j)
        } else {
            self.longest_end(text, i, j - 1)
        }
    }

    /// The end of the longest accepted piece of `text` that begins at `i`.
    pub open spec fn longest_match(self, text: Seq<char>, i: int) -> Option<int> {
        self.longest_end(text, i, text.len() as int)
    }

    /// Where the search goes on after position `c`: behind the match that
    /// begins at `c` if it is not empty, else one position further.
    pub open spec fn next_cursor(self, text: Seq<char>, c: int) -> int {
        match self.longest_match(text, c) {
            Some(e) => if c < e <= text.len() {
                e
            } else {
                c + 1
            },
            None => c + 1,
        }
    }

    /// The matches found by a search that begins at position `c`: at every
    /// position the search takes the longest accepted piece that begins
    /// there, reports it, and goes on behind it.
    pub open spec fn matches_from(self, text: Seq<char>, c: int) -> Seq<(int, int)>
        decreases text.len() - c + 1,
    {
        if c < 0 || c > text.len() {
            Seq::empty()
        } else {
            let rest = self.matches_from(text, self.next_cursor(text, c));
            match self.longest_match(text, c) {
                Some(e) => seq![(c, e)] + rest,
                None => rest,
            }
        }
    }

    /// The matches found by a search that begins at position `c` and looks
    /// for no match that begins at `stop` or behind it.
    pub open spec fn matches_before(self, text: Seq<char>, c: int, stop: int) -> Seq<(int, int)>
        decreases text.len() - c + 1,
    {
        if c < 0 || c >= stop || c > text.len() {
            Seq::empty()
        } else {
            let rest = self.matches_before(text, self.next_cursor(text, c), stop);
            match self.longest_match(text, c) {
                Some(e) => seq![(c, e)] + rest,
                None => rest,
            }
        }
    }

    /// The matches in `text` that begin before its end, from left to right.
    pub open spec fn inner_matches(self, text: Seq<char>) -> Seq<(int, int)> {
        self.matches_before(text, 0, text.len() as int)
    }

    /// All matches in `text`, from left to right.
    pub open spec fn all_matches(self, text: Seq<char>) -> Seq<(int, int)> {
        self.matches_from(text, 0)
    }

    /// Whether a run that is in state `s` at position `p` can follow one edge
    /// and then be in state `t` at position `q`.
    pub open spec fn step(self, text: Seq<char>, s: int, p: int, t: int, q: int) -> bool {
        &&& 0 <= p <= text.len()
        &&& {
            ||| q == p && self.eps_step(s, t, p, text.len() as int)
            ||| q == p + 1 && p < text.len() && self.char_step(s, t, text[p])
        }
    }

    /// Whether a run that is in state `s` at position `p` can follow exactly
    /// `k` edges and then be in state `t` at position `q`.
    pub open spec fn path(self, text: Seq<char>, s: int, p: int, t: int, q: int, k: nat) -> bool
        decreases k,
    {
        if k == 0 {
            s == t && p == q
        } else {
            exists|m: int, r: int|
                self.path(text, s, p, m, r, (k - 1) as nat) && #[trigger] self.step(text, m, r, t, q)
        }
    }

    /// Whether a run that is in state `s` at position `p` can come to be in
    /// state `t` at position `q`.
    pub open spec fn goes(self, text: Seq<char>, s: int, p: int, t: int, q: int) -> bool {
        exists|k: nat| self.path(text, s, p, t, q, k)
    }

    /// Whether a run that comes to the entry from outside at position `i` is
    /// in the entry at position `p`: the entry is entered like any other
    /// state, as its token says.
    pub open spec fn enters(self, text: Seq<char>, i: int, p: int) -> bool {
        token_admits(self.states[0].token.token_type, text, i, p)
    }

    /// Whether the automaton, entered at its first state, accepts
    /// `text[i..j]`: a run that comes to the entry at position `i` can be in
    /// the accepting state at position `j`.  This is what an automaton means
    /// as a part of a larger one.
    pub open spec fn admits(self, text: Seq<char>, i: int, j: int) -> bool {
        exists|p: int| #[trigger] self.enters(text, i, p) && self.goes(text, 0, p, self.end, j)
    }

    /// Whether `text[i..j]` splits into exactly `n` pieces, one behind the
    /// other, each of which the automaton admits.
    pub open spec fn repeats(self, text: Seq<char>, i: int, j: int, n: nat) -> bool
        decreases n,
    {
        if n == 0 {
            i == j && 0 <= i <= text.len()
        } else {
            exists|m: int| #[trigger]
                self.admits(text, i, m) && self.repeats(text, m, j, (n - 1) as nat)
        }
    }

    /// Whether `t` can be reached without reading anything from a state that
    /// is marked in `marks`.
    pub open spec fn closure_has(self, marks: Seq<bool>, t: int, p: int, len: int) -> bool {
        exists|s: int| 0 <= s < marks.len() && marks[s] && #[trigger] self.eps_reaches(s, t, p, len)
    }

    /// Whether a step of the simulation starts out from `s`: it is the entry
    /// and the search may begin anywhere, or it is entered from a marked state
    /// by reading `c`.
    pub open spec fn seeds(self, marks: Seq<bool>, restart: bool, c: char, s: int) -> bool {
        (restart && s == 0) || exists|u: int|
            0 <= u < marks.len() && marks[u] && #[trigger] self.char_step(u, s, c)
    }

    /// Whether `t` is active at position `p` after a step that read `c` from
    /// the states marked in `marks`.
    pub open spec fn step_has(self, marks: Seq<bool>, restart: bool, c: char, t: int, p: int, len: int) -> bool {
        exists|s: int| self.seeds(marks, restart, c, s) && #[trigger] self.eps_reaches(s, t, p, len)
    }

    /// Whether a run that starts in state 0 at some position of `text` can be
    /// in state `t` at position `p`.
    pub open spec fn active_anywhere(self, text: Seq<char>, t: int, p: int) -> bool {
        exists|i: int| self.reaches(text, i, t, p)
    }

    /// Whether `marks` is closed under the edges that read nothing.
    pub open spec fn closed(self, marks: Seq<bool>, p: int, len: int) -> bool {
        forall|u: int, t: int|
            0 <= u < marks.len() && marks[u] && #[trigger] self.eps_step(u, t, p, len) ==> marks[t]
    }

    /// Every state reaches itself.
    pub proof fn lemma_eps_refl(self, s: int, p: int, len: int)
        ensures
            self.eps_reaches(s, s, p, len),
    {
        assert(self.eps_path(s, s, p, len, 0));
    }

    /// A path may be extended by one edge.
    pub proof fn lemma_eps_extend(self, s: int, u: int, t: int, p: int, len: int)
        requires
            self.eps_reaches(s, u, p, len),
            self.eps_step(u, t, p, len),
        ensures
            self.eps_reaches(s, t, p, len),
    {
        let k = choose|k: nat| self.eps_path(s, u, p, len, k);
        assert(self.eps_path(s, t, p, len, k + 1));
    }

    /// A path stays among the states of the automaton.
    pub proof fn lemma_eps_path_range(self, s: int, t: int, p: int, len: int, k: nat)
        requires
            0 <= s < self.states.len(),
            self.eps_path(s, t, p, len, k),
        ensures
            0 <= t < self.states.len(),
    {
    }

    /// A closed set holds everything that can be reached from it.
    pub proof fn lemma_closed_holds(self, marks: Seq<bool>, s: int, t: int, p: int, len: int, k: nat)
        requires
            marks.len() == self.states.len(),
            self.closed(marks, p, len),
            0 <= s < marks.len(),
            marks[s],
            self.eps_path(s, t, p, len, k),
        ensures
            0 <= t < marks.len(),
            marks[t],
        decreases k,
    {
        if k > 0 {
            let m = choose|m: int|
                self.eps_path(s, m, p, len, (k - 1) as nat) && #[trigger] self.eps_step(m, t, p, len);
            self.lemma_closed_holds(marks, s, m, p, len, (k - 1) as nat);
        }
    }

    /// A run stays among the states of the automaton, and within the text.
    pub proof fn lemma_reaches_range(self, text: Seq<char>, i: int, t: int, p: int)
        requires
            self.wf(),
            self.reaches(text, i, t, p),
        ensures
            0 <= t < self.states.len(),
            0 <= i <= p <= text.len(),
    {
        let len = text.len() as int;
        if p == i {
            let k = choose|k: nat| self.eps_path(0, t, p, len, k);
            self.lemma_eps_path_range(0, t, p, len, k);
        } else {
            let c = text[p - 1];
            let (u, s) = choose|u: int, s: int|
                self.reaches(text, i, u, p - 1) && #[trigger] self.char_step(u, s, c)
                    && self.eps_reaches(s, t, p, len);
            let k = choose|k: nat| self.eps_path(s, t, p, len, k);
            self.lemma_eps_path_range(s, t, p, len, k);
        }
    }

    /// A path that begins within the text ends within the text.
    pub proof fn lemma_path_within(self, text: Seq<char>, s: int, p: int, t: int, q: int, k: nat)
        requires
            0 <= p <= text.len(),
            self.path(text, s, p, t, q, k),
        ensures
            p <= q <= text.len(),
        decreases k,
    {
        if k > 0 {
            let (m, r) = choose|m: int, r: int|
                self.path(text, s, p, m, r, (k - 1) as nat) && #[trigger] self.step(text, m, r, t, q);
            self.lemma_path_within(text, s, p, m, r, (k - 1) as nat);
        }
    }

    /// What is admitted lies within the text.
    pub proof fn lemma_admits_within(self, text: Seq<char>, i: int, j: int)
        requires
            self.admits(text, i, j),
        ensures
            0 <= i <= j <= text.len(),
    {
        let p = choose|p: int| #[trigger] self.enters(text, i, p) && self.goes(text, 0, p, self.end, j);
        let k = choose|k: nat| self.path(text, 0, p, self.end, j, k);
        self.lemma_path_within(text, 0, p, self.end, j, k);
    }

    /// Pieces one behind the other lie within the text.
    pub proof fn lemma_repeats_within(self, text: Seq<char>, i: int, j: int, n: nat)
        requires
            self.repeats(text, i, j, n),
        ensures
            0 <= i <= j <= text.len(),
        decreases n,
    {
        if n > 0 {
            let m = choose|m: int| #[trigger]
                self.admits(text, i, m) && self.repeats(text, m, j, (n - 1) as nat);
            self.lemma_admits_within(text, i, m);
            self.lemma_repeats_within(text, m, j, (n - 1) as nat);
        }
    }

    /// Two paths, one behind the other, make one path.
    pub proof fn lemma_path_concat(
        self,
        text: Seq<char>,
        s: int,
        p: int,
        m: int,
        r: int,
        t: int,
        q: int,
        k1: nat,
        k2: nat,
    )
        requires
            self.path(text, s, p, m, r, k1),
            self.path(text, m, r, t, q, k2),
        ensures
            self.path(text, s, p, t, q, k1 + k2),
        decreases k2,
    {
        if k2 > 0 {
            let (m2, r2) = choose|m2: int, r2: int|
                self.path(text, m, r, m2, r2, (k2 - 1) as nat) && #[trigger] self.step(text, m2, r2, t, q);
            self.lemma_path_concat(text, s, p, m, r, m2, r2, k1, (k2 - 1) as nat);
        }
    }

    /// A path can be followed by one more edge.
    pub proof fn lemma_goes_step(self, text: Seq<char>, s: int, p: int, m: int, r: int, t: int, q: int)
        requires
            self.goes(text, s, p, m, r),
            self.step(text, m, r, t, q),
        ensures
            self.goes(text, s, p, t, q),
    {
        let k = choose|k: nat| self.path(text, s, p, m, r, k);
        assert(self.path(text, s, p, t, q, k + 1));
    }

    /// Coming from one place to a second and from there to a third is coming
    /// from the first to the third.
    pub proof fn lemma_goes_trans(self, text: Seq<char>, s: int, p: int, m: int, r: int, t: int, q: int)
        requires
            self.goes(text, s, p, m, r),
            self.goes(text, m, r, t, q),
        ensures
            self.goes(text, s, p, t, q),
    {
        let k1 = choose|k: nat| self.path(text, s, p, m, r, k);
        let k2 = choose|k: nat| self.path(text, m, r, t, q, k);
        self.lemma_path_concat(text, s, p, m, r, t, q, k1, k2);
    }

    /// The first edge of a path that is not empty, and where it leads.
    pub proof fn lemma_path_first(self, text: Seq<char>, s: int, p: int, t: int, q: int, k: nat) -> (w: (
        int,
        int,
    ))
        requires
            k >= 1,
            self.path(text, s, p, t, q, k),
        ensures
            self.step(text, s, p, w.0, w.1),
            self.path(text, w.0, w.1, t, q, (k - 1) as nat),
        decreases k,
    {
        let (m, r) = choose|m: int, r: int|
            self.path(text, s, p, m, r, (k - 1) as nat) && #[trigger] self.step(text, m, r, t, q);
        if k == 1 {
            (t, q)
        } else {
            let w = self.lemma_path_first(text, s, p, m, r, (k - 1) as nat);
            w
        }
    }

    /// From a state without edges a run goes nowhere.
    pub proof fn lemma_stuck(self, text: Seq<char>, s: int, p: int, t: int, q: int, k: nat)
        requires
            0 <= s < self.states.len(),
            self.states[s].edges.len() == 0,
            self.path(text, s, p, t, q, k),
        ensures
            k == 0,
            t == s,
            q == p,
    {
        if k >= 1 {
            self.lemma_path_first(text, s, p, t, q, k);
        }
    }

    /// A path that reads nothing is a path.
    pub proof fn lemma_eps_path_is_path(self, text: Seq<char>, s: int, t: int, p: int, k: nat)
        requires
            0 <= p <= text.len(),
            self.eps_path(s, t, p, text.len() as int, k),
        ensures
            self.path(text, s, p, t, p, k),
        decreases k,
    {
        if k > 0 {
            let m = choose|m: int|
                self.eps_path(s, m, p, text.len() as int, (k - 1) as nat) && #[trigger] self.eps_step(
                    m,
                    t,
                    p,
                    text.len() as int,
                );
            self.lemma_eps_path_is_path(text, s, m, p, (k - 1) as nat);
            assert(self.step(text, m, p, t, p));
        }
    }

    /// A run from the entry is a path from the entry.
    pub proof fn lemma_reaches_goes(self, text: Seq<char>, i: int, t: int, p: int)
        requires
            self.reaches(text, i, t, p),
        ensures
            self.goes(text, 0, i, t, p),
        decreases p - i,
    {
        let len = text.len() as int;
        if p == i {
            let k = choose|k: nat| self.eps_path(0, t, p, len, k);
            self.lemma_eps_path_is_path(text, 0, t, p, k);
        } else {
            let c = text[p - 1];
            let (u, s) = choose|u: int, s: int|
                self.reaches(text, i, u, p - 1) && #[trigger] self.char_step(u, s, c) && self.eps_reaches(
                    s,
                    t,
                    p,
                    len,
                );
            self.lemma_reaches_goes(text, i, u, p - 1);
            self.lemma_reaches_within(text, i, u, p - 1);
            self.lemma_goes_step(text, 0, i, u, p - 1, s, p);
            let k = choose|k: nat| self.eps_path(s, t, p, len, k);
            self.lemma_eps_path_is_path(text, s, t, p, k);
            self.lemma_goes_trans(text, 0, i, s, p, t, p);
        }
    }

    /// A path from the entry is a run from the entry.
    pub proof fn lemma_path_reaches(self, text: Seq<char>, i: int, t: int, p: int, k: nat)
        requires
            0 <= i <= text.len(),
            self.path(text, 0, i, t, p, k),
        ensures
            self.reaches(text, i, t, p),
        decreases k,
    {
        let len = text.len() as int;
        if k == 0 {
            self.lemma_eps_refl(0, i, len);
        } else {
            let (m, r) = choose|m: int, r: int|
                self.path(text, 0, i, m, r, (k - 1) as nat) && #[trigger] self.step(text, m, r, t, p);
            self.lemma_path_reaches(text, i, m, r, (k - 1) as nat);
            self.lemma_reaches_within(text, i, m, r);
            if p == r && self.eps_step(m, t, r, len) {
                if r == i {
                    self.lemma_eps_extend(0, m, t, r, len);
                } else {
                    let c = text[r - 1];
                    let (u, s) = choose|u: int, s: int|
                        self.reaches(text, i, u, r - 1) && #[trigger] self.char_step(u, s, c)
                            && self.eps_reaches(s, m, r, len);
                    self.lemma_eps_extend(s, m, t, r, len);
                }
            } else {
                self.lemma_eps_refl(t, p, len);
                assert(self.char_step(m, t, text[p - 1]));
            }
        }
    }

    /// An automaton whose entry is `Empty` accepts, run by itself, what it
    /// admits as a part of a larger one.
    pub proof fn lemma_accepts_is_admits(self, text: Seq<char>, i: int, j: int)
        requires
            self.states[0].token.token_type is Empty,
        ensures
            self.accepts(text, i, j) <==> self.admits(text, i, j),
    {
        if self.accepts(text, i, j) {
            self.lemma_reaches_goes(text, i, self.end, j);
            self.lemma_reaches_within(text, i, self.end, j);
            assert(self.enters(text, i, i));
        }
        if self.admits(text, i, j) {
            let p = choose|p: int| #[trigger] self.enters(text, i, p) && self.goes(text, 0, p, self.end, j);
            let k = choose|k: nat| self.path(text, 0, p, self.end, j, k);
            self.lemma_path_reaches(text, i, self.end, j, k);
        }
    }

    /// A run stays within the text.
    pub proof fn lemma_reaches_within(self, text: Seq<char>, i: int, t: int, p: int)
        requires
            self.reaches(text, i, t, p),
        ensures
            0 <= i <= p <= text.len(),
    {
    }

    /// What [`NfaView::longest_end`] finds is accepted, and nothing longer
    /// is; if it finds nothing, nothing is accepted.
    pub proof fn lemma_longest_end(self, text: Seq<char>, i: int, q: int)
        ensures
            match self.longest_end(text, i, q) {
                Some(e) => i <= e <= q && self.accepts(text, i, e) && forall|j: int|
                    e < j <= q ==> !self.accepts(text, i, j),
                None => forall|j: int| j <= q ==> !self.accepts(text, i, j),
            },
        decreases q - i + 1,
    {
        if q >= i {
            if !self.accepts(text, i, q) {
                self.lemma_longest_end(text, i, q - 1);
            }
        }
    }

    /// The matches of a search that begins at `c` lie within the text behind
    /// `c`, each is accepted and is the longest accepted piece that begins
    /// where it begins, and each begins behind the one before it, at its end
    /// or later.
    pub proof fn lemma_matches_ordered(self, text: Seq<char>, c: int)
        requires
            0 <= c,
        ensures
            ordered_ranges(self.matches_from(text, c), c, text.len() as int),
            forall|k: int|
                0 <= k < self.matches_from(text, c).len() ==> self.longest_match(
                    text,
                    (#[trigger] self.matches_from(text, c)[k]).0,
                ) == Some(self.matches_from(text, c)[k].1),
        decreases text.len() - c + 1,
    {
        if c <= text.len() {
            let next = self.next_cursor(text, c);
            self.lemma_matches_ordered(text, next);
            self.lemma_longest_end(text, c, text.len() as int);
            match self.longest_match(text, c) {
                Some(e) => {
                },
                None => {
                },
            }
        }
    }

    /// The matches of a search that stops before `stop` are those of the
    /// search that does not stop that begin before `stop`: they lie within the
    /// text behind `c`, each is the longest accepted piece that begins where
    /// it begins, and each begins behind the one before it, at its end or
    /// later.
    pub proof fn lemma_before_ordered(self, text: Seq<char>, c: int, stop: int)
        requires
            0 <= c,
            stop <= text.len() + 1,
        ensures
            ordered_ranges(self.matches_before(text, c, stop), c, text.len() as int),
            forall|k: int|
                0 <= k < self.matches_before(text, c, stop).len() ==> (
                #[trigger] self.matches_before(text, c, stop)[k]).0 < stop && self.longest_match(
                    text,
                    self.matches_before(text, c, stop)[k].0,
                ) == Some(self.matches_before(text, c, stop)[k].1),
            stop == text.len() + 1 ==> self.matches_before(text, c, stop) == self.matches_from(text, c),
        decreases text.len() - c + 1,
    {
        let m = self.matches_before(text, c, stop);
        if c < stop && c <= text.len() {
            let next = self.next_cursor(text, c);
            self.lemma_before_ordered(text, next, stop);
            self.lemma_longest_end(text, c, text.len() as int);
            match self.longest_match(text, c) {
                Some(e) => {
                    assert forall|k: int| 0 <= k < m.len() implies (#[trigger] m[k]).0 < stop
                        && self.longest_match(text, m[k].0) == Some(m[k].1) by {}
                    assert forall|k: int, l: int| 0 <= k < l < m.len() implies (#[trigger] m[k]).0 < (
                    #[trigger] m[l]).0 && m[k].1 <= m[l].0 by {}
                    assert forall|k: int| 0 <= k < m.len() implies c <= (#[trigger] m[k]).0 <= m[k].1
                        <= text.len() by {}
                },
                None => {
                },
            }
        }
    }

    /// A search that begins at or in front of an accepted piece finds a
    /// match.
    pub proof fn lemma_match_found(self, text: Seq<char>, c: int, i: int, j: int)
        requires
            0 <= c <= i,
            self.accepts(text, i, j),
        ensures
            self.matches_from(text, c).len() > 0,
        decreases i - c,
    {
        self.lemma_reaches_within(text, i, self.end, j);
        self.lemma_longest_end(text, c, text.len() as int);
        match self.longest_match(text, c) {
            Some(e) => {
            },
            None => {
                self.lemma_match_found(text, c + 1, i, j);
            },
        }
    }

    /// One step of a search that begins at `start`: if `marks` holds the
    /// states that a run from `start` can be in at position `p`, the step
    /// gives the states that it can be in at position `p + 1`.
    pub proof fn lemma_step_anchored(self, text: Seq<char>, marks: Seq<bool>, start: int, p: int, t: int)
        requires
            self.wf(),
            marks.len() == self.states.len(),
            0 <= start <= p < text.len(),
            forall|u: int| 0 <= u < marks.len() ==> (marks[u] <==> self.reaches(text, start, u, p)),
        ensures
            self.step_has(marks, false, text[p], t, p + 1, text.len() as int) <==> self.reaches(
                text,
                start,
                t,
                p + 1,
            ),
    {
        let len = text.len() as int;
        let c = text[p];
        if self.step_has(marks, false, c, t, p + 1, len) {
            let q = p + 1;
            assert(text[q - 1] == c);
        }
        if self.reaches(text, start, t, p + 1) {
            let (u, s) = choose|u: int, s: int|
                self.reaches(text, start, u, p) && #[trigger] self.char_step(u, s, c) && self.eps_reaches(
                    s,
                    t,
                    p + 1,
                    len,
                );
            self.lemma_reaches_range(text, start, u, p);
        }
    }

    /// One step of a search that may begin anywhere: if `marks` holds the
    /// states that are active at position `p`, the step gives the states that
    /// are active at position `p + 1`.
    pub proof fn lemma_step_anywhere(self, text: Seq<char>, marks: Seq<bool>, p: int, t: int)
        requires
            self.wf(),
            marks.len() == self.states.len(),
            0 <= p < text.len(),
            forall|u: int| 0 <= u < marks.len() ==> (marks[u] <==> self.active_anywhere(text, u, p)),
        ensures
            self.step_has(marks, true, text[p], t, p + 1, text.len() as int) <==> self.active_anywhere(
                text,
                t,
                p + 1,
            ),
    {
        let len = text.len() as int;
        let c = text[p];
        if self.step_has(marks, true, c, t, p + 1, len) {
            let s = choose|s: int| self.seeds(marks, true, c, s) && #[trigger] self.eps_reaches(s, t, p + 1, len);
            if exists|u: int| 0 <= u < marks.len() && marks[u] && #[trigger] self.char_step(u, s, c) {
                let u = choose|u: int| 0 <= u < marks.len() && marks[u] && #[trigger] self.char_step(u, s, c);
                let i = choose|i: int| self.reaches(text, i, u, p);
                self.lemma_reaches_range(text, i, u, p);
                let q = p + 1;
                assert(text[q - 1] == c);
                assert(self.reaches(text, i, t, q));
            } else {
                assert(self.reaches(text, p + 1, t, p + 1));
            }
        }
        if self.active_anywhere(text, t, p + 1) {
            let q = p + 1;
            let i = choose|i: int| self.reaches(text, i, t, q);
            self.lemma_reaches_range(text, i, t, q);
            if i != p + 1 {
                let (u, s) = choose|u: int, s: int|
                    self.reaches(text, i, u, p) && #[trigger] self.char_step(u, s, c) && self.eps_reaches(
                        s,
                        t,
                        p + 1,
                        len,
                    );
                self.lemma_reaches_range(text, i, u, p);
            }
        }
    }

    /// A run that can be nowhere at position `p` can be nowhere behind it.
    pub proof fn lemma_dead_run(self, text: Seq<char>, start: int, p: int, q: int, t: int)
        requires
            start <= p <= q,
            forall|u: int| !self.reaches(text, start, u, p),
        ensures
            !self.reaches(text, start, t, q),
        decreases q - p,
    {
        if q > p {
            if self.reaches(text, start, t, q) {
                let c = text[q - 1];
                let (u, s) = choose|u: int, s: int|
                    self.reaches(text, start, u, q - 1) && #[trigger] self.char_step(u, s, c)
                        && self.eps_reaches(s, t, q, text.len() as int);
                self.lemma_dead_run(text, start, p, q - 1, u);
            }
        }
    }

    /// Behind a position at which a run can be nowhere, no longer piece is
    /// accepted.
    pub proof fn lemma_longest_end_dead(self, text: Seq<char>, start: int, p: int, q: int)
        requires
            start <= p <= q,
            forall|u: int| !self.reaches(text, start, u, p),
        ensures
            self.longest_end(text, start, q) == self.longest_end(text, start, p),
        decreases q - p,
    {
        if q > p {
            self.lemma_dead_run(text, start, p, q, self.end);
            self.lemma_longest_end_dead(text, start, p, q - 1);
        }
    }
}

/// Marking an unmarked entry lowers the number of unmarked entries by one.
pub proof fn lemma_unmarked_update(marks: Seq<bool>, t: int)
    requires
        0 <= t < marks.len(),
        !marks[t],
    ensures
        unmarked(marks.update(t, true)) + 1 == unmarked(marks),
    decreases marks.len(),
{
    let after = marks.update(t, true);
    if t == marks.len() - 1 {
        assert(after.drop_last() =~= marks.drop_last());
    } else {
        assert(after.drop_last() =~= marks.drop_last().update(t, true));
        lemma_unmarked_update(marks.drop_last(), t);
    }
}

} // verus!
