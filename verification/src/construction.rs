//! What the automata of the operators accept.
//!
//! Every operator builds its automaton from the automata of its operands by
//! putting them, unchanged but for their indices, among a few new states and
//! edges.  This module says where an operand sits in such an automaton
//! ([`hosts`]), follows runs into and out of it, and from that derives what
//! the automaton of each operator admits.
use vstd::prelude::*;
use crate::parser::nfa::{shift, spec_link, spec_merge, NfaView};
use crate::parser::{add_edge_at, beam_of, plus_of, question_of, seed, star_of, wrap};

verus! {

/// Whether state `s` of `x` is state `s + d` of `n`, with the same kind of
/// token and the same edges moved up by `d`, followed, if it is the
/// accepting state of `x`, by the edges `extra`.
pub open spec fn sits(n: NfaView, x: NfaView, d: int, extra: Seq<int>, s: int) -> bool {
    &&& n.states[s + d].token.token_type == x.states[s].token.token_type
    &&& n.states[s + d].edges == shift(x.states[s].edges, d) + if s == x.end {
        extra
    } else {
        Seq::empty()
    }
}

/// Whether `x` sits in `n` at offset `d`, its accepting state having the
/// edges `extra` besides its own.
pub open spec fn hosts(n: NfaView, x: NfaView, d: int, extra: Seq<int>) -> bool {
    &&& 0 <= d
    &&& d + x.states.len() <= n.states.len()
    &&& forall|s: int| 0 <= s < x.states.len() ==> #[trigger] sits(n, x, d, extra, s)
}

/// Whether every edge of `extra` leads to a state of `n`.
pub open spec fn leads_within(n: NfaView, extra: Seq<int>) -> bool {
    forall|k: int| 0 <= k < extra.len() ==> 0 <= #[trigger] extra[k] < n.states.len()
}

/// What a run ran into when it followed a path from a state of a hosted
/// automaton.
pub struct Leave {
    /// Whether the path stayed within the hosted automaton.
    pub stayed: bool,
    /// The position at which the run left through the accepting state.
    pub at: int,
    /// The state outside that the run came to first, and the position there.
    pub to: int,
    pub pos: int,
    /// The number of edges followed from there.
    pub rest: nat,
}

/// The edges of a hosted state are those it has in the hosted automaton, and
/// for the accepting state those of `extra`.
pub proof fn lemma_hosted_edge(n: NfaView, x: NfaView, d: int, extra: Seq<int>, s: int, u: int)
    requires
        hosts(n, x, d, extra),
        leads_within(n, extra),
        x.wf(),
        0 <= s < x.states.len(),
    ensures
        n.has_edge(s + d, u) <==> (x.has_edge(s, u - d) || (s == x.end && extra.contains(u))),
{
    assert(sits(n, x, d, extra, s));
    let own = x.states[s].edges;
    let moved = shift(own, d);
    let all = n.states[s + d].edges;
    if x.has_edge(s, u - d) {
        let k = choose|k: int| 0 <= k < own.len() && own[k] == u - d;
        assert(all[k] == u);
    }
    if s == x.end && extra.contains(u) {
        let k = choose|k: int| 0 <= k < extra.len() && extra[k] == u;
        assert(all[moved.len() + k] == u);
    }
}

/// A path in a hosted automaton is a path in its host.
pub proof fn lemma_embed(
    n: NfaView,
    x: NfaView,
    d: int,
    extra: Seq<int>,
    text: Seq<char>,
    s: int,
    p: int,
    t: int,
    q: int,
    k: nat,
)
    requires
        hosts(n, x, d, extra),
        leads_within(n, extra),
        x.wf(),
        0 <= s < x.states.len(),
        x.path(text, s, p, t, q, k),
    ensures
        0 <= t < x.states.len(),
        n.path(text, s + d, p, t + d, q, k),
    decreases k,
{
    if k > 0 {
        let (m, r) = choose|m: int, r: int|
            x.path(text, s, p, m, r, (k - 1) as nat) && #[trigger] x.step(text, m, r, t, q);
        lemma_embed(n, x, d, extra, text, s, p, m, r, (k - 1) as nat);
        lemma_hosted_edge(n, x, d, extra, m, t + d);
        assert(sits(n, x, d, extra, t));
        assert(n.step(text, m + d, r, t + d, q));
    }
}

/// A path in the host that begins in a hosted automaton either stays in it,
/// and is a path of the hosted automaton, or leaves it: then the hosted
/// automaton has come to its accepting state, and the run has followed one of
/// the edges `extra` from there.
pub proof fn lemma_leave(
    n: NfaView,
    x: NfaView,
    d: int,
    extra: Seq<int>,
    text: Seq<char>,
    s: int,
    p: int,
    t: int,
    q: int,
    k: nat,
) -> (w: Leave)
    requires
        hosts(n, x, d, extra),
        leads_within(n, extra),
        x.wf(),
        0 <= s < x.states.len(),
        n.path(text, s + d, p, t, q, k),
    ensures
        w.stayed ==> d <= t < d + x.states.len() && x.path(text, s, p, t - d, q, k),
        !w.stayed ==> {
            &&& x.goes(text, s, p, x.end, w.at)
            &&& extra.contains(w.to)
            &&& n.step(text, x.end + d, w.at, w.to, w.pos)
            &&& n.path(text, w.to, w.pos, t, q, w.rest)
            &&& w.rest < k
        },
    decreases k,
{
    if k == 0 {
        Leave { stayed: true, at: 0, to: 0, pos: 0, rest: 0 }
    } else {
        let (m, r) = choose|m: int, r: int|
            n.path(text, s + d, p, m, r, (k - 1) as nat) && #[trigger] n.step(text, m, r, t, q);
        let w = lemma_leave(n, x, d, extra, text, s, p, m, r, (k - 1) as nat);
        if w.stayed {
            lemma_hosted_edge(n, x, d, extra, m - d, t);
            if x.has_edge(m - d, t - d) {
                assert(sits(n, x, d, extra, t - d));
                assert(x.step(text, m - d, r, t - d, q));
                Leave { stayed: true, at: 0, to: 0, pos: 0, rest: 0 }
            } else {
                Leave { stayed: false, at: r, to: t, pos: q, rest: 0 }
            }
        } else {
            Leave { stayed: false, at: w.at, to: w.to, pos: w.pos, rest: w.rest + 1 }
        }
    }
}

/// An automaton sits in itself.
pub proof fn lemma_hosts_self(x: NfaView)
    ensures
        hosts(x, x, 0, Seq::empty()),
{
    assert forall|s: int| 0 <= s < x.states.len() implies #[trigger] sits(x, x, 0, Seq::empty(), s) by {
        assert(shift(x.states[s].edges, 0) + Seq::<int>::empty() =~= x.states[s].edges);
    }
}

/// The second of two joined automata sits behind the first.
pub proof fn lemma_link_hosts_right(a: NfaView, b: NfaView)
    requires
        0 <= a.end < a.states.len(),
    ensures
        hosts(spec_link(a, b), b, a.states.len() as int, Seq::empty()),
{
}

/// What sits in the first of two joined automata sits in the whole; if its
/// accepting state is that of the first, it has the edge to the second
/// besides.
pub proof fn lemma_link_hosts_left(a: NfaView, b: NfaView, x: NfaView, d: int, extra: Seq<int>)
    requires
        0 <= a.end < a.states.len(),
        hosts(a, x, d, extra),
        a.end == x.end + d || !(d <= a.end < d + x.states.len()),
    ensures
        hosts(
            spec_link(a, b),
            x,
            d,
            if a.end == x.end + d {
                extra.push(a.states.len() as int)
            } else {
                extra
            },
        ),
{
    let n = spec_link(a, b);
    let more = if a.end == x.end + d {
        extra.push(a.states.len() as int)
    } else {
        extra
    };
    assert forall|s: int| 0 <= s < x.states.len() implies #[trigger] sits(n, x, d, more, s) by {
        assert(sits(a, x, d, extra, s));
    }
}

/// What sits in an automaton sits in it when an edge is added outside; if
/// the edge is added to its accepting state, it has that edge besides.
pub proof fn lemma_add_edge_hosts(a: NfaView, x: NfaView, d: int, extra: Seq<int>, s: int, t: int)
    requires
        0 <= s < a.states.len(),
        hosts(a, x, d, extra),
        s == x.end + d || !(d <= s < d + x.states.len()),
    ensures
        hosts(
            add_edge_at(a, s, t),
            x,
            d,
            if s == x.end + d {
                extra.push(t)
            } else {
                extra
            },
        ),
{
    let n = add_edge_at(a, s, t);
    let more = if s == x.end + d {
        extra.push(t)
    } else {
        extra
    };
    assert forall|u: int| 0 <= u < x.states.len() implies #[trigger] sits(n, x, d, more, u) by {
        assert(sits(a, x, d, extra, u));
    }
}

/// Whether `n` is `x` in a frame: a new `Empty` entry with an edge to the
/// entry of `x`, and a new `Empty` accepting state that the accepting state
/// of `x` leads to.  If `loops`, the accepting state of `x` leads back to the
/// new entry as well; if `skips`, the new entry leads to the new accepting
/// state as well.
pub open spec fn framed(n: NfaView, x: NfaView, loops: bool, skips: bool) -> bool {
    let sink: int = x.states.len() as int + 1;
    &&& n.states.len() == sink + 1
    &&& n.end == sink
    &&& n.states[0].token.token_type is Empty
    &&& n.states[0].edges == if skips {
        seq![1int, sink]
    } else {
        seq![1int]
    }
    &&& n.states[sink].token.token_type is Empty
    &&& n.states[sink].edges.len() == 0
    &&& hosts(
        n,
        x,
        1,
        if loops {
            seq![0int, sink]
        } else {
            seq![sink]
        },
    )
}

/// The automata of the three quantifiers are frames.
pub proof fn lemma_quantifiers_framed(x: NfaView)
    requires
        x.tidy(),
    ensures
        framed(star_of(x), x, true, true),
        framed(plus_of(x), x, true, false),
        framed(question_of(x), x, false, true),
{
    let sink: int = x.states.len() as int + 1;
    let none = Seq::<int>::empty();
    let w = wrap(x);
    lemma_link_hosts_right(seed(), x);
    // the loop
    let looped = add_edge_at(w, w.end, 0);
    lemma_add_edge_hosts(w, x, 1, none, w.end, 0);
    let plus = spec_link(looped, seed());
    lemma_link_hosts_left(looped, seed(), x, 1, none.push(0));
    assert(none.push(0).push(sink) =~= seq![0int, sink]);
    let star = add_edge_at(plus, 0, plus.end);
    lemma_add_edge_hosts(plus, x, 1, seq![0int, sink], 0, plus.end);
    assert(star.states[0].edges =~= seq![1int, sink]);
    // without the loop
    let once = spec_link(w, seed());
    lemma_link_hosts_left(w, seed(), x, 1, none);
    lemma_add_edge_hosts(once, x, 1, seq![sink], 0, once.end);
}

/// What a frame admits is made of pieces that the framed automaton admits.
/// Returns their number.
pub proof fn lemma_framed_sound(
    n: NfaView,
    x: NfaView,
    loops: bool,
    skips: bool,
    text: Seq<char>,
    i: int,
    j: int,
    k: nat,
) -> (count: nat)
    requires
        x.tidy(),
        framed(n, x, loops, skips),
        n.path(text, 0, i, n.end, j, k),
    ensures
        x.repeats(text, i, j, count),
        skips || count >= 1,
        loops || count <= 1,
    decreases k,
{
    let sink: int = x.states.len() as int + 1;
    let extra = if loops {
        seq![0int, sink]
    } else {
        seq![sink]
    };
    let first = n.lemma_path_first(text, 0, i, sink, j, k);
    if first.0 == sink {
        n.lemma_stuck(text, sink, first.1, sink, j, (k - 1) as nat);
        0
    } else {
        assert(sits(n, x, 1, extra, 0));
        assert(x.enters(text, i, first.1));
        let w = lemma_leave(n, x, 1, extra, text, 0, first.1, sink, j, (k - 1) as nat);
        assert(x.admits(text, i, w.at));
        if w.to == sink {
            n.lemma_stuck(text, sink, w.pos, sink, j, w.rest);
            assert(x.repeats(text, j, j, 0));
            1
        } else {
            let more = lemma_framed_sound(n, x, loops, skips, text, w.pos, j, w.rest);
            more + 1
        }
    }
}

/// Pieces that the framed automaton admits, one behind the other, are
/// admitted by the frame.
pub proof fn lemma_framed_complete(
    n: NfaView,
    x: NfaView,
    loops: bool,
    skips: bool,
    text: Seq<char>,
    i: int,
    j: int,
    count: nat,
)
    requires
        x.tidy(),
        framed(n, x, loops, skips),
        x.repeats(text, i, j, count),
        skips || count >= 1,
        loops || count <= 1,
    ensures
        n.goes(text, 0, i, n.end, j),
    decreases count,
{
    let sink: int = x.states.len() as int + 1;
    let extra = if loops {
        seq![0int, sink]
    } else {
        seq![sink]
    };
    if count == 0 {
        assert(n.step(text, 0, i, sink, i));
        assert(n.path(text, 0, i, sink, i, 1));
    } else {
        let m = choose|m: int| #[trigger] x.admits(text, i, m) && x.repeats(text, m, j, (count - 1) as nat);
        let p = choose|p: int| #[trigger] x.enters(text, i, p) && x.goes(text, 0, p, x.end, m);
        let k = choose|k: nat| x.path(text, 0, p, x.end, m, k);
        lemma_embed(n, x, 1, extra, text, 0, p, x.end, m, k);
        assert(sits(n, x, 1, extra, 0));
        assert(n.states[0].edges[0] == 1);
        assert(n.step(text, 0, i, 1, p));
        assert(n.path(text, 0, i, 0, i, 0));
        n.lemma_path_concat(text, 0, i, 1, p, x.end + 1, m, 1, k);
        x.lemma_path_within(text, 0, p, x.end, m, k);
        if count == 1 {
            lemma_hosted_edge(n, x, 1, extra, x.end, sink);
            assert(extra[extra.len() - 1] == sink);
            n.lemma_goes_step(text, 0, i, x.end + 1, m, sink, m);
        } else {
            lemma_hosted_edge(n, x, 1, extra, x.end, 0);
            n.lemma_goes_step(text, 0, i, x.end + 1, m, 0, m);
            lemma_framed_complete(n, x, loops, skips, text, m, j, (count - 1) as nat);
            n.lemma_goes_trans(text, 0, i, 0, m, sink, j);
        }
    }
}

/// What two joined automata admit splits into a piece that the first admits
/// and a piece that the second admits.  Returns where it splits.
pub proof fn lemma_link_sound(a: NfaView, b: NfaView, text: Seq<char>, i: int, j: int) -> (m: int)
    requires
        a.wf(),
        b.tidy(),
        spec_link(a, b).admits(text, i, j),
    ensures
        a.admits(text, i, m),
        b.admits(text, m, j),
{
    let n = spec_link(a, b);
    let d = a.states.len() as int;
    let none = Seq::<int>::empty();
    lemma_hosts_self(a);
    lemma_link_hosts_left(a, b, a, 0, none);
    lemma_link_hosts_right(a, b);
    let bridge = none.push(d);
    let p = choose|p: int| #[trigger] n.enters(text, i, p) && n.goes(text, 0, p, n.end, j);
    let k = choose|k: nat| n.path(text, 0, p, n.end, j, k);
    assert(a.enters(text, i, p));
    let w = lemma_leave(n, a, 0, bridge, text, 0, p, n.end, j, k);
    assert(b.enters(text, w.at, w.pos));
    lemma_leave(n, b, d, none, text, 0, w.pos, n.end, j, w.rest);
    w.at
}

/// A piece that the first of two joined automata admits, followed by a piece
/// that the second admits, is admitted by the two.
pub proof fn lemma_link_complete(a: NfaView, b: NfaView, text: Seq<char>, i: int, m: int, j: int)
    requires
        a.wf(),
        b.tidy(),
        a.admits(text, i, m),
        b.admits(text, m, j),
    ensures
        spec_link(a, b).admits(text, i, j),
{
    let n = spec_link(a, b);
    let d = a.states.len() as int;
    let none = Seq::<int>::empty();
    lemma_hosts_self(a);
    lemma_link_hosts_left(a, b, a, 0, none);
    lemma_link_hosts_right(a, b);
    let bridge = none.push(d);
    let p1 = choose|p: int| #[trigger] a.enters(text, i, p) && a.goes(text, 0, p, a.end, m);
    let k1 = choose|k: nat| a.path(text, 0, p1, a.end, m, k);
    let p2 = choose|p: int| #[trigger] b.enters(text, m, p) && b.goes(text, 0, p, b.end, j);
    let k2 = choose|k: nat| b.path(text, 0, p2, b.end, j, k);
    lemma_embed(n, a, 0, bridge, text, 0, p1, a.end, m, k1);
    lemma_embed(n, b, d, none, text, 0, p2, b.end, j, k2);
    assert(n.enters(text, i, p1));
    lemma_hosted_edge(n, a, 0, bridge, a.end, d);
    assert(bridge[0] == d);
    n.lemma_goes_step(text, 0, p1, a.end, m, d, p2);
    n.lemma_goes_trans(text, 0, p1, d, p2, n.end, j);
}

/// Whether `n` is the fork of `x` and `y`: a new `Empty` entry with an edge
/// to the entry of each, and a new `Empty` accepting state that the accepting
/// state of each leads to.
pub open spec fn forked(n: NfaView, x: NfaView, y: NfaView) -> bool {
    let second: int = x.states.len() as int + 1;
    let sink: int = second + y.states.len();
    &&& n.states.len() == sink + 1
    &&& n.end == sink
    &&& n.states[0].token.token_type is Empty
    &&& n.states[0].edges == seq![1int, second]
    &&& n.states[sink].token.token_type is Empty
    &&& n.states[sink].edges.len() == 0
    &&& hosts(n, x, 1, seq![sink])
    &&& hosts(n, y, second, seq![sink])
}

/// The automaton of an alternation is a fork.
pub proof fn lemma_beam_forked(x: NfaView, y: NfaView)
    requires
        x.tidy(),
        y.tidy(),
    ensures
        forked(beam_of(x, y), x, y),
{
    let second: int = x.states.len() as int + 1;
    let sink: int = second + y.states.len();
    let none = Seq::<int>::empty();
    let first = wrap(x);
    lemma_link_hosts_right(seed(), x);
    let reset = NfaView { states: first.states, end: 0 };
    let both = spec_link(reset, y);
    lemma_link_hosts_left(reset, y, x, 1, none);
    lemma_link_hosts_right(reset, y);
    let l1 = add_edge_at(both, first.end, sink);
    lemma_add_edge_hosts(both, x, 1, none, first.end, sink);
    lemma_add_edge_hosts(both, y, second, none, first.end, sink);
    let linked = add_edge_at(l1, sink - 1, sink);
    lemma_add_edge_hosts(l1, x, 1, none.push(sink), sink - 1, sink);
    lemma_add_edge_hosts(l1, y, second, none, sink - 1, sink);
    let n = beam_of(x, y);
    assert forall|s: int| 0 <= s < x.states.len() implies #[trigger] sits(n, x, 1, seq![sink], s) by {
        assert(sits(linked, x, 1, seq![sink], s));
    }
    assert forall|s: int| 0 <= s < y.states.len() implies #[trigger] sits(n, y, second, seq![sink], s) by {
        assert(sits(linked, y, second, seq![sink], s));
    }
    assert(n.states[0].edges =~= seq![1int, second]);
}

/// What a fork admits, one of its two sides admits.
pub proof fn lemma_forked_sound(n: NfaView, x: NfaView, y: NfaView, text: Seq<char>, i: int, j: int)
    requires
        x.tidy(),
        y.tidy(),
        forked(n, x, y),
        n.admits(text, i, j),
    ensures
        x.admits(text, i, j) || y.admits(text, i, j),
{
    let second: int = x.states.len() as int + 1;
    let sink: int = second + y.states.len();
    let out = seq![sink];
    let p = choose|p: int| #[trigger] n.enters(text, i, p) && n.goes(text, 0, p, n.end, j);
    let k = choose|k: nat| n.path(text, 0, p, n.end, j, k);
    let first = n.lemma_path_first(text, 0, i, sink, j, k);
    if first.0 == 1 {
        assert(sits(n, x, 1, out, 0));
        assert(x.enters(text, i, first.1));
        let w = lemma_leave(n, x, 1, out, text, 0, first.1, sink, j, (k - 1) as nat);
        n.lemma_stuck(text, sink, w.pos, sink, j, w.rest);
    } else {
        assert(sits(n, y, second, out, 0));
        assert(y.enters(text, i, first.1));
        let w = lemma_leave(n, y, second, out, text, 0, first.1, sink, j, (k - 1) as nat);
        n.lemma_stuck(text, sink, w.pos, sink, j, w.rest);
    }
}

/// What the side at offset `d` of a fork admits, the fork admits.
pub proof fn lemma_forked_side(
    n: NfaView,
    x: NfaView,
    y: NfaView,
    z: NfaView,
    d: int,
    text: Seq<char>,
    i: int,
    j: int,
)
    requires
        x.tidy(),
        y.tidy(),
        forked(n, x, y),
        (z == x && d == 1) || (z == y && d == x.states.len() + 1),
        z.admits(text, i, j),
    ensures
        n.admits(text, i, j),
{
    let sink: int = x.states.len() as int + 1 + y.states.len();
    let out = seq![sink];
    let p = choose|p: int| #[trigger] z.enters(text, i, p) && z.goes(text, 0, p, z.end, j);
    let k = choose|k: nat| z.path(text, 0, p, z.end, j, k);
    lemma_embed(n, z, d, out, text, 0, p, z.end, j, k);
    z.lemma_path_within(text, 0, p, z.end, j, k);
    assert(sits(n, z, d, out, 0));
    assert(n.step(text, 0, i, d, p));
    assert(n.path(text, 0, i, 0, i, 0));
    n.lemma_path_concat(text, 0, i, d, p, z.end + d, j, 1, k);
    lemma_hosted_edge(n, z, d, out, z.end, sink);
    assert(out[0] == sink);
    n.lemma_goes_step(text, 0, i, z.end + d, j, sink, j);
    assert(n.enters(text, i, i));
}

/// Where two automata sit once they are merged with their `Empty` states
/// fused: the first at the front, the edges of the entry of the second added
/// to its accepting state; the second one state before the end of the first,
/// its entry on the accepting state of the first.
pub proof fn lemma_fused_hosts(a: NfaView, b: NfaView)
    requires
        a.neat(),
        b.wf(),
        a.fuses_with(b),
    ensures
        hosts(spec_merge(a, b), a, 0, shift(b.states[0].edges, a.states.len() - 1)),
        hosts(spec_merge(a, b), b, a.states.len() - 1, Seq::empty()),
        leads_within(spec_merge(a, b), shift(b.states[0].edges, a.states.len() - 1)),
{
    let n = spec_merge(a, b);
    let d = a.states.len() - 1;
    let more = shift(b.states[0].edges, d);
    let none = Seq::<int>::empty();
    assert forall|s: int| 0 <= s < a.states.len() implies #[trigger] sits(n, a, 0, more, s) by {
        if s != a.end {
            assert(shift(a.states[s].edges, 0) + none =~= a.states[s].edges);
        }
    }
    assert forall|s: int| 0 <= s < b.states.len() implies #[trigger] sits(n, b, d, none, s) by {}
}

/// What two merged automata with fused `Empty` states admit splits into a
/// piece that the first admits and a piece that the second admits.  Returns
/// where it splits.
pub proof fn lemma_fused_sound(a: NfaView, b: NfaView, text: Seq<char>, i: int, j: int) -> (m: int)
    requires
        a.neat(),
        b.tidy(),
        a.fuses_with(b),
        spec_merge(a, b).admits(text, i, j),
    ensures
        a.admits(text, i, m),
        b.admits(text, m, j),
{
    let n = spec_merge(a, b);
    let d = a.states.len() - 1;
    let more = shift(b.states[0].edges, d);
    let none = Seq::<int>::empty();
    lemma_fused_hosts(a, b);
    let p = choose|p: int| #[trigger] n.enters(text, i, p) && n.goes(text, 0, p, n.end, j);
    let k = choose|k: nat| n.path(text, 0, p, n.end, j, k);
    n.lemma_path_within(text, 0, p, n.end, j, k);
    assert(a.enters(text, i, p));
    let w = lemma_leave(n, a, 0, more, text, 0, p, n.end, j, k);
    if w.stayed {
        assert(b.path(text, 0, j, 0, j, 0));
        assert(b.enters(text, j, j));
        j
    } else {
        lemma_hosted_edge(n, b, d, none, 0, w.to);
        assert(b.step(text, 0, w.at, w.to - d, w.pos));
        lemma_leave(n, b, d, none, text, w.to - d, w.pos, n.end, j, w.rest);
        assert(b.path(text, 0, w.at, 0, w.at, 0));
        b.lemma_path_concat(text, 0, w.at, w.to - d, w.pos, b.end, j, 1, w.rest);
        assert(b.enters(text, w.at, w.at));
        w.at
    }
}

/// A piece that the first of two merged automata with fused `Empty` states
/// admits, followed by a piece that the second admits, is admitted by the
/// two.
pub proof fn lemma_fused_complete(a: NfaView, b: NfaView, text: Seq<char>, i: int, m: int, j: int)
    requires
        a.neat(),
        b.tidy(),
        a.fuses_with(b),
        a.admits(text, i, m),
        b.admits(text, m, j),
    ensures
        spec_merge(a, b).admits(text, i, j),
{
    let n = spec_merge(a, b);
    let d = a.states.len() - 1;
    let more = shift(b.states[0].edges, d);
    let none = Seq::<int>::empty();
    lemma_fused_hosts(a, b);
    let p1 = choose|p: int| #[trigger] a.enters(text, i, p) && a.goes(text, 0, p, a.end, m);
    let k1 = choose|k: nat| a.path(text, 0, p1, a.end, m, k);
    let p2 = choose|p: int| #[trigger] b.enters(text, m, p) && b.goes(text, 0, p, b.end, j);
    let k2 = choose|k: nat| b.path(text, 0, p2, b.end, j, k);
    lemma_embed(n, a, 0, more, text, 0, p1, a.end, m, k1);
    lemma_embed(n, b, d, none, text, 0, m, b.end, j, k2);
    assert(n.enters(text, i, p1));
    n.lemma_path_concat(text, 0, p1, d, m, n.end, j, k1, k2);
}

} // verus!
