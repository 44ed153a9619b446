//! Patterns that are a plain sequence of operands.
//!
//! A pattern without operators compiles to a chain: an `Empty` entry and one
//! state per operand, each with a single edge to the next.  This module
//! follows such a pattern through the three stages of compilation and says
//! which pieces of a text a chain of characters accepts.
use vstd::prelude::*;
use crate::error::SyntaxError;
use crate::lexer::scanner::{
    initial_scan_state,
    scan_run,
    ScanState,
};
use crate::lexer::token_type::{Token, TokenType};
use crate::parser::nfa::{single, spec_merge, NfaView};
use crate::parser::state::StateView;
use crate::parser::{build_run, empty_token, merge_down, seed, spec_build};
use crate::postfix_converter::{
    conv_run,
    drain,
    initial_conv_state,
    pop_while,
    spec_convert,
    ConvState,
};

verus! {

/// Whether `c` has a meaning of its own in a pattern.
pub open spec fn is_metacharacter(c: char) -> bool {
    c == '.' || c == '*' || c == '+' || c == '?' || c == '|' || c == '(' || c == ')' || c == '^'
        || c == '$' || c == '\\'
}

/// Whether `chars` holds no metacharacter.
pub open spec fn is_literal(chars: Seq<char>) -> bool {
    forall|k: int| 0 <= k < chars.len() ==> !is_metacharacter(#[trigger] chars[k])
}

/// Whether `s` stands in `text` at position `i`.
pub open spec fn occurs_at(s: Seq<char>, text: Seq<char>, i: int) -> bool {
    0 <= i && i + s.len() <= text.len() && text.subrange(i, i + s.len()) == s
}

/// Whether `s` is a contiguous piece of `text`.
pub open spec fn occurs_in(s: Seq<char>, text: Seq<char>) -> bool {
    exists|i: int| occurs_at(s, text, i)
}

/// The `Concat` token that the scanner puts in front of the operand `t`.
pub open spec fn concat_before(t: Token) -> Token {
    Token { pos: t.pos, token_type: TokenType::Concat }
}

/// The token of the character `c` at column `pos`.
pub open spec fn character_token(pos: usize, c: char) -> Token {
    Token { pos, token_type: TokenType::Character(c) }
}

/// The character tokens of `chars`, each at its column.
pub open spec fn literal_atoms(chars: Seq<char>) -> Seq<Token>
    decreases chars.len(),
{
    if chars.len() == 0 {
        Seq::empty()
    } else {
        literal_atoms(chars.drop_last()).push(
            character_token((chars.len() - 1) as usize, chars.last()),
        )
    }
}

/// The character tokens of `chars` are as many as `chars`, and the token at
/// column `k` is the character there.
pub proof fn lemma_literal_atoms(chars: Seq<char>)
    ensures
        literal_atoms(chars).len() == chars.len(),
        forall|k: int|
            0 <= k < chars.len() ==> #[trigger] literal_atoms(chars)[k] == character_token(
                k as usize,
                chars[k],
            ),
        spells(literal_atoms(chars), chars),
        all_characters(literal_atoms(chars)),
    decreases chars.len(),
{
    if chars.len() > 0 {
        lemma_literal_atoms(chars.drop_last());
    }
}

/// Whether every token of `atoms` is a character.
pub open spec fn all_characters(atoms: Seq<Token>) -> bool {
    forall|k: int| 0 <= k < atoms.len() ==> (#[trigger] atoms[k]).token_type is Character
}

/// Whether `atoms` spells `chars`.
pub open spec fn spells(atoms: Seq<Token>, chars: Seq<char>) -> bool {
    &&& atoms.len() == chars.len()
    &&& forall|k: int|
        0 <= k < atoms.len() ==> (#[trigger] atoms[k]).token_type == TokenType::Character(chars[k])
}

/// The infix form of a sequence of operands: a `Concat` between every two.
pub open spec fn infix_of(atoms: Seq<Token>) -> Seq<Token>
    decreases atoms.len(),
{
    if atoms.len() == 0 {
        Seq::empty()
    } else if atoms.len() == 1 {
        seq![atoms[0]]
    } else {
        infix_of(atoms.drop_last()).push(concat_before(atoms.last())).push(atoms.last())
    }
}

/// The postfix form of a sequence of operands: from the second on, a
/// `Concat` behind every one.
pub open spec fn postfix_of(atoms: Seq<Token>) -> Seq<Token>
    decreases atoms.len(),
{
    if atoms.len() == 0 {
        Seq::empty()
    } else if atoms.len() == 1 {
        seq![atoms[0]]
    } else {
        postfix_of(atoms.drop_last()).push(atoms.last()).push(concat_before(atoms.last()))
    }
}

/// The states of `atoms` in a row, each with an edge to the next.
pub open spec fn path(atoms: Seq<Token>) -> NfaView {
    NfaView {
        states: Seq::new(
            atoms.len(),
            |k: int|
                StateView {
                    token: atoms[k],
                    edges: if k < atoms.len() - 1 {
                        seq![k + 1]
                    } else {
                        Seq::empty()
                    },
                },
        ),
        end: atoms.len() - 1,
    }
}

/// The states of `atoms` in a row behind an `Empty` entry.
pub open spec fn chain(atoms: Seq<Token>) -> NfaView {
    NfaView {
        states: Seq::new(
            atoms.len() + 1,
            |k: int|
                StateView {
                    token: if k == 0 {
                        empty_token()
                    } else {
                        atoms[k - 1]
                    },
                    edges: if k < atoms.len() {
                        seq![k + 1]
                    } else {
                        Seq::empty()
                    },
                },
        ),
        end: atoms.len() as int,
    }
}

/// The automata of `atoms` joined one behind the other, from the left.
pub open spec fn joined(atoms: Seq<Token>) -> NfaView
    recommends
        atoms.len() > 0,
    decreases atoms.len(),
{
    if atoms.len() <= 1 {
        single(atoms[0])
    } else {
        spec_merge(joined(atoms.drop_last()), single(atoms.last()))
    }
}

/// The scanner turns a pattern without metacharacters into its characters
/// with a `Concat` between every two.
pub proof fn lemma_scan_literal(chars: Seq<char>, n: nat)
    requires
        is_literal(chars),
        n <= chars.len(),
    ensures
        scan_run(initial_scan_state(), chars, n) == Ok::<ScanState, SyntaxError>(
            ScanState {
                tokens: infix_of(literal_atoms(chars).take(n as int)),
                escaped: false,
                concat_next: n > 0,
            },
        ),
    decreases n,
{
    let atoms = literal_atoms(chars);
    lemma_literal_atoms(chars);
    if n > 0 {
        lemma_scan_literal(chars, (n - 1) as nat);
        assert(atoms.take(n as int).drop_last() =~= atoms.take(n - 1));
    }
}

/// Where the operands and the `Concat` tokens stand in an infix form.
pub proof fn lemma_infix_index(atoms: Seq<Token>)
    requires
        atoms.len() > 0,
    ensures
        infix_of(atoms).len() == 2 * atoms.len() - 1,
        forall|k: int| 0 <= k < atoms.len() ==> infix_of(atoms)[2 * k] == atoms[k],
        forall|k: int| 1 <= k < atoms.len() ==> infix_of(atoms)[2 * k - 1] == concat_before(atoms[k]),
    decreases atoms.len(),
{
    if atoms.len() > 1 {
        let head = atoms.drop_last();
        lemma_infix_index(head);
        let t = infix_of(atoms);
        assert forall|k: int| 0 <= k < atoms.len() implies t[2 * k] == atoms[k] by {
            if k < atoms.len() - 1 {
                assert(head[k] == atoms[k]);
            }
        }
        assert forall|k: int| 1 <= k < atoms.len() implies t[2 * k - 1] == concat_before(atoms[k]) by {
            if k < atoms.len() - 1 {
                assert(head[k] == atoms[k]);
            }
        }
    }
}

/// The converter's state after the first `n` operands of an infix form of
/// characters: everything is in the output but the last `Concat`, which waits
/// on the stack.
pub proof fn lemma_convert_prefix(atoms: Seq<Token>, n: nat)
    requires
        all_characters(atoms),
        1 <= n <= atoms.len(),
    ensures
        conv_run(initial_conv_state(), infix_of(atoms), (2 * n - 1) as nat) == Ok::<
            ConvState,
            SyntaxError,
        >(
            ConvState {
                output: postfix_of(atoms.take(n - 1)).push(atoms[n - 1]),
                symbols: if n >= 2 {
                    seq![concat_before(atoms[n - 1])]
                } else {
                    Seq::empty()
                },
            },
        ),
    decreases n,
{
    let t = infix_of(atoms);
    let st0 = initial_conv_state();
    lemma_infix_index(atoms);
    if n == 1 {
        assert(conv_run(st0, t, 0) == Ok::<ConvState, SyntaxError>(st0));
    } else {
        lemma_convert_prefix(atoms, (n - 1) as nat);
        let before = ConvState {
            output: postfix_of(atoms.take(n - 2)).push(atoms[n - 2]),
            symbols: if n - 1 >= 2 {
                seq![concat_before(atoms[n - 2])]
            } else {
                Seq::empty()
            },
        };
        let m: int = 2 * (n - 1) - 1;
        let c = t[m];
        assert(c == concat_before(atoms[n - 1]));
        let a = t[m + 1];
        assert(a == atoms[n - 1]);
        // the `Concat` pushes the one that waits to the output, and waits itself
        let popped = pop_while(before, 2);
        let want_out = postfix_of(atoms.take(n - 1));
        assert(atoms.take(n - 1).drop_last() =~= atoms.take(n - 2));
        if n - 1 >= 2 {
            let mid = ConvState {
                output: before.output.push(concat_before(atoms[n - 2])),
                symbols: before.symbols.drop_last(),
            };
            assert(mid.symbols =~= Seq::<Token>::empty());
            assert(pop_while(mid, 2) == mid);
        }
        let after_concat = ConvState { output: want_out, symbols: popped.symbols.push(c) };
        assert(conv_run(st0, t, (m + 1) as nat) == Ok::<ConvState, SyntaxError>(after_concat));
    }
}

/// The converter turns the infix form of a sequence of characters into its
/// postfix form.
pub proof fn lemma_convert_infix(atoms: Seq<Token>)
    requires
        all_characters(atoms),
    ensures
        spec_convert(infix_of(atoms)) == Ok::<Seq<Token>, SyntaxError>(postfix_of(atoms)),
{
    let n = atoms.len();
    if n > 0 {
        lemma_infix_index(atoms);
        lemma_convert_prefix(atoms, n);
        let end = ConvState {
            output: postfix_of(atoms.take(n - 1)).push(atoms[n - 1]),
            symbols: if n >= 2 {
                seq![concat_before(atoms[n - 1])]
            } else {
                Seq::empty()
            },
        };
        if n >= 2 {
            let mid = ConvState {
                output: end.output.push(concat_before(atoms[n - 1])),
                symbols: end.symbols.drop_last(),
            };
            assert(drain(mid) == Ok::<Seq<Token>, SyntaxError>(mid.output));
        }
    }
}

/// A run of the builder depends only on the tokens it has taken in.
pub proof fn lemma_build_run_prefix(stack: Seq<NfaView>, first: Seq<Token>, second: Seq<Token>, n: nat)
    requires
        n <= first.len(),
        n <= second.len(),
        forall|k: int| 0 <= k < n ==> first[k] == second[k],
    ensures
        build_run(stack, first, n) == build_run(stack, second, n),
    decreases n,
{
    if n > 0 {
        lemma_build_run_prefix(stack, first, second, (n - 1) as nat);
    }
}

/// The builder turns the postfix form of a sequence of characters into one
/// automaton on top of the initial one: the characters joined in a row.
pub proof fn lemma_build_postfix(atoms: Seq<Token>)
    requires
        all_characters(atoms),
        atoms.len() > 0,
    ensures
        build_run(seq![seed()], postfix_of(atoms), postfix_of(atoms).len()) == Ok::<
            Seq<NfaView>,
            SyntaxError,
        >(seq![seed(), joined(atoms)]),
    decreases atoms.len(),
{
    let p = postfix_of(atoms);
    let st = seq![seed()];
    if atoms.len() == 1 {
        assert(st.push(single(atoms[0])) =~= seq![seed(), joined(atoms)]);
    } else {
        let head = atoms.drop_last();
        let q = postfix_of(head);
        lemma_build_postfix(head);
        let m: int = q.len() as int;
        lemma_build_run_prefix(st, p, q, m as nat);
        let s1 = seq![seed(), joined(head)];
        let x = atoms.last();
        let s2 = s1.push(single(x));
        assert(build_run(st, p, (m + 1) as nat) == Ok::<Seq<NfaView>, SyntaxError>(s2));
        let s3 = seq![seed(), joined(atoms)];
        assert(s2.drop_last().drop_last().push(spec_merge(s2[1], s2[2])) =~= s3);
    }
}

/// Operands that are not `Empty`, merged in a row, form a path.
pub proof fn lemma_joined_is_path(atoms: Seq<Token>)
    requires
        atoms.len() > 0,
        forall|k: int| 0 <= k < atoms.len() ==> !((#[trigger] atoms[k]).token_type is Empty),
    ensures
        joined(atoms) == path(atoms),
    decreases atoms.len(),
{
    if atoms.len() == 1 {
        assert(single(atoms[0]).states =~= path(atoms).states);
    } else {
        let head = atoms.drop_last();
        lemma_joined_is_path(head);
        let a = path(head);
        let b = single(atoms.last());
        let m = spec_merge(a, b);
        let want = path(atoms);
        assert forall|k: int| 0 <= k < want.states.len() implies m.states[k] == want.states[k] by {
            if k >= head.len() {
                assert(m.states[k].edges =~= Seq::<int>::empty());
            }
        }
        assert(m.states =~= want.states);
    }
}

/// A path of operands that are not `Empty`, merged behind the initial
/// automaton, is a chain.
pub proof fn lemma_seed_path_is_chain(atoms: Seq<Token>)
    requires
        atoms.len() > 0,
        !(atoms[0].token_type is Empty),
    ensures
        spec_merge(seed(), path(atoms)) == chain(atoms),
{
    let a = seed();
    let b = path(atoms);
    let m = spec_merge(a, b);
    let want = chain(atoms);
    assert forall|k: int| 0 <= k < want.states.len() implies m.states[k] == want.states[k] by {
        if 0 < k < atoms.len() {
            assert(m.states[k].edges =~= seq![k + 1]);
        } else if k > 0 {
            assert(m.states[k].edges =~= Seq::<int>::empty());
        }
    }
    assert(m.states =~= want.states);
}

/// The builder turns the postfix form of a sequence of characters into their
/// chain.
pub proof fn lemma_build_literal(atoms: Seq<Token>)
    requires
        all_characters(atoms),
    ensures
        spec_build(postfix_of(atoms)) == Ok::<NfaView, SyntaxError>(chain(atoms)),
{
    if atoms.len() == 0 {
        assert(seed().states =~= chain(atoms).states);
    } else {
        lemma_build_postfix(atoms);
        lemma_joined_is_path(atoms);
        lemma_seed_path_is_chain(atoms);
        let st = seq![seed(), joined(atoms)];
        assert(merge_down(st.drop_last(), st.last()) == merge_down(
            st.drop_last().drop_last(),
            spec_merge(seed(), joined(atoms)),
        ));
    }
}

/// In a chain of characters nothing is entered without reading.
pub proof fn lemma_chain_eps(atoms: Seq<Token>, s: int, t: int, p: int, len: int, k: nat)
    requires
        all_characters(atoms),
        chain(atoms).eps_path(s, t, p, len, k),
    ensures
        s == t,
        k == 0,
    decreases k,
{
}

/// Where a run of a chain of characters can be: it has read as many code
/// points as the index of its state says, and they are the first characters
/// of the chain.
pub proof fn lemma_chain_reaches(atoms: Seq<Token>, chars: Seq<char>, text: Seq<char>, i: int, t: int, p: int)
    requires
        spells(atoms, chars),
    ensures
        chain(atoms).reaches(text, i, t, p) <==> (0 <= i <= p <= text.len() && t == p - i && t
            <= chars.len() && text.subrange(i, p) == chars.take(t)),
    decreases p - i,
{
    let n = chain(atoms);
    let len = text.len() as int;
    if 0 <= i <= p <= len {
        if p == i {
            if n.reaches(text, i, t, p) {
                let k = choose|k: nat| n.eps_path(0, t, p, len, k);
                lemma_chain_eps(atoms, 0, t, p, len, k);
                assert(text.subrange(i, p) =~= chars.take(0));
            }
            if t == 0 {
                n.lemma_eps_refl(0, p, len);
            }
        } else {
            let c = text[p - 1];
            if n.reaches(text, i, t, p) {
                let (u, s) = choose|u: int, s: int|
                    n.reaches(text, i, u, p - 1) && #[trigger] n.char_step(u, s, c) && n.eps_reaches(
                        s,
                        t,
                        p,
                        len,
                    );
                lemma_chain_reaches(atoms, chars, text, i, u, p - 1);
                let k = choose|k: nat| n.eps_path(s, t, p, len, k);
                lemma_chain_eps(atoms, s, t, p, len, k);
                assert(text.subrange(i, p) =~= text.subrange(i, p - 1).push(c));
                assert(chars.take(t) =~= chars.take(u).push(chars[u]));
            }
            if t == p - i && t <= chars.len() && text.subrange(i, p) == chars.take(t) {
                let u = t - 1;
                lemma_chain_reaches(atoms, chars, text, i, u, p - 1);
                assert(text.subrange(i, p - 1) =~= chars.take(u));
                assert(text.subrange(i, p)[u] == chars.take(t)[u]);
                assert(n.states[u].edges[0] == t);
                assert(n.char_step(u, t, c));
                n.lemma_eps_refl(t, p, len);
            }
        }
    }
}

/// A chain of characters accepts exactly the pieces of a text that spell
/// them.
pub proof fn lemma_chain_is_match(atoms: Seq<Token>, chars: Seq<char>, text: Seq<char>)
    requires
        spells(atoms, chars),
    ensures
        chain(atoms).is_match(text) <==> occurs_in(chars, text),
{
    let n = chain(atoms);
    if n.is_match(text) {
        let (i, j) = choose|i: int, j: int| n.accepts(text, i, j);
        lemma_chain_reaches(atoms, chars, text, i, n.end, j);
        assert(chars.take(chars.len() as int) =~= chars);
        assert(occurs_at(chars, text, i));
    }
    if occurs_in(chars, text) {
        let i = choose|i: int| occurs_at(chars, text, i);
        let j = i + chars.len();
        lemma_chain_reaches(atoms, chars, text, i, n.end, j);
        assert(chars.take(chars.len() as int) =~= chars);
        assert(n.accepts(text, i, j));
    }
}

/// A pattern without metacharacters compiles to the chain of its characters.
pub proof fn lemma_compile_literal(chars: Seq<char>)
    requires
        is_literal(chars),
    ensures
        crate::parser::spec_compile(chars) == Ok::<NfaView, SyntaxError>(chain(literal_atoms(chars))),
        spells(literal_atoms(chars), chars),
{
    let atoms = literal_atoms(chars);
    lemma_literal_atoms(chars);
    lemma_scan_literal(chars, chars.len());
    assert(atoms.take(chars.len() as int) =~= atoms);
    lemma_convert_infix(atoms);
    lemma_build_literal(atoms);
}

} // verus!


