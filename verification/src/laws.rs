//! General facts about compiling and matching.
use vstd::prelude::*;
use crate::construction::{
    lemma_beam_forked,
    lemma_fused_complete,
    lemma_fused_sound,
    lemma_link_complete,
    lemma_link_sound,
    lemma_forked_side,
    lemma_forked_sound,
    lemma_framed_complete,
    lemma_framed_sound,
    lemma_quantifiers_framed,
};
use crate::error::{SyntaxError, SyntaxErrorKind};
use crate::lexer::scanner::{
    initial_scan_state,
    lemma_scan_error_kinds,
    lemma_scan_run_length,
    push_operand,
    scan_run,
    spec_scan,
    ScanState,
};
use crate::lexer::token_type::{Token, TokenType};
use crate::literal::{
    chain,
    character_token,
    is_literal,
    joined,
    lemma_build_literal,
    lemma_chain_is_match,
    lemma_chain_reaches,
    lemma_compile_literal,
    lemma_convert_infix,
    lemma_joined_is_path,
    lemma_seed_path_is_chain,
    literal_atoms,
    occurs_at,
    occurs_in,
};
use crate::meaning::{expr_admits, lemma_build_means, means_expr, pattern_expr};
use crate::parser::nfa::{single, spec_link, spec_merge, NfaView};
use crate::parser::{
    beam_of,
    build_run,
    lemma_beam_wf,
    lemma_build_outcome,
    lemma_build_size,
    lemma_link_wf,
    lemma_merge_wf,
    lemma_quantifier_wf,
    merge_down,
    plus_of,
    question_of,
    seed,
    spec_compile,
    spec_postfix,
    star_of,
};
use crate::postfix_converter::{
    conv_run,
    initial_conv_state,
    lemma_convert_error_kinds,
    lemma_convert_length,
    lemma_convert_no_parens,
    spec_convert,
    ConvState,
};
use crate::semantics::{
    means_concat,
    means_either,
    means_repeated,
    means_token,
    ordered_ranges,
    token_admits,
};

verus! {

/// A text has a match exactly if the list of all its matches is not empty.
pub proof fn law_is_match_iff_some_match(nfa: NfaView, text: Seq<char>)
    ensures
        nfa.is_match(text) <==> nfa.all_matches(text).len() > 0,
{
    if nfa.is_match(text) {
        let (i, j) = choose|i: int, j: int| nfa.accepts(text, i, j);
        nfa.lemma_reaches_within(text, i, nfa.end, j);
        nfa.lemma_match_found(text, 0, i, j);
    }
    if nfa.all_matches(text).len() > 0 {
        nfa.lemma_matches_ordered(text, 0);
        let r = nfa.all_matches(text)[0];
        nfa.lemma_longest_end(text, r.0, text.len() as int);
    }
}

/// The matches of a text are ranges within the text; each begins behind the
/// one before it, and no two overlap.
pub proof fn law_matches_are_ordered(nfa: NfaView, text: Seq<char>)
    ensures
        ordered_ranges(nfa.all_matches(text), 0, text.len() as int),
{
    nfa.lemma_matches_ordered(text, 0);
}

/// Every match is an accepted piece of the text, and the longest one that
/// begins where it begins.
pub proof fn law_matches_are_longest(nfa: NfaView, text: Seq<char>, k: int)
    requires
        0 <= k < nfa.all_matches(text).len(),
    ensures
        nfa.accepts(text, nfa.all_matches(text)[k].0, nfa.all_matches(text)[k].1),
        forall|j: int|
            nfa.all_matches(text)[k].1 < j ==> !nfa.accepts(text, nfa.all_matches(text)[k].0, j),
{
    nfa.lemma_matches_ordered(text, 0);
    let r = nfa.all_matches(text)[k];
    nfa.lemma_longest_end(text, r.0, text.len() as int);
    assert forall|j: int| r.1 < j implies !nfa.accepts(text, r.0, j) by {
        if nfa.accepts(text, r.0, j) {
            nfa.lemma_reaches_within(text, r.0, nfa.end, j);
        }
    }
}

/// Compiling is a function of the pattern: two automata compiled from the
/// same pattern agree on every text.
pub proof fn law_compile_is_deterministic(pattern: Seq<char>, first: NfaView, second: NfaView, text: Seq<char>)
    requires
        spec_compile(pattern) == Ok::<NfaView, SyntaxError>(first),
        spec_compile(pattern) == Ok::<NfaView, SyntaxError>(second),
    ensures
        first.is_match(text) == second.is_match(text),
        first.all_matches(text) == second.all_matches(text),
{
}

/// Joining leaves every state of the first automaton at its index, with its
/// token and with the edges it had; only its accepting state gets edges
/// added.
pub proof fn law_link_keeps_indices(a: NfaView, b: NfaView, i: int)
    requires
        0 <= a.end < a.states.len(),
        b.states.len() > 0,
        0 <= i < a.states.len(),
    ensures
        spec_link(a, b).states.len() >= a.states.len(),
        spec_link(a, b).states[i].token == a.states[i].token,
        a.states[i].edges.is_prefix_of(spec_link(a, b).states[i].edges),
        i != a.end ==> spec_link(a, b).states[i] == a.states[i],
{
}

/// An automaton of one state admits exactly what enters that state: a
/// `Character` state the one code point it names, a `Dot` state any one code
/// point, an `Empty` state the empty piece anywhere, a `Hat` state the empty
/// piece at the start of the text, a `Dollar` state the empty piece at its
/// end.
pub proof fn law_atom_admits(token: Token, text: Seq<char>, i: int, j: int)
    ensures
        single(token).tidy(),
        single(token).admits(text, i, j) <==> token_admits(token.token_type, text, i, j),
{
    let n = single(token);
    if n.admits(text, i, j) {
        let p = choose|p: int| #[trigger] n.enters(text, i, p) && n.goes(text, 0, p, n.end, j);
        let k = choose|k: nat| n.path(text, 0, p, n.end, j, k);
        n.lemma_stuck(text, 0, p, 0, j, k);
    }
    if n.enters(text, i, j) {
        assert(n.path(text, 0, j, 0, j, 0));
    }
}

/// Concatenation: two joined automata admit a piece of text exactly if it
/// splits into a piece that the first admits and a piece that the second
/// admits.
pub proof fn law_link_admits(a: NfaView, b: NfaView, text: Seq<char>, i: int, j: int)
    requires
        a.wf(),
        b.tidy(),
    ensures
        spec_link(a, b).tidy(),
        spec_link(a, b).admits(text, i, j) <==> exists|m: int| #[trigger]
            a.admits(text, i, m) && b.admits(text, m, j),
{
    lemma_link_wf(a, b);
    if spec_link(a, b).admits(text, i, j) {
        lemma_link_sound(a, b, text, i, j);
    }
    if exists|m: int| #[trigger] a.admits(text, i, m) && b.admits(text, m, j) {
        let m = choose|m: int| #[trigger] a.admits(text, i, m) && b.admits(text, m, j);
        lemma_link_complete(a, b, text, i, m, j);
    }
}

/// The automaton of the empty pattern in front changes nothing: joined in
/// front of `x`, it admits exactly what `x` admits.
pub proof fn law_seed_in_front(x: NfaView, text: Seq<char>, i: int, j: int)
    requires
        x.tidy(),
    ensures
        spec_link(seed(), x).admits(text, i, j) <==> x.admits(text, i, j),
{
    law_link_admits(seed(), x, text, i, j);
    if spec_link(seed(), x).admits(text, i, j) {
        let m = choose|m: int| #[trigger] seed().admits(text, i, m) && x.admits(text, m, j);
        law_atom_admits(crate::parser::empty_token(), text, i, m);
    }
    if x.admits(text, i, j) {
        x.lemma_admits_within(text, i, j);
        law_atom_admits(crate::parser::empty_token(), text, i, i);
    }
}

/// Concatenation: two merged automata admit a piece of text exactly if it
/// splits into a piece that the first admits and a piece that the second
/// admits.  Where the merge fuses two `Empty` states, this needs the first
/// automaton to have its accepting state last, with no edge leaving it; the
/// builder merges no other.
pub proof fn law_concat_admits(a: NfaView, b: NfaView, text: Seq<char>, i: int, j: int)
    requires
        a.wf(),
        b.tidy(),
        a.fuses_with(b) ==> a.neat(),
    ensures
        spec_merge(a, b).tidy(),
        b.neat() ==> spec_merge(a, b).neat(),
        spec_merge(a, b).admits(text, i, j) <==> exists|m: int| #[trigger]
            a.admits(text, i, m) && b.admits(text, m, j),
{
    lemma_merge_wf(a, b);
    if a.fuses_with(b) {
        if spec_merge(a, b).admits(text, i, j) {
            lemma_fused_sound(a, b, text, i, j);
        }
        if exists|m: int| #[trigger] a.admits(text, i, m) && b.admits(text, m, j) {
            let m = choose|m: int| #[trigger] a.admits(text, i, m) && b.admits(text, m, j);
            lemma_fused_complete(a, b, text, i, m, j);
        }
    } else {
        law_link_admits(a, b, text, i, j);
    }
}

/// Alternation: the automaton of `x|y` admits a piece of text exactly if `x`
/// admits it or `y` admits it.
pub proof fn law_beam_admits(x: NfaView, y: NfaView, text: Seq<char>, i: int, j: int)
    requires
        x.tidy(),
        y.tidy(),
    ensures
        beam_of(x, y).tidy(),
        beam_of(x, y).admits(text, i, j) <==> x.admits(text, i, j) || y.admits(text, i, j),
{
    lemma_beam_wf(x, y);
    lemma_beam_forked(x, y);
    let n = beam_of(x, y);
    if n.admits(text, i, j) {
        lemma_forked_sound(n, x, y, text, i, j);
    }
    if x.admits(text, i, j) {
        lemma_forked_side(n, x, y, x, 1, text, i, j);
    }
    if y.admits(text, i, j) {
        lemma_forked_side(n, x, y, y, x.states.len() as int + 1, text, i, j);
    }
}

/// What the frame of `x` admits: see [`law_star_admits`],
/// [`law_plus_admits`] and [`law_question_admits`].
proof fn lemma_framed_admits(n: NfaView, x: NfaView, loops: bool, skips: bool, text: Seq<char>, i: int, j: int)
    requires
        x.tidy(),
        crate::construction::framed(n, x, loops, skips),
    ensures
        n.admits(text, i, j) <==> exists|count: nat|
            x.repeats(text, i, j, count) && (skips || count >= 1) && (loops || count <= 1),
{
    if n.admits(text, i, j) {
        let p = choose|p: int| #[trigger] n.enters(text, i, p) && n.goes(text, 0, p, n.end, j);
        let k = choose|k: nat| n.path(text, 0, p, n.end, j, k);
        lemma_framed_sound(n, x, loops, skips, text, i, j, k);
    }
    if exists|count: nat| x.repeats(text, i, j, count) && (skips || count >= 1) && (loops || count <= 1) {
        let count = choose|count: nat|
            x.repeats(text, i, j, count) && (skips || count >= 1) && (loops || count <= 1);
        lemma_framed_complete(n, x, loops, skips, text, i, j, count);
        x.lemma_repeats_within(text, i, j, count);
        assert(n.enters(text, i, i));
    }
}

/// Star: the automaton of `x*` admits a piece of text exactly if it splits
/// into zero or more pieces, each of which `x` admits.
pub proof fn law_star_admits(x: NfaView, text: Seq<char>, i: int, j: int)
    requires
        x.tidy(),
    ensures
        star_of(x).tidy(),
        star_of(x).admits(text, i, j) <==> exists|count: nat| x.repeats(text, i, j, count),
{
    lemma_quantifier_wf(x);
    lemma_quantifiers_framed(x);
    lemma_framed_admits(star_of(x), x, true, true, text, i, j);
}

/// Plus: the automaton of `x+` admits a piece of text exactly if it splits
/// into one or more pieces, each of which `x` admits.
pub proof fn law_plus_admits(x: NfaView, text: Seq<char>, i: int, j: int)
    requires
        x.tidy(),
    ensures
        plus_of(x).tidy(),
        plus_of(x).admits(text, i, j) <==> exists|count: nat|
            count >= 1 && x.repeats(text, i, j, count),
{
    lemma_quantifier_wf(x);
    lemma_quantifiers_framed(x);
    lemma_framed_admits(plus_of(x), x, true, false, text, i, j);
}

/// Question mark: the automaton of `x?` admits a piece of text exactly if it
/// is empty or `x` admits it.
pub proof fn law_question_admits(x: NfaView, text: Seq<char>, i: int, j: int)
    requires
        x.tidy(),
    ensures
        question_of(x).tidy(),
        question_of(x).admits(text, i, j) <==> (i == j && 0 <= i <= text.len()) || x.admits(
            text,
            i,
            j,
        ),
{
    lemma_quantifier_wf(x);
    lemma_quantifiers_framed(x);
    lemma_framed_admits(question_of(x), x, false, true, text, i, j);
    if x.admits(text, i, j) {
        x.lemma_admits_within(text, i, j);
        assert(x.repeats(text, j, j, 0));
        assert(x.repeats(text, i, j, 1));
    }
    if i == j && 0 <= i <= text.len() {
        assert(x.repeats(text, i, j, 0));
    }
    if question_of(x).admits(text, i, j) {
        let count = choose|count: nat| x.repeats(text, i, j, count) && count <= 1;
        if count == 1 {
            // one piece is the whole
            let m = choose|m: int| #[trigger] x.admits(text, i, m) && x.repeats(text, m, j, 0);
            assert(m == j);
        }
    }
}

/// [`law_atom_admits`] for every piece of every text.
pub proof fn lemma_atom_means(token: Token)
    ensures
        means_token(single(token), token.token_type),
{
    let w = single(token);
    assert forall|text: Seq<char>, i: int, j: int| #[trigger]
        w.admits(text, i, j) <==> token_admits(token.token_type, text, i, j) by {
        law_atom_admits(token, text, i, j);
    }
}

/// [`law_concat_admits`] for every piece of every text.
pub proof fn lemma_merge_means(a: NfaView, b: NfaView)
    requires
        a.wf(),
        b.tidy(),
        a.fuses_with(b) ==> a.neat(),
    ensures
        spec_merge(a, b).tidy(),
        b.neat() ==> spec_merge(a, b).neat(),
        means_concat(spec_merge(a, b), a, b),
{
    let w = spec_merge(a, b);
    lemma_merge_wf(a, b);
    assert forall|text: Seq<char>, i: int, j: int| #[trigger]
        w.admits(text, i, j) <==> exists|m: int| #[trigger]
            a.admits(text, i, m) && b.admits(text, m, j) by {
        law_concat_admits(a, b, text, i, j);
    }
}

/// [`law_link_admits`] for every piece of every text.
pub proof fn lemma_link_means(a: NfaView, b: NfaView)
    requires
        a.wf(),
        b.tidy(),
    ensures
        means_concat(spec_link(a, b), a, b),
{
    let w = spec_link(a, b);
    assert forall|text: Seq<char>, i: int, j: int| #[trigger]
        w.admits(text, i, j) <==> exists|m: int| #[trigger]
            a.admits(text, i, m) && b.admits(text, m, j) by {
        law_link_admits(a, b, text, i, j);
    }
}

/// [`law_beam_admits`] for every piece of every text.
pub proof fn lemma_beam_means(x: NfaView, y: NfaView)
    requires
        x.tidy(),
        y.tidy(),
    ensures
        means_either(beam_of(x, y), x, y),
{
    let w = beam_of(x, y);
    assert forall|text: Seq<char>, i: int, j: int| #[trigger]
        w.admits(text, i, j) <==> x.admits(text, i, j) || y.admits(text, i, j) by {
        law_beam_admits(x, y, text, i, j);
    }
}

/// [`law_star_admits`], [`law_plus_admits`] and [`law_question_admits`] for
/// every piece of every text.
pub proof fn lemma_quantifiers_mean(x: NfaView)
    requires
        x.tidy(),
    ensures
        means_repeated(star_of(x), x, 0, false),
        means_repeated(plus_of(x), x, 1, false),
        means_repeated(question_of(x), x, 0, true),
{
    lemma_quantifiers_framed(x);
    assert forall|text: Seq<char>, i: int, j: int| #[trigger]
        star_of(x).admits(text, i, j) <==> exists|count: nat|
            x.repeats(text, i, j, count) && count >= 0 && (false ==> count <= 1) by {
        lemma_framed_admits(star_of(x), x, true, true, text, i, j);
    }
    assert forall|text: Seq<char>, i: int, j: int| #[trigger]
        plus_of(x).admits(text, i, j) <==> exists|count: nat|
            x.repeats(text, i, j, count) && count >= 1 && (false ==> count <= 1) by {
        lemma_framed_admits(plus_of(x), x, true, false, text, i, j);
    }
    assert forall|text: Seq<char>, i: int, j: int| #[trigger]
        question_of(x).admits(text, i, j) <==> exists|count: nat|
            x.repeats(text, i, j, count) && count >= 0 && (true ==> count <= 1) by {
        lemma_framed_admits(question_of(x), x, false, true, text, i, j);
    }
}

/// An automaton whose entry is `Empty`, as every compiled automaton's is,
/// accepts a piece of text when it is run exactly if it admits the piece as a
/// part of a larger automaton would.
pub proof fn law_accepts_what_it_admits(nfa: NfaView, text: Seq<char>, i: int, j: int)
    requires
        nfa.states[0].token.token_type is Empty,
    ensures
        nfa.accepts(text, i, j) <==> nfa.admits(text, i, j),
{
    nfa.lemma_accepts_is_admits(text, i, j);
}

/// What compiling can give: an automaton that is well-formed and begins with
/// an `Empty` entry, or an error of the scanner, the converter or the
/// builder.  A token that has no place in a postfix stream never reaches the
/// builder.
pub proof fn law_compile_outcome(pattern: Seq<char>)
    ensures
        match spec_compile(pattern) {
            Ok(n) => n.wf() && n.states[0].token.token_type is Empty,
            Err(e) => e.kind != SyntaxErrorKind::UnexpectedToken,
        },
{
    lemma_scan_error_kinds(initial_scan_state(), pattern, pattern.len());
    match spec_scan(pattern) {
        Ok(tokens) => {
            lemma_convert_error_kinds(tokens);
            match spec_convert(tokens) {
                Ok(postfix) => {
                    lemma_convert_no_parens(tokens);
                    lemma_build_outcome(postfix);
                },
                Err(e) => {},
            }
        },
        Err(e) => {},
    }
}

/// A pattern compiles exactly if its postfix form is an expression, and the
/// automaton it compiles to accepts a piece of text exactly if the expression
/// admits it.
pub proof fn law_compile_means(pattern: Seq<char>, text: Seq<char>, i: int, j: int)
    ensures
        match spec_compile(pattern) {
            Ok(n) => {
                &&& pattern_expr(pattern) is Some
                &&& means_expr(n, pattern_expr(pattern)->0)
                &&& n.accepts(text, i, j) <==> expr_admits(pattern_expr(pattern)->0, text, i, j)
            },
            Err(e) => pattern_expr(pattern) is None,
        },
{
    law_compile_outcome(pattern);
    match spec_postfix(pattern) {
        Ok(postfix) => {
            lemma_build_means(postfix);
            if spec_compile(pattern) is Ok {
                spec_compile(pattern)->Ok_0.lemma_accepts_is_admits(text, i, j);
            }
        },
        Err(e) => {},
    }
}

/// The automaton of a pattern has at most six states for every code point of
/// the pattern, and one more.
pub proof fn law_state_bound(pattern: Seq<char>)
    ensures
        spec_compile(pattern) matches Ok(n) ==> n.states.len() <= 6 * pattern.len() + 1,
{
    lemma_scan_run_length(initial_scan_state(), pattern, pattern.len());
    match spec_scan(pattern) {
        Ok(tokens) => {
            lemma_convert_length(tokens);
            match spec_convert(tokens) {
                Ok(postfix) => {
                    lemma_build_size(postfix);
                },
                Err(e) => {},
            }
        },
        Err(e) => {},
    }
}

/// A pattern without metacharacters compiles, and it matches a text exactly
/// if it is a contiguous piece of the text.
pub proof fn law_literal_matches_where_it_occurs(pattern: Seq<char>, text: Seq<char>)
    requires
        is_literal(pattern),
    ensures
        spec_compile(pattern) is Ok,
        spec_compile(pattern)->Ok_0.is_match(text) <==> occurs_in(pattern, text),
{
    lemma_compile_literal(pattern);
    lemma_chain_is_match(literal_atoms(pattern), pattern, text);
}

/// The automaton of a backslash and one more code point.
proof fn lemma_compile_escaped(m: char)
    ensures
        spec_compile(seq!['\\', m]) == Ok::<NfaView, SyntaxError>(chain(seq![character_token(1, m)])),
{
    let pattern = seq!['\\', m];
    let st0 = initial_scan_state();
    let st1 = ScanState { tokens: Seq::empty(), escaped: true, concat_next: false };
    let atoms = seq![character_token(1, m)];
    assert(scan_run(st0, pattern, 0) == Ok::<ScanState, SyntaxError>(st0));
    assert(scan_run(st0, pattern, 1) == Ok::<ScanState, SyntaxError>(st1));
    lemma_convert_infix(atoms);
    lemma_build_literal(atoms);
}

/// A backslash makes the code point behind it a literal, whatever it means
/// unescaped: the pattern of a backslash and `m` matches a text exactly if
/// `m` occurs in it.  So it matches the text that consists of `m` alone, and
/// it does not match the empty text.
pub proof fn law_escape_is_literal(m: char, text: Seq<char>)
    ensures
        spec_compile(seq!['\\', m]) is Ok,
        spec_compile(seq!['\\', m])->Ok_0.is_match(text) <==> occurs_in(seq![m], text),
        spec_compile(seq!['\\', m])->Ok_0.is_match(seq![m]),
        !spec_compile(seq!['\\', m])->Ok_0.is_match(Seq::empty()),
{
    lemma_compile_escaped(m);
    let atoms = seq![character_token(1, m)];
    let chars = seq![m];
    lemma_chain_is_match(atoms, chars, text);
    lemma_chain_is_match(atoms, chars, chars);
    lemma_chain_is_match(atoms, chars, Seq::empty());
    assert(occurs_at(chars, chars, 0)) by {
        assert(chars.subrange(0, 1) =~= chars);
    }
}

/// The longest piece that the automaton of the empty pattern accepts at a
/// position is the empty piece there.
proof fn lemma_seed_longest(text: Seq<char>, c: int, q: int)
    requires
        0 <= c <= q <= text.len(),
    ensures
        chain(Seq::<Token>::empty()).longest_end(text, c, q) == Some(c),
    decreases q - c,
{
    let atoms = Seq::<Token>::empty();
    let chars = Seq::<char>::empty();
    let n = chain(atoms);
    lemma_chain_reaches(atoms, chars, text, c, n.end, q);
    if q > c {
        lemma_seed_longest(text, c, q - 1);
    } else {
        assert(text.subrange(c, c) =~= chars.take(0));
    }
}

/// The matches of the empty pattern from position `c` on.
proof fn lemma_seed_matches(text: Seq<char>, c: int)
    requires
        0 <= c <= text.len(),
    ensures
        chain(Seq::<Token>::empty()).matches_from(text, c) == Seq::new(
            (text.len() - c + 1) as nat,
            |k: int| (c + k, c + k),
        ),
    decreases text.len() - c,
{
    let n = chain(Seq::<Token>::empty());
    lemma_seed_longest(text, c, text.len() as int);
    if c < text.len() {
        lemma_seed_matches(text, c + 1);
    }
    assert(n.matches_from(text, c) == seq![(c, c)] + n.matches_from(text, c + 1));
}

/// The empty pattern compiles to an automaton that accepts the empty piece at
/// every position of a text and nothing else: a text of `n` code points has
/// the `n + 1` empty matches `(0, 0)`, ..., `(n, n)`.
pub proof fn law_empty_pattern_matches_everywhere(text: Seq<char>)
    ensures
        spec_compile(Seq::empty()) is Ok,
        spec_compile(Seq::empty())->Ok_0.all_matches(text) == Seq::new(
            text.len() + 1,
            |k: int| (k, k),
        ),
        spec_compile(Seq::empty())->Ok_0.is_match(text),
{
    let pattern = Seq::<char>::empty();
    lemma_compile_literal(pattern);
    lemma_seed_matches(text, 0);
    let n = chain(Seq::<Token>::empty());
    law_is_match_iff_some_match(n, text);
}

/// The two tokens of the pattern `^$`.
spec fn hat_dollar() -> Seq<Token> {
    seq![
        Token { pos: 0, token_type: TokenType::Hat },
        Token { pos: 1, token_type: TokenType::Dollar },
    ]
}

/// The automaton of the pattern `^$`.
proof fn lemma_compile_hat_dollar()
    ensures
        spec_compile(seq!['^', '$']) == Ok::<NfaView, SyntaxError>(chain(hat_dollar())),
{
    let pattern = seq!['^', '$'];
    let atoms = hat_dollar();
    let hat = atoms[0];
    let dollar = atoms[1];
    // the scanner
    let st0 = initial_scan_state();
    let st1 = ScanState { tokens: seq![hat], escaped: false, concat_next: false };
    assert(scan_run(st0, pattern, 0) == Ok::<ScanState, SyntaxError>(st0));
    assert(scan_run(st0, pattern, 1) == Ok::<ScanState, SyntaxError>(st1));
    assert(push_operand(st1.tokens, false, 1, TokenType::Dollar) =~= atoms);
    // the converter
    let c0 = initial_conv_state();
    let c1 = ConvState { output: seq![hat], symbols: Seq::empty() };
    assert(conv_run(c0, atoms, 0) == Ok::<ConvState, SyntaxError>(c0));
    assert(conv_run(c0, atoms, 1) == Ok::<ConvState, SyntaxError>(c1));
    // the builder
    let b0 = seq![seed()];
    let b1 = seq![seed(), single(hat)];
    let b2 = seq![seed(), single(hat), single(dollar)];
    assert(build_run(b0, atoms, 0) == Ok::<Seq<NfaView>, SyntaxError>(b0));
    assert(b0.push(single(hat)) =~= b1);
    assert(build_run(b0, atoms, 1) == Ok::<Seq<NfaView>, SyntaxError>(b1));
    assert(b1.push(single(dollar)) =~= b2);
    // joining what is left on the stack
    let hd = spec_merge(single(hat), single(dollar));
    assert(b2.drop_last() =~= b1);
    assert(b1.drop_last() =~= b0);
    assert(b0.drop_last() =~= Seq::<NfaView>::empty());
    assert(merge_down(b0, hd) == merge_down(Seq::<NfaView>::empty(), spec_merge(seed(), hd)));
    assert(joined(atoms.drop_last()) == single(hat));
    lemma_joined_is_path(atoms);
    lemma_seed_path_is_chain(atoms);
}

/// The pattern `^$` matches the empty text and no other.
pub proof fn law_hat_dollar_matches_only_empty_text(text: Seq<char>)
    ensures
        spec_compile(seq!['^', '$']) is Ok,
        spec_compile(seq!['^', '$'])->Ok_0.is_match(text) <==> text.len() == 0,
{
    lemma_compile_hat_dollar();
    let atoms = hat_dollar();
    let n = chain(atoms);
    let len = text.len() as int;
    if text.len() == 0 {
        assert(n.eps_path(0, 0, 0, 0, 0));
        assert(n.states[0].edges[0] == 1);
        assert(n.eps_step(0, 1, 0, 0));
        assert(n.eps_path(0, 1, 0, 0, 1));
        assert(n.states[1].edges[0] == 2);
        assert(n.eps_step(1, 2, 0, 0));
        assert(n.eps_path(0, 2, 0, 0, 2));
        assert(n.accepts(text, 0, 0));
    }
    if n.is_match(text) {
        let (i, j) = choose|i: int, j: int| n.accepts(text, i, j);
        // no state of this automaton is entered by reading, so the run stands
        // where it began; it enters the `$` state, so it stands at the end of
        // the text, and it has passed the `^` state, so it stands at the
        // start
        if j <= i {
            let k = choose|k: nat| n.eps_path(0, 2, i, len, k);
            let m = choose|m: int|
                n.eps_path(0, m, i, len, (k - 1) as nat) && #[trigger] n.eps_step(m, 2, i, len);
            assert(m == 1 && i == len);
        }
    }
}

} // verus!
