//! What a pattern means.
//!
//! A postfix token stream is an expression in postfix notation.  This module
//! reads it as one, says which pieces of a text an expression admits, and
//! proves that the automaton built from the stream admits exactly those.
use vstd::prelude::*;
use vstd::pervasive::trigger;
use crate::laws::{
    lemma_atom_means,
    lemma_beam_means,
    lemma_merge_means,
    lemma_quantifiers_mean,
};
use crate::lexer::token_type::{Token, TokenType};
use crate::parser::nfa::{single, spec_merge, NfaView};
use crate::parser::{
    all_wf,
    build_run,
    build_step,
    empty_token,
    lemma_build_step_wf,
    lemma_merge_wf,
    merge_down,
    seed,
    spec_build,
    spec_postfix,
};
use crate::semantics::{means_concat, means_either, means_repeated, means_token, token_admits};

verus! {

/// An expression: what a pattern is once its operators have their operands.
pub enum Expr {
    /// One operand: a character, `.`, `^`, `$`, or nothing at all (`Empty`).
    Token(TokenType),
    /// One expression behind another.
    Then(Box<Expr>, Box<Expr>),
    /// One expression or another.
    Either(Box<Expr>, Box<Expr>),
    /// Zero or more repetitions.
    Star(Box<Expr>),
    /// One or more repetitions.
    Plus(Box<Expr>),
    /// At most one repetition.
    Maybe(Box<Expr>),
}

/// Whether the expression `e` admits `text[i..j]` where it stands in `text`.
pub open spec fn expr_admits(e: Expr, text: Seq<char>, i: int, j: int) -> bool
    decreases e, 0nat,
{
    match e {
        Expr::Token(t) => token_admits(t, text, i, j),
        Expr::Then(a, b) => exists|m: int| #[trigger]
            trigger(m) && expr_admits(*a, text, i, m) && expr_admits(*b, text, m, j),
        Expr::Either(a, b) => expr_admits(*a, text, i, j) || expr_admits(*b, text, i, j),
        Expr::Star(a) => exists|n: nat| #[trigger] trigger(n) && expr_repeats(*a, text, i, j, n),
        Expr::Plus(a) => exists|n: nat| #[trigger]
            trigger(n) && n >= 1 && expr_repeats(*a, text, i, j, n),
        Expr::Maybe(a) => (i == j && 0 <= i <= text.len()) || expr_admits(*a, text, i, j),
    }
}

/// Whether `text[i..j]` splits into exactly `n` pieces, one behind the
/// other, each of which `e` admits.
pub open spec fn expr_repeats(e: Expr, text: Seq<char>, i: int, j: int, n: nat) -> bool
    decreases e, n + 1,
{
    if n == 0 {
        i == j && 0 <= i <= text.len()
    } else {
        exists|m: int| #[trigger]
            trigger(m) && expr_admits(e, text, i, m) && expr_repeats(e, text, m, j, (n - 1) as nat)
    }
}

/// What one postfix token does to a stack of expressions; `None` where the
/// builder fails.
pub open spec fn expr_step(stack: Seq<Expr>, tok: Token) -> Option<Seq<Expr>> {
    let n = stack.len() as int;
    match tok.token_type {
        TokenType::Concat => if n >= 2 {
            Some(
                stack.drop_last().drop_last().push(
                    Expr::Then(Box::new(stack[n - 2]), Box::new(stack[n - 1])),
                ),
            )
        } else {
            None
        },
        TokenType::Beam => if n >= 2 {
            Some(
                stack.drop_last().drop_last().push(
                    Expr::Either(Box::new(stack[n - 2]), Box::new(stack[n - 1])),
                ),
            )
        } else if n == 1 {
            Some(
                stack.drop_last().push(
                    Expr::Either(Box::new(Expr::Token(TokenType::Empty)), Box::new(stack[0])),
                ),
            )
        } else {
            None
        },
        TokenType::Star => if n >= 1 {
            Some(stack.drop_last().push(Expr::Star(Box::new(stack[n - 1]))))
        } else {
            None
        },
        TokenType::Plus => if n >= 1 {
            Some(stack.drop_last().push(Expr::Plus(Box::new(stack[n - 1]))))
        } else {
            None
        },
        TokenType::QuestionMark => if n >= 1 {
            Some(stack.drop_last().push(Expr::Maybe(Box::new(stack[n - 1]))))
        } else {
            None
        },
        TokenType::LParen | TokenType::RParen => None,
        _ => Some(stack.push(Expr::Token(tok.token_type))),
    }
}

/// The stack of expressions after the first `n` tokens of `tokens`.
pub open spec fn expr_run(stack: Seq<Expr>, tokens: Seq<Token>, n: nat) -> Option<Seq<Expr>>
    decreases n,
{
    if n == 0 {
        Some(stack)
    } else {
        match expr_run(stack, tokens, (n - 1) as nat) {
            Some(prev) => expr_step(prev, tokens[n - 1]),
            None => None,
        }
    }
}

/// The expressions of `stack` in front of `acc`, the top one nearest.
pub open spec fn expr_down(stack: Seq<Expr>, acc: Expr) -> Expr
    decreases stack.len(),
{
    if stack.len() == 0 {
        acc
    } else {
        expr_down(stack.drop_last(), Expr::Then(Box::new(stack.last()), Box::new(acc)))
    }
}

/// All expressions of `stack`, one behind the other, bottom first.
pub open spec fn expr_all(stack: Seq<Expr>) -> Expr {
    if stack.len() == 0 {
        Expr::Token(TokenType::Empty)
    } else {
        expr_down(stack.drop_last(), stack.last())
    }
}

/// The expression of a postfix token stream.  It begins with an operand
/// that admits nothing but the empty piece.
pub open spec fn postfix_expr(postfix: Seq<Token>) -> Option<Expr> {
    match expr_run(seq![Expr::Token(TokenType::Empty)], postfix, postfix.len()) {
        Some(end) => Some(expr_all(end)),
        None => None,
    }
}

/// The expression of a pattern.
pub open spec fn pattern_expr(pattern: Seq<char>) -> Option<Expr> {
    match spec_postfix(pattern) {
        Ok(postfix) => postfix_expr(postfix),
        Err(e) => None,
    }
}

/// Whether the automaton `w` means the expression `e`: it admits exactly
/// what `e` admits.
pub open spec fn means_expr(w: NfaView, e: Expr) -> bool {
    forall|text: Seq<char>, i: int, j: int|
        #![trigger w.admits(text, i, j)]
        #![trigger expr_admits(e, text, i, j)]
        w.admits(text, i, j) <==> expr_admits(e, text, i, j)
}

/// Whether every automaton of `stack` means the expression at its place in
/// `exprs`.
pub open spec fn all_mean(stack: Seq<NfaView>, exprs: Seq<Expr>) -> bool {
    &&& stack.len() == exprs.len()
    &&& forall|k: int| 0 <= k < stack.len() ==> means_expr(#[trigger] stack[k], exprs[k])
}

/// An automaton that means `e` admits as many pieces in a row as `e` does.
pub proof fn lemma_repeats_mean(x: NfaView, e: Expr, text: Seq<char>, i: int, j: int, n: nat)
    requires
        means_expr(x, e),
    ensures
        x.repeats(text, i, j, n) <==> expr_repeats(e, text, i, j, n),
    decreases n,
{
    reveal_with_fuel(expr_repeats, 2);
    if n > 0 {
        if x.repeats(text, i, j, n) {
            let m = choose|m: int| #[trigger]
                x.admits(text, i, m) && x.repeats(text, m, j, (n - 1) as nat);
            lemma_repeats_mean(x, e, text, m, j, (n - 1) as nat);
            assert(trigger(m) && expr_admits(e, text, i, m));
        }
        if expr_repeats(e, text, i, j, n) {
            let m = choose|m: int| #[trigger]
                trigger(m) && expr_admits(e, text, i, m) && expr_repeats(
                    e,
                    text,
                    m,
                    j,
                    (n - 1) as nat,
                );
            lemma_repeats_mean(x, e, text, m, j, (n - 1) as nat);
        }
    }
}

/// Two joined automata mean one expression behind the other.
pub proof fn lemma_then_means(w: NfaView, x: NfaView, y: NfaView, ex: Expr, ey: Expr)
    requires
        means_concat(w, x, y),
        means_expr(x, ex),
        means_expr(y, ey),
    ensures
        means_expr(w, Expr::Then(Box::new(ex), Box::new(ey))),
{
    let e = Expr::Then(Box::new(ex), Box::new(ey));
    reveal_with_fuel(expr_admits, 2);
    assert forall|text: Seq<char>, i: int, j: int|
        #![trigger w.admits(text, i, j)]
        #![trigger expr_admits(e, text, i, j)]
        w.admits(text, i, j) <==> expr_admits(e, text, i, j) by {
        if w.admits(text, i, j) {
            let m = choose|m: int| #[trigger] x.admits(text, i, m) && y.admits(text, m, j);
            assert(trigger(m) && expr_admits(ex, text, i, m) && expr_admits(ey, text, m, j));
        }
        if expr_admits(e, text, i, j) {
            let m = choose|m: int| #[trigger]
                trigger(m) && expr_admits(ex, text, i, m) && expr_admits(ey, text, m, j);
        }
    }
}

/// The automaton of an alternation means one expression or the other.
pub proof fn lemma_either_means(w: NfaView, x: NfaView, y: NfaView, ex: Expr, ey: Expr)
    requires
        means_either(w, x, y),
        means_expr(x, ex),
        means_expr(y, ey),
    ensures
        means_expr(w, Expr::Either(Box::new(ex), Box::new(ey))),
{
    reveal_with_fuel(expr_admits, 2);
}

/// The automata of the quantifiers mean the repetitions of an expression.
pub proof fn lemma_repeated_means(w: NfaView, x: NfaView, ex: Expr, least: nat, once: bool)
    requires
        means_repeated(w, x, least, once),
        means_expr(x, ex),
    ensures
        least == 0 && !once ==> means_expr(w, Expr::Star(Box::new(ex))),
        least == 1 && !once ==> means_expr(w, Expr::Plus(Box::new(ex))),
        least == 0 && once ==> means_expr(w, Expr::Maybe(Box::new(ex))),
{
    let star = Expr::Star(Box::new(ex));
    let plus = Expr::Plus(Box::new(ex));
    let maybe = Expr::Maybe(Box::new(ex));
    reveal_with_fuel(expr_admits, 2);
    reveal_with_fuel(expr_repeats, 2);
    assert forall|text: Seq<char>, i: int, j: int|
        (#[trigger] w.admits(text, i, j) <==> exists|count: nat|
            expr_repeats(ex, text, i, j, count) && count >= least && (once ==> count <= 1)) by {
        if w.admits(text, i, j) {
            let count = choose|count: nat|
                x.repeats(text, i, j, count) && count >= least && (once ==> count <= 1);
            lemma_repeats_mean(x, ex, text, i, j, count);
        }
        if exists|count: nat|
            expr_repeats(ex, text, i, j, count) && count >= least && (once ==> count <= 1) {
            let count = choose|count: nat|
                expr_repeats(ex, text, i, j, count) && count >= least && (once ==> count <= 1);
            lemma_repeats_mean(x, ex, text, i, j, count);
        }
    }
    assert forall|text: Seq<char>, i: int, j: int|
        #![trigger w.admits(text, i, j)]
        #![trigger expr_admits(star, text, i, j)]
        #![trigger expr_admits(plus, text, i, j)]
        #![trigger expr_admits(maybe, text, i, j)]
        {
            &&& least == 0 && !once ==> (w.admits(text, i, j) <==> expr_admits(star, text, i, j))
            &&& least == 1 && !once ==> (w.admits(text, i, j) <==> expr_admits(plus, text, i, j))
            &&& least == 0 && once ==> (w.admits(text, i, j) <==> expr_admits(maybe, text, i, j))
        } by {
        if w.admits(text, i, j) {
            let count = choose|count: nat|
                expr_repeats(ex, text, i, j, count) && count >= least && (once ==> count <= 1);
            assert(trigger(count));
        }
        if least == 0 && !once && expr_admits(star, text, i, j) {
            let count = choose|count: nat| #[trigger]
                trigger(count) && expr_repeats(ex, text, i, j, count);
        }
        if least == 1 && !once && expr_admits(plus, text, i, j) {
            let count = choose|count: nat| #[trigger]
                trigger(count) && count >= 1 && expr_repeats(ex, text, i, j, count);
        }
        if least == 0 && once && expr_admits(maybe, text, i, j) {
            if i == j && 0 <= i <= text.len() {
                assert(expr_repeats(ex, text, i, j, 0));
            } else {
                x.lemma_admits_within(text, i, j);
                assert(trigger(j));
                assert(expr_repeats(ex, text, i, j, 1));
            }
        }
    }
}

/// One step of the builder keeps the automata meaning the expressions, and
/// fails exactly where there is no expression.
pub proof fn lemma_step_means(stack: Seq<NfaView>, exprs: Seq<Expr>, tok: Token)
    requires
        all_wf(stack),
        all_mean(stack, exprs),
    ensures
        match build_step(stack, tok) {
            Ok(s) => expr_step(exprs, tok) is Some && all_mean(s, expr_step(exprs, tok)->0)
                && all_wf(s),
            Err(e) => expr_step(exprs, tok) is None,
        },
{
    let n = stack.len() as int;
    if build_step(stack, tok) is Ok {
        lemma_build_step_wf(stack, tok);
        let s = build_step(stack, tok)->Ok_0;
        let top = s.len() - 1;
        match tok.token_type {
            TokenType::Concat => {
                lemma_merge_means(stack[n - 2], stack[n - 1]);
                lemma_then_means(s[top], stack[n - 2], stack[n - 1], exprs[n - 2], exprs[n - 1]);
            },
            TokenType::Beam => {
                if n >= 2 {
                    lemma_beam_means(stack[n - 2], stack[n - 1]);
                    lemma_either_means(
                        s[top],
                        stack[n - 2],
                        stack[n - 1],
                        exprs[n - 2],
                        exprs[n - 1],
                    );
                } else {
                    lemma_atom_means(empty_token());
                    lemma_token_means(seed(), TokenType::Empty);
                    lemma_beam_means(seed(), stack[0]);
                    lemma_either_means(
                        s[top],
                        seed(),
                        stack[0],
                        Expr::Token(TokenType::Empty),
                        exprs[0],
                    );
                }
            },
            TokenType::Star => {
                lemma_quantifiers_mean(stack[n - 1]);
                lemma_repeated_means(s[top], stack[n - 1], exprs[n - 1], 0, false);
            },
            TokenType::Plus => {
                lemma_quantifiers_mean(stack[n - 1]);
                lemma_repeated_means(s[top], stack[n - 1], exprs[n - 1], 1, false);
            },
            TokenType::QuestionMark => {
                lemma_quantifiers_mean(stack[n - 1]);
                lemma_repeated_means(s[top], stack[n - 1], exprs[n - 1], 0, true);
            },
            _ => {
                lemma_atom_means(tok);
                lemma_token_means(single(tok), tok.token_type);
            },
        }
    }
}

/// An automaton that means a token means the expression of that token.
pub proof fn lemma_token_means(w: NfaView, t: TokenType)
    requires
        means_token(w, t),
    ensures
        means_expr(w, Expr::Token(t)),
{
    reveal_with_fuel(expr_admits, 2);
}

/// A run of the builder keeps the automata meaning the expressions, and
/// fails exactly where there is no expression.
pub proof fn lemma_run_means(stack: Seq<NfaView>, exprs: Seq<Expr>, tokens: Seq<Token>, n: nat)
    requires
        all_wf(stack),
        all_mean(stack, exprs),
        n <= tokens.len(),
    ensures
        match build_run(stack, tokens, n) {
            Ok(s) => expr_run(exprs, tokens, n) is Some && all_mean(s, expr_run(exprs, tokens, n)->0)
                && all_wf(s),
            Err(e) => expr_run(exprs, tokens, n) is None,
        },
    decreases n,
{
    if n > 0 {
        lemma_run_means(stack, exprs, tokens, (n - 1) as nat);
        if build_run(stack, tokens, (n - 1) as nat) is Ok {
            lemma_step_means(
                build_run(stack, tokens, (n - 1) as nat)->Ok_0,
                expr_run(exprs, tokens, (n - 1) as nat)->0,
                tokens[n - 1],
            );
        }
    }
}

/// Joining a stack of automata in front of one more gives what the
/// expressions mean one behind the other.
pub proof fn lemma_down_means(stack: Seq<NfaView>, exprs: Seq<Expr>, acc: NfaView, e: Expr)
    requires
        all_wf(stack),
        all_mean(stack, exprs),
        acc.tidy(),
        means_expr(acc, e),
    ensures
        means_expr(merge_down(stack, acc), expr_down(exprs, e)),
        merge_down(stack, acc).tidy(),
    decreases stack.len(),
{
    if stack.len() > 0 {
        let x = stack.last();
        let ex = exprs.last();
        lemma_merge_wf(x, acc);
        lemma_merge_means(x, acc);
        lemma_then_means(spec_merge(x, acc), x, acc, ex, e);
        lemma_down_means(
            stack.drop_last(),
            exprs.drop_last(),
            spec_merge(x, acc),
            Expr::Then(Box::new(ex), Box::new(e)),
        );
    }
}

/// The automaton built from a postfix token stream admits exactly what the
/// expression of the stream admits; and the builder fails exactly where the
/// stream is no expression.
pub proof fn lemma_build_means(postfix: Seq<Token>)
    ensures
        match spec_build(postfix) {
            Ok(n) => postfix_expr(postfix) is Some && means_expr(n, postfix_expr(postfix)->0),
            Err(e) => postfix_expr(postfix) is None,
        },
{
    let stack = seq![seed()];
    let exprs = seq![Expr::Token(TokenType::Empty)];
    lemma_atom_means(empty_token());
    lemma_token_means(seed(), TokenType::Empty);
    lemma_run_means(stack, exprs, postfix, postfix.len());
    if build_run(stack, postfix, postfix.len()) is Ok {
        let s = build_run(stack, postfix, postfix.len())->Ok_0;
        let es = expr_run(exprs, postfix, postfix.len())->0;
        if s.len() > 0 {
            lemma_down_means(s.drop_last(), es.drop_last(), s.last(), es.last());
        }
    }
}

} // verus!

