//! Texts as sequences of code points.
use vstd::prelude::*;
use vstd::string::*;
use crate::lexer::token_type::Token;

verus! {

/// The code points of `s`, in order.
pub fn to_chars(s: &str) -> (v: Vec<char>)
    ensures
        v@ == s@,
{
    let mut v: Vec<char> = Vec::new();
    for c in it: s.chars()
        invariant
            v@ == it.seq().take(it.index() as int),
    {
        v.push(c);
    }
    v
}

/// The piece of `input` from position `beg` up to position `end`, cut off at
/// the end of `input`; `None` if `beg` lies at the end of `input` or behind
/// it.  Positions count code points.
#[inline]
pub fn get_substring(input: &str, beg: usize, end: usize) -> (r: Option<&str>)
    requires
        beg < input@.len() && end < input@.len() ==> beg <= end,
    ensures
        beg >= input@.len() ==> r is None,
        beg < input@.len() ==> r is Some && r->0@ == input@.subrange(
            beg as int,
            if end >= input@.len() {
                input@.len() as int
            } else {
                end as int
            },
        ),
{
    let len: usize = input.unicode_len();
    if beg >= len {
        None
    } else if end >= len {
        Some(input.substring_char(beg, len))
    } else {
        Some(input.substring_char(beg, end))
    }
}

/// `tokens` in reverse order.
pub fn reverse_tokens(tokens: Vec<Token>) -> (reversed: Vec<Token>)
    ensures
        reversed@ == tokens@.reverse(),
{
    let n: usize = tokens.len();
    let mut reversed: Vec<Token> = Vec::new();
    let mut i: usize = n;
    while i > 0
        invariant
            i <= n,
            n == tokens@.len(),
            reversed@.len() == n - i,
            forall|j: int| 0 <= j < reversed@.len() ==> reversed@[j] == tokens@[n - 1 - j],
        decreases i,
    {
        i -= 1;
        reversed.push(tokens[i]);
    }
    reversed
}

} // verus!
