//! Matching that hands out the matched pieces of the text themselves.
use vstd::prelude::*;
use vstd::string::*;
use crate::error::SyntaxError;
use crate::meaning::{means_expr, pattern_expr};
use crate::parser::nfa::{Nfa, NfaView};
use crate::parser::spec_compile;
use crate::rare::{end_view, RARE};
use crate::semantics::{ordered_ranges, ranges_view};
use crate::text::to_chars;

verus! {

/// A compiled pattern whose queries answer with pieces of the text.
pub struct Regex {
    pub(crate) engine: RARE,
}

impl View for Regex {
    type V = NfaView;

    closed spec fn view(&self) -> NfaView {
        self.engine@
    }
}

/// The pieces of `text` that the ranges `ranges` cut out.
pub open spec fn pieces(text: Seq<char>, ranges: Seq<(int, int)>) -> Seq<Seq<char>> {
    ranges.map_values(|r: (int, int)| text.subrange(r.0, r.1))
}

/// The texts of `v`.
pub open spec fn texts(v: Seq<&str>) -> Seq<Seq<char>> {
    v.map_values(|s: &str| s@)
}

impl Regex {
    /// Wraps a well-formed automaton.
    pub fn from_nfa(nfa: Nfa) -> (r: Regex)
        requires
            nfa@.wf(),
        ensures
            r@ == nfa@,
    {
        Regex { engine: RARE::from_nfa(nfa) }
    }

    /// Compiles `regex`, or says what is wrong with it.
    pub fn new(regex: &str) -> (r: Result<Regex, SyntaxError>)
        ensures
            match spec_compile(regex@) {
                Ok(n) => r is Ok && r->Ok_0@ == n && n.wf(),
                Err(e) => r == Err::<Regex, SyntaxError>(e),
            },
            r is Ok ==> pattern_expr(regex@) is Some && means_expr(r->Ok_0@, pattern_expr(regex@)->0),
    {
        match RARE::new(regex) {
            Ok(engine) => Ok(Regex { engine }),
            Err(e) => Err(e),
        }
    }

    /// The first match in `string`: of the accepted pieces that begin
    /// leftmost, the longest.
    pub fn first_match<'a>(&self, string: &'a str) -> (r: Option<&'a str>)
        ensures
            match r {
                Some(s) => self@.all_matches(string@).len() > 0 && s@ == pieces(
                    string@,
                    self@.all_matches(string@),
                )[0],
                None => self@.all_matches(string@).len() == 0,
            },
    {
        let text = to_chars(string);
        self.first_match_priv(string, &text, 0)
    }

    /// The first match in `string` that begins at `pos` or behind it.
    fn first_match_priv<'a>(&self, string: &'a str, text: &Vec<char>, pos: usize) -> (r: Option<&'a str>)
        requires
            text@ == string@,
            pos <= text@.len(),
        ensures
            match r {
                Some(s) => self@.matches_from(string@, pos as int).len() > 0 && s@ == pieces(
                    string@,
                    self@.matches_from(string@, pos as int),
                )[0],
                None => self@.matches_from(string@, pos as int).len() == 0,
            },
    {
        let strlen: usize = text.len();
        let mut at: usize = pos;
        loop
            invariant
                text@ == string@,
                strlen == text@.len(),
                pos <= at <= strlen,
                self@.matches_from(string@, at as int) == self@.matches_from(string@, pos as int),
            decreases strlen - at,
        {
            if let Some(ret) = self.match_step_substr(string, text, at) {
                return Some(ret);
            }
            if at >= strlen {
                assert(self@.matches_from(string@, at as int + 1) =~= Seq::<(int, int)>::empty());
                return None;
            }
            at += 1;
        }
    }

    /// The matches in `string` that begin before its end, as ranges, or
    /// `None` if there is none.  The search is that of [`RARE::match_all`],
    /// but it stops at the end of the text: no match begins there, and the
    /// empty text has no match.
    pub fn match_all_index(&self, string: &str) -> (r: Option<Vec<(usize, usize)>>)
        ensures
            match r {
                Some(v) => v@.len() > 0 && ranges_view(v@) == self@.inner_matches(string@),
                None => self@.inner_matches(string@).len() == 0,
            },
            string@.len() == 0 ==> r is None,
            ordered_ranges(self@.inner_matches(string@), 0, string@.len() as int),
            forall|k: int|
                0 <= k < self@.inner_matches(string@).len() ==> (#[trigger] self@.inner_matches(
                    string@,
                )[k]).0 < string@.len(),
    {
        let text = to_chars(string);
        proof {
            self@.lemma_before_ordered(string@, 0, string@.len() as int);
        }
        let mut ret: Vec<(usize, usize)> = Vec::new();
        self.engine.write_matches_before(&text, text.len(), &mut ret);
        if ret.len() == 0 {
            None
        } else {
            Some(ret)
        }
    }

    /// The matches in `string` that begin before its end, as pieces of it,
    /// from left to right: see [`Regex::match_all_index`].
    pub fn match_all<'a>(&self, string: &'a str) -> (r: Option<Vec<&'a str>>)
        ensures
            match r {
                Some(v) => v@.len() > 0 && texts(v@) == pieces(string@, self@.inner_matches(string@)),
                None => self@.inner_matches(string@).len() == 0,
            },
    {
        let text = to_chars(string);
        let strlen: usize = text.len();
        let mut ret: Vec<&'a str> = Vec::new();
        let mut str_ptr: usize = 0;
        let ghost target = pieces(string@, self@.inner_matches(string@));
        while str_ptr < strlen
            invariant
                strlen == text@.len(),
                text@ == string@,
                str_ptr <= strlen,
                target == pieces(string@, self@.inner_matches(string@)),
                texts(ret@) + pieces(
                    string@,
                    self@.matches_before(text@, str_ptr as int, strlen as int),
                ) == target,
            decreases strlen - str_ptr,
        {
            let longest = self.match_step_index(&text, str_ptr);
            let mut next: usize = str_ptr + 1;
            if let Some(substr_idx) = longest {
                let piece = string.substring_char(str_ptr, substr_idx);
                ret.push(piece);
                if substr_idx > str_ptr {
                    next = substr_idx;
                }
            }
            str_ptr = next;
        }
        if ret.len() == 0 {
            None
        } else {
            Some(ret)
        }
    }

    /// Whether some piece of `string` is accepted.
    pub fn is_match(&self, string: &str) -> (b: bool)
        ensures
            b == (self@.all_matches(string@).len() > 0),
    {
        self.first_match(string).is_some()
    }

    /// The longest accepted piece of `string` that begins at `pos`.
    fn match_step_substr<'a>(&self, string: &'a str, text: &Vec<char>, pos: usize) -> (r: Option<&'a str>)
        requires
            text@ == string@,
            pos <= text@.len(),
        ensures
            match self@.longest_match(string@, pos as int) {
                Some(e) => pos <= e <= string@.len() && r is Some && r->0@ == string@.subrange(
                    pos as int,
                    e,
                ),
                None => r is None,
            },
    {
        if let Some(idx) = self.match_step_index(text, pos) {
            return Some(string.substring_char(pos, idx));
        }
        None
    }

    /// The end of the longest accepted piece of `text` that begins at `pos`.
    fn match_step_index(&self, text: &Vec<char>, pos: usize) -> (r: Option<usize>)
        requires
            pos <= text@.len(),
        ensures
            end_view(r) == self@.longest_match(text@, pos as int),
            r matches Some(e) ==> pos <= e <= text@.len(),
    {
        self.engine.longest_match_at(text, pos)
    }
}

} // verus!
