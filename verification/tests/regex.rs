use rare::parser::nfa::Nfa;
use rare::lexer::token_type::{Token, TokenType};
use rare::regex::Regex;
use rare::text::{get_substring, reverse_tokens, to_chars};

fn regex(pattern: &str) -> Regex {
    match Regex::new(pattern) {
        Ok(r) => r,
        Err(e) => panic!("{}", e.message()),
    }
}

#[test]
fn test_test_regex_matcher_simple() {
    let regex = "ab*c|bcd";
    println!("Regex: {regex}");

    let ret_ex = match Regex::new(regex) {
        Ok(p) => p,
        Err(e) => panic!("{}", e.message()),
    };

    assert!(!ret_ex.is_match("abbbbbb"));
    assert!(!ret_ex.is_match("bccccccccc"));
    // because 'a' still matches, what comes after doesn't matter.
    assert!(!ret_ex.is_match("adbbbbb"));
    // note: since part of the string still matches the entire regex.
    assert!(ret_ex.is_match("abc"));
}

#[test]
fn test_test_regex_matcher_less_simple() {
    let regex = "\\.(c(xx|pp)|h(xx|pp))";
    let regex = match Regex::new(regex) {
        Ok(p) => p,
        Err(e) => panic!("{}", e.message()),
    };
    assert!(regex.is_match("whatever before isn't important cccccc.cxx and whatever behind here also isn't really important"));
    assert!(!regex.is_match(".hcxx"));
    assert!(!regex.is_match(".hcxx"));
    assert!(regex.is_match(".cpp"));
}

#[test]
fn first_match_is_leftmost_and_longest() {
    assert_eq!(regex("ab+").first_match("xabbb ab"), Some("abbb"));
    assert_eq!(regex("b+|ab").first_match("abbb"), Some("ab"));
    assert_eq!(regex("x").first_match("abc"), None);
    assert_eq!(regex("a*").first_match("bbb"), Some(""));
    assert_eq!(regex("c$").first_match("cac"), Some("c"));
}

#[test]
fn match_all_hands_out_the_pieces() {
    assert_eq!(regex("a.").match_all("abacad"), Some(vec!["ab", "ac", "ad"]));
    assert_eq!(regex("\\.(c|h)pp").match_all("a.cpp b.hpp c.cxx"), Some(vec![".cpp", ".hpp"]));
    assert_eq!(regex("x").match_all("abc"), None);
    assert_eq!(regex("\u{e9}+").match_all("caf\u{e9}\u{e9}!"), Some(vec!["\u{e9}\u{e9}"]));
}

#[test]
fn match_all_index_agrees_with_the_engine() {
    assert_eq!(regex("a.").match_all_index("abacad"), Some(vec![(0, 2), (2, 4), (4, 6)]));
    assert_eq!(regex("x").match_all_index("abc"), None);
}

#[test]
fn regex_from_nfa() {
    let mut nfa = Nfa::new(Token::new(0, TokenType::Empty));
    nfa.merge(Nfa::new(Token::new(0, TokenType::Dot)));
    let r = Regex::from_nfa(nfa);
    assert_eq!(r.first_match("xy"), Some("x"));
    assert!(!r.is_match(""));
}

#[test]
fn get_substring_cuts_at_the_end() {
    assert_eq!(get_substring("hello", 1, 3), Some("el"));
    assert_eq!(get_substring("hello", 1, 5), Some("ello"));
    assert_eq!(get_substring("hello", 1, 99), Some("ello"));
    assert_eq!(get_substring("hello", 2, 2), Some(""));
    assert_eq!(get_substring("hello", 5, 7), None);
    assert_eq!(get_substring("", 0, 0), None);
    assert_eq!(get_substring("h\u{e9}llo", 1, 3), Some("\u{e9}l"));
}

#[test]
fn to_chars_lists_code_points() {
    assert_eq!(to_chars("a\u{e9}b"), vec!['a', '\u{e9}', 'b']);
    assert_eq!(to_chars(""), Vec::<char>::new());
}

#[test]
fn reverse_tokens_reverses() {
    let a = Token::new(0, TokenType::Dot);
    let b = Token::new(1, TokenType::Star);
    assert_eq!(reverse_tokens(vec![a, b]), vec![b, a]);
    assert_eq!(reverse_tokens(vec![]), vec![]);
}

#[test]
fn match_all_index_stops_before_the_end() {
    assert_eq!(regex("").match_all_index(""), None);
    assert_eq!(regex("a*").match_all_index(""), None);
    assert_eq!(regex("").match_all_index("ab"), Some(vec![(0, 0), (1, 1)]));
    assert_eq!(regex("a*").match_all_index("aab"), Some(vec![(0, 2), (2, 2)]));
    assert_eq!(regex("$").match_all_index("ab"), None);
    assert_eq!(regex("b$").match_all_index("ab"), Some(vec![(1, 2)]));
    for (s, e) in regex("a?").match_all_index("banana").unwrap() {
        assert!(s < 6 && s <= e && e <= 6);
    }
}

#[test]
fn match_all_stops_before_the_end() {
    assert_eq!(regex("").match_all(""), None);
    assert_eq!(regex("a*").match_all("b"), Some(vec![""]));
    assert_eq!(regex("a*").match_all("ba"), Some(vec!["", "a"]));
    assert_eq!(regex("$").match_all("ab"), None);
}

#[test]
fn first_match_may_begin_at_the_end() {
    assert_eq!(regex("$").first_match("ab"), Some(""));
    assert_eq!(regex("a*").first_match(""), Some(""));
    assert!(regex("$").is_match("ab"));
}
