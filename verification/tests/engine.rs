use rare::error::{SyntaxError, SyntaxErrorKind};
use rare::parser::Parser;
use rare::rare::RARE;

fn engine(pattern: &str) -> RARE {
    match RARE::new(pattern) {
        Ok(e) => e,
        Err(e) => panic!("{} at {}", e.message(), e.pos),
    }
}

fn ranges(pattern: &str, text: &str) -> Vec<(usize, usize)> {
    let mut v = Vec::new();
    engine(pattern).write_match_all(text, &mut v);
    v
}

#[test]
fn test_regex_matcher_simple() {
    let regex = "ab+|c+";
    println!("Regex: {regex}");

    let mut parser = match Parser::new(regex) {
        Ok(p) => p,
        Err(e) => panic!("{}", e.message()),
    };

    let ret_ex = match parser.parse() {
        Ok(r) => r,
        Err(e) => panic!("{}", e.message()),
    };
    assert!(ret_ex.is_match("abbbbbb"));
    assert!(ret_ex.is_match("bccccccccc"));
    // because 'a' still matches, what comes after doesn't matter.
    assert!(!ret_ex.is_match("adbbbbb"));
    // note: since part of the string still matches the entire regex.
    assert!(ret_ex.is_match("abc"));
}

#[test]
fn test_regex_matcher_less_simple() {
    let regex = "\\.(c(xx|pp)|h(xx|pp))+";
    let mut parser = match Parser::new(regex) {
        Ok(p) => p,
        Err(e) => panic!("{}", e.message()),
    };
    let regex = match parser.parse() {
        Ok(r) => r,
        Err(e) => panic!("{}", e.message()),
    };
    assert!(regex.is_match("whatever before isn't important cccccc.cxx and whatever behind here also isn't really important"));
    assert!(regex.is_match(".hcxx.cpp"));
    assert!(!regex.is_match(".hcxx"));
    assert!(regex.is_match(".cpp"));
}

#[test]
fn matcher_stress_test() {
    let regex = "a?a?a?a?a?a?a?a?a?a?a?a?a?a?a?a?a?a?a?a?aaaaaaaaaaaaaaaaaaaa";
    let match_str = "aaaaaaaaaaaaaaaaaaaa";

    let mut parser = match Parser::new(regex) {
        Ok(p) => p,
        Err(e) => panic!("{}", e.message()),
    };
    let regex = match parser.parse() {
        Ok(r) => r,
        Err(e) => panic!("{}", e.message()),
    };
    assert!(regex.is_match(match_str));
    if let Some(pairs) = regex.match_all(match_str) {
        for pair in pairs.iter() {
            println!("({}, {})", pair.0, pair.1);
        }
        assert_eq!(pairs, vec![(0, 20)]);
    } else {
        println!("No match!!!!");
        panic!();
    }
}

#[test]
fn matcher_sus_test() {
    let regex: &str = "^(Never)+";
    let match_str: &str = "Neverrrrrrr";

    let mut parser = match Parser::new(regex) {
        Ok(p) => p,
        Err(e) => panic!("{}", e.message()),
    };
    let regex = match parser.parse() {
        Ok(r) => r,
        Err(e) => panic!("{}", e.message()),
    };
    if let Some(pairs) = regex.match_all(match_str) {
        for pair in pairs.iter() {
            println!("({}, {})", pair.0, pair.1);
        }
        assert_eq!(pairs, vec![(0, 5)]);
    } else {
        println!("No match!!!!");
        panic!();
    }
}

#[test]
fn alternation_matches_whole_text() {
    assert!(engine("ab*c|bcd").is_match("abc"));
    assert_eq!(ranges("ab*c|bcd", "abc"), vec![(0, 3)]);
}

#[test]
fn alternation_without_match() {
    assert!(!engine("ab*c|bcd").is_match("adbbbbb"));
    assert_eq!(ranges("ab*c|bcd", "adbbbbb"), vec![]);
    assert_eq!(engine("ab*c|bcd").match_all("adbbbbb"), None);
}

#[test]
fn escaped_dot_and_nested_groups() {
    assert!(engine("\\.(c(xx|pp)|h(xx|pp))").is_match("foo.cxx bar"));
    assert_eq!(ranges("\\.(c(xx|pp)|h(xx|pp))", "foo.cxx bar"), vec![(3, 7)]);
}

#[test]
fn optional_prefixes() {
    assert!(engine("a?a?a?aaa").is_match("aaa"));
    assert_eq!(ranges("a?a?a?aaa", "aaa"), vec![(0, 3)]);
}

#[test]
fn anchored_repetition() {
    assert!(engine("^(Never)+").is_match("Neverrrrr"));
    assert_eq!(ranges("^(Never)+", "Neverrrrr"), vec![(0, 5)]);
    assert_eq!(ranges("^(Never)+", "NeverNever!"), vec![(0, 10)]);
}

#[test]
fn anchored_repetition_not_at_start() {
    assert!(!engine("^(Never)+").is_match("XNever"));
    assert_eq!(ranges("^(Never)+", "XNever"), vec![]);
}

#[test]
fn hat_dollar_on_empty_and_nonempty_text() {
    assert!(engine("^$").is_match(""));
    assert_eq!(ranges("^$", ""), vec![(0, 0)]);
    assert!(!engine("^$").is_match("a"));
    assert!(!engine("^$").is_match("ab"));
}

#[test]
fn star_matches_empty_text() {
    assert!(engine("a*").is_match(""));
    assert_eq!(ranges("a*", ""), vec![(0, 0)]);
}

#[test]
fn empty_alternative_before_literal() {
    assert!(engine("(a|)b").is_match("b"));
    assert!(engine("(a|)b").is_match("ab"));
    assert_eq!(ranges("(a|)b", "b"), vec![(0, 1)]);
}

#[test]
fn empty_pattern_matches_everywhere() {
    assert_eq!(ranges("", "abc"), vec![(0, 0), (1, 1), (2, 2), (3, 3)]);
    assert_eq!(ranges("", ""), vec![(0, 0)]);
    assert!(engine("").is_match(""));
    assert!(engine("").is_match("xyz"));
}

#[test]
fn match_may_begin_behind_a_false_start() {
    assert!(engine("ab").is_match("aab"));
    assert!(engine("aab").is_match("aaab"));
    assert_eq!(ranges("ab", "aab"), vec![(1, 3)]);
    assert_eq!(ranges("aab", "aaab"), vec![(1, 4)]);
}

#[test]
fn dollar_fires_only_at_the_end() {
    assert!(engine("b$").is_match("ab"));
    assert!(!engine("a$").is_match("ab"));
    assert_eq!(ranges("b$", "abb"), vec![(2, 3)]);
    assert_eq!(ranges("$", "ab"), vec![(2, 2)]);
}

#[test]
fn hat_fires_only_at_the_start() {
    assert!(engine("^a").is_match("ab"));
    assert!(!engine("^b").is_match("ab"));
    assert_eq!(ranges("^", "ab"), vec![(0, 0)]);
}

#[test]
fn dot_reads_any_code_point() {
    assert_eq!(ranges("a.c", "abc a-c ac"), vec![(0, 3), (4, 7)]);
    assert!(!engine(".").is_match(""));
    assert_eq!(ranges(".", "\u{e9}\u{4e16}"), vec![(0, 1), (1, 2)]);
}

#[test]
fn longest_match_is_taken() {
    assert_eq!(ranges("ab+", "abbb"), vec![(0, 4)]);
    assert_eq!(ranges("a+", "aa b aaa"), vec![(0, 2), (5, 8)]);
    assert_eq!(ranges("a|ab", "ab"), vec![(0, 2)]);
    assert_eq!(ranges("a?", "ba"), vec![(0, 0), (1, 2), (2, 2)]);
}

#[test]
fn positions_count_code_points() {
    assert_eq!(ranges("b", "\u{e9}b\u{e9}b"), vec![(1, 2), (3, 4)]);
}

#[test]
fn write_match_all_appends() {
    let mut v = vec![(7, 9)];
    engine("a").write_match_all("banana", &mut v);
    assert_eq!(v, vec![(7, 9), (1, 2), (3, 4), (5, 6)]);
}

#[test]
fn match_all_is_none_without_match() {
    assert_eq!(engine("x").match_all("banana"), None);
    assert_eq!(engine("an").match_all("banana"), Some(vec![(1, 3), (3, 5)]));
}

#[test]
fn epsilon_cycles_terminate() {
    assert!(engine("(a*)*").is_match("aaa"));
    assert_eq!(ranges("(a*)*b", "aab"), vec![(0, 3)]);
    assert_eq!(ranges("(a?)+", "aa"), vec![(0, 2), (2, 2)]);
}

#[test]
fn new_reports_every_kind_of_error() {
    let kind = |p: &str| RARE::new(p).err();
    assert_eq!(kind("*"), Some(SyntaxError::new(0, SyntaxErrorKind::QuantifierWithoutOperand)));
    assert_eq!(kind("a^"), Some(SyntaxError::new(1, SyntaxErrorKind::MisplacedHat)));
    assert_eq!(kind("$a"), Some(SyntaxError::new(0, SyntaxErrorKind::MisplacedDollar)));
    assert_eq!(kind(")"), Some(SyntaxError::new(0, SyntaxErrorKind::UnmatchedRParen)));
    assert_eq!(kind("("), Some(SyntaxError::new(0, SyntaxErrorKind::UnmatchedLParen)));
    assert_eq!(kind("ab\\"), Some(SyntaxError::new(2, SyntaxErrorKind::TrailingEscape)));
    assert_eq!(kind("()()"), Some(SyntaxError::new(2, SyntaxErrorKind::MissingOperand)));
}

#[test]
fn error_messages() {
    assert_eq!(
        SyntaxError::new(0, SyntaxErrorKind::QuantifierWithoutOperand).message(),
        "quantifier at beginning of statement"
    );
    assert_eq!(SyntaxError::new(0, SyntaxErrorKind::MisplacedHat).message(), "^ not at beginning of statement");
    assert_eq!(SyntaxError::new(0, SyntaxErrorKind::MisplacedDollar).message(), "$ not at end");
    assert_eq!(SyntaxError::new(0, SyntaxErrorKind::UnmatchedRParen).message(), "missing a (");
    assert_eq!(SyntaxError::new(0, SyntaxErrorKind::UnmatchedLParen).message(), "extra (");
    assert_eq!(SyntaxError::new(0, SyntaxErrorKind::TrailingEscape).message(), "escape at end of pattern");
    assert_eq!(
        SyntaxError::new(0, SyntaxErrorKind::MissingOperand).message(),
        "insufficient value for operator"
    );
    assert_eq!(
        SyntaxError::new(0, SyntaxErrorKind::UnexpectedToken).message(),
        "unexpected token in postfix stream"
    );
    assert_eq!(SyntaxErrorKind::MisplacedDollar.describe(), "$ not at end");
}

#[test]
fn alternation_with_a_repeated_side() {
    assert_eq!(ranges("a|b*", "bb"), vec![(0, 2), (2, 2)]);
    assert_eq!(ranges("a|b*", "ba"), vec![(0, 1), (1, 2), (2, 2)]);
    assert_eq!(ranges("a|b*", "bba"), vec![(0, 2), (2, 3), (3, 3)]);
    assert_eq!(ranges("a*|b", "ab"), vec![(0, 1), (1, 2), (2, 2)]);
    assert_eq!(ranges("a+|b", "aab"), vec![(0, 2), (2, 3)]);
    assert_eq!(ranges("a|b+", "abba"), vec![(0, 1), (1, 3), (3, 4)]);
}

#[test]
fn alternation_with_a_repeated_side_in_context() {
    assert!(engine("x(a|b+)y").is_match("xbby"));
    assert_eq!(ranges("x(a|b+)y", "xbby"), vec![(0, 4)]);
    assert!(!engine("x(a|b+)y").is_match("xaby"));
    assert!(!engine("^(a|b*)$").is_match("ba"));
    assert!(engine("^(a|b*)$").is_match("bb"));
    assert!(engine("^(a|b*)$").is_match("a"));
    assert!(engine("^(a|b*)$").is_match(""));
    assert!(!engine("^(a*|b)$").is_match("ab"));
    assert!(engine("^(a*|b)$").is_match("aa"));
}

#[test]
fn repeated_group_before_a_repeated_operand() {
    assert_eq!(ranges("(a|b)*c*", "ca"), vec![(0, 1), (1, 2), (2, 2)]);
    assert_eq!(ranges("(a|b)*c*", "abcc"), vec![(0, 4), (4, 4)]);
    assert!(!engine("^(a|b)*c*$").is_match("ca"));
    assert!(engine("^(a|b)*c*$").is_match("bacc"));
    assert!(!engine("^(c|d)*b*$").is_match("bc"));
}

#[test]
fn quantifiers_count_repetitions() {
    assert!(engine("^(ab)*$").is_match(""));
    assert!(engine("^(ab)*$").is_match("abab"));
    assert!(!engine("^(ab)*$").is_match("aba"));
    assert!(!engine("^(ab)+$").is_match(""));
    assert!(engine("^(ab)+$").is_match("ab"));
    assert!(engine("^(ab)+$").is_match("ababab"));
    assert!(engine("^(ab)?$").is_match(""));
    assert!(engine("^(ab)?$").is_match("ab"));
    assert!(!engine("^(ab)?$").is_match("abab"));
    assert!(engine("^a(b|c)d$").is_match("acd"));
    assert!(!engine("^a(b|c)d$").is_match("abcd"));
}
