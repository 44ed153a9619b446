use rare::rare::RARE;

fn engine(pattern: &str) -> RARE {
    match RARE::new(pattern) {
        Ok(e) => e,
        Err(e) => panic!("{} at {}", e.message(), e.pos),
    }
}

const PATTERNS: [&str; 10] =
    ["", "a", "ab", "a*", "a|b", "(a|b)*c", "^a", "b$", "a?b+", ".\\."];
const TEXTS: [&str; 9] = ["", "a", "b", "ab", "ba", "aab", "abcabc", "a.b.", "bbbb"];

#[test]
fn is_match_agrees_with_match_all() {
    for p in PATTERNS.iter() {
        let e = engine(p);
        for t in TEXTS.iter() {
            assert_eq!(e.is_match(t), e.match_all(t).is_some(), "pattern {p:?}, text {t:?}");
        }
    }
}

#[test]
fn matches_are_ordered_and_do_not_overlap() {
    for p in PATTERNS.iter() {
        let e = engine(p);
        for t in TEXTS.iter() {
            let mut v = Vec::new();
            e.write_match_all(t, &mut v);
            for r in v.iter() {
                assert!(r.0 <= r.1 && r.1 <= t.chars().count());
            }
            for w in v.windows(2) {
                assert!(w[0].0 < w[1].0);
                assert!(w[0].1 <= w[1].0);
            }
        }
    }
}

#[test]
fn literal_matches_where_it_occurs() {
    let literals = ["", "a", "ab", "aab", "abc", "bb", "cab"];
    for s in literals.iter() {
        let e = engine(s);
        for t in TEXTS.iter() {
            assert_eq!(e.is_match(t), t.contains(s), "pattern {s:?}, text {t:?}");
        }
    }
    assert!(engine("aab").is_match("aaab"));
    assert!(!engine("aab").is_match("abab"));
}

#[test]
fn compiling_twice_gives_the_same_answers() {
    for p in PATTERNS.iter() {
        let first = engine(p);
        let second = engine(p);
        for t in TEXTS.iter() {
            assert_eq!(first.is_match(t), second.is_match(t));
            assert_eq!(first.match_all(t), second.match_all(t));
        }
    }
}

#[test]
fn escaped_metacharacter_is_a_literal() {
    for m in ['.', '*', '+', '?', '|', '(', ')', '^', '$', '\\'] {
        let pattern = format!("\\{m}");
        let e = engine(&pattern);
        assert!(e.is_match(&m.to_string()), "metacharacter {m:?}");
        assert!(!e.is_match(""), "metacharacter {m:?}");
        assert!(!e.is_match("a"), "metacharacter {m:?}");
        assert_eq!(e.match_all(&format!("a{m}b")), Some(vec![(1, 2)]));
    }
}

#[test]
fn empty_pattern_has_one_match_per_position() {
    for t in TEXTS.iter() {
        let n = t.chars().count();
        let want: Vec<(usize, usize)> = (0..=n).map(|k| (k, k)).collect();
        assert_eq!(engine("").match_all(t), Some(want));
    }
}

#[test]
fn hat_dollar_matches_only_the_empty_text() {
    let e = engine("^$");
    for t in TEXTS.iter() {
        assert_eq!(e.is_match(t), t.is_empty());
    }
}
