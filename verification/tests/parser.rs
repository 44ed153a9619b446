use rare::error::{SyntaxError, SyntaxErrorKind};
use rare::lexer::token_type::{Token, TokenType};
use rare::parser::nfa::Nfa;
use rare::parser::state::State;
use rare::parser::Parser;
use rare::rare::RARE;

fn edges(nfa: &Nfa) -> Vec<Vec<usize>> {
    nfa.states.iter().map(|s| s.edges.clone()).collect()
}

fn kinds(nfa: &Nfa) -> Vec<TokenType> {
    nfa.states.iter().map(|s| s.token.token_type).collect()
}

fn atom(c: char) -> Nfa {
    Nfa::new(Token::new(0, TokenType::Character(c)))
}

fn empty() -> Nfa {
    Nfa::new(Token::new(0, TokenType::Empty))
}

#[test]
fn simple_parse_test() {
    let rstr = "(ab|b*)*|c";
    let mut parser = match Parser::new(rstr) {
        Err(e) => {
            panic!("{}", e.message());
        }
        Ok(ret) => ret,
    };

    let regex_handle = match parser.parse() {
        Ok(r) => r,
        Err(e) => panic!("{}", e.message()),
    };
    println!("Regex string: {rstr}");
    assert!(regex_handle.is_match("c"));
    assert!(regex_handle.is_match("abab"));
}

#[test]
fn new_nfa_has_one_state() {
    let nfa = atom('a');
    assert_eq!(nfa.states.len(), 1);
    assert_eq!(nfa.end, 0);
    assert_eq!(nfa.states[0].token, Token::new(0, TokenType::Character('a')));
    assert!(nfa.states[0].edges.is_empty());
}

#[test]
fn state_collects_edges_in_order() {
    let mut state = State::new(Token::new(3, TokenType::Dot));
    assert_eq!(state.token, Token::new(3, TokenType::Dot));
    assert!(state.edges.is_empty());
    state.add_edge(4);
    state.add_edge(2);
    state.add_edge(4);
    assert_eq!(state.edges, vec![4, 2, 4]);
}

#[test]
fn add_state_appends_and_moves_end() {
    let mut nfa = atom('a');
    nfa.add_state(State::new(Token::new(1, TokenType::Empty)));
    assert_eq!(nfa.states.len(), 2);
    assert_eq!(nfa.end, 1);
    assert_eq!(kinds(&nfa), vec![TokenType::Character('a'), TokenType::Empty]);
}

#[test]
fn get_state_checks_the_index() {
    let nfa = atom('a');
    assert_eq!(nfa.get_state(0).map(|s| s.token.token_type), Some(TokenType::Character('a')));
    assert!(nfa.get_state(1).is_none());
}

#[test]
fn merge_links_end_to_entry() {
    let mut a = atom('a');
    a.merge(atom('b'));
    assert_eq!(kinds(&a), vec![TokenType::Character('a'), TokenType::Character('b')]);
    assert_eq!(edges(&a), vec![vec![1], vec![]]);
    assert_eq!(a.end, 1);
}

#[test]
fn merge_shifts_the_edges_of_the_second() {
    let mut a = atom('a');
    a.merge(atom('b'));
    let mut c = atom('c');
    c.merge(atom('d'));
    c.states[1].add_edge(0);
    a.merge(c);
    assert_eq!(
        kinds(&a),
        vec![
            TokenType::Character('a'),
            TokenType::Character('b'),
            TokenType::Character('c'),
            TokenType::Character('d'),
        ]
    );
    assert_eq!(edges(&a), vec![vec![1], vec![2], vec![3], vec![2]]);
    assert_eq!(a.end, 3);
}

#[test]
fn merge_fuses_two_empty_states() {
    // [a, E] merged with [E -> {1, 2}, b, c]
    let mut a = atom('a');
    a.merge(empty());
    assert_eq!(edges(&a), vec![vec![1], vec![]]);
    let mut b = empty();
    b.merge(atom('b'));
    b.end = 0;
    b.merge(atom('c'));
    assert_eq!(edges(&b), vec![vec![1, 2], vec![], vec![]]);
    a.merge(b);
    assert_eq!(
        kinds(&a),
        vec![
            TokenType::Character('a'),
            TokenType::Empty,
            TokenType::Character('b'),
            TokenType::Character('c'),
        ]
    );
    assert_eq!(edges(&a), vec![vec![1], vec![2, 3], vec![], vec![]]);
    assert_eq!(a.end, 3);
}

#[test]
fn merge_of_empty_with_empty_then_x() {
    let mut a = empty();
    let mut b = empty();
    b.merge(atom('x'));
    a.merge(b);
    assert_eq!(kinds(&a), vec![TokenType::Empty, TokenType::Character('x')]);
    assert_eq!(edges(&a), vec![vec![1], vec![]]);
    assert_eq!(a.end, 1);
}

#[test]
fn merge_moves_edges_to_the_fused_entry() {
    // the second automaton has an edge back to its entry
    let mut a = atom('a');
    a.merge(empty());
    let mut b = empty();
    b.merge(atom('b'));
    b.states[1].add_edge(0);
    a.merge(b);
    assert_eq!(edges(&a), vec![vec![1], vec![2], vec![1]]);
    assert_eq!(a.end, 2);
}

#[test]
fn link_keeps_every_state_of_both() {
    let mut a = atom('a');
    a.link(empty());
    let mut b = empty();
    b.link(atom('b'));
    b.end = 0;
    b.link(atom('c'));
    a.link(b);
    assert_eq!(
        kinds(&a),
        vec![
            TokenType::Character('a'),
            TokenType::Empty,
            TokenType::Empty,
            TokenType::Character('b'),
            TokenType::Character('c'),
        ]
    );
    assert_eq!(edges(&a), vec![vec![1], vec![2], vec![3, 4], vec![], vec![]]);
    assert_eq!(a.end, 4);
    let mut e = empty();
    e.link(empty());
    assert_eq!(e.states.len(), 2);
    assert_eq!(edges(&e), vec![vec![1], vec![]]);
    assert_eq!(e.end, 1);
}

#[test]
fn merge_with_an_empty_state_on_one_side() {
    let mut a = empty();
    a.merge(atom('a'));
    assert_eq!(kinds(&a), vec![TokenType::Empty, TokenType::Character('a')]);
    assert_eq!(edges(&a), vec![vec![1], vec![]]);
    let mut b = atom('b');
    b.merge(empty());
    assert_eq!(kinds(&b), vec![TokenType::Character('b'), TokenType::Empty]);
    assert_eq!(edges(&b), vec![vec![1], vec![]]);
}

#[test]
fn merge_of_two_empty_singletons_is_one_state() {
    let mut a = empty();
    a.merge(empty());
    assert_eq!(a.states.len(), 1);
    assert_eq!(a.end, 0);
    assert!(a.states[0].edges.is_empty());
}

#[test]
fn star_puts_its_operand_in_a_frame() {
    let mut parser = Parser::new("a*").ok().unwrap();
    let engine = parser.parse().ok().unwrap();
    assert!(engine.is_match(""));
    assert_eq!(engine.match_all("aab"), Some(vec![(0, 2), (2, 2), (3, 3)]));
}

#[test]
fn from_nfa_runs_a_hand_made_automaton() {
    let mut nfa = empty();
    nfa.merge(atom('x'));
    nfa.merge(atom('y'));
    let engine = RARE::from_nfa(nfa);
    assert!(engine.is_match("axyb"));
    assert!(!engine.is_match("ayxb"));
    assert_eq!(engine.match_all("xyxy"), Some(vec![(0, 2), (2, 4)]));
}

#[test]
fn concat_without_operands_is_rejected() {
    let err = match Parser::new("()()") {
        Ok(mut p) => p.parse().err(),
        Err(e) => Some(e),
    };
    assert_eq!(err, Some(SyntaxError::new(2, SyntaxErrorKind::MissingOperand)));
}

#[test]
fn parser_new_reports_lexer_and_converter_errors() {
    assert_eq!(Parser::new("a^").err(), Some(SyntaxError::new(1, SyntaxErrorKind::MisplacedHat)));
    assert_eq!(Parser::new("(a").err(), Some(SyntaxError::new(0, SyntaxErrorKind::UnmatchedLParen)));
}
