use rare::error::{SyntaxError, SyntaxErrorKind};
use rare::lexer::scanner::Scanner;
use rare::lexer::token_type::{Token, TokenType};

fn kinds(pattern: &str) -> Result<Vec<TokenType>, SyntaxError> {
    let mut scanner = Scanner::new(pattern);
    scanner.scan()?;
    Ok(scanner.move_vec().iter().map(|t| t.token_type).collect())
}

#[test]
fn simple_scan_test() {
    let mut test_scanner = Scanner::new("(abc)\\..*");
    assert!(test_scanner.scan().is_ok());
    let res_vec: Vec<Token> = test_scanner.move_vec();
    let outputs: [TokenType; 12] = [
        TokenType::LParen,
        TokenType::Character('a'),
        TokenType::Concat,
        TokenType::Character('b'),
        TokenType::Concat,
        TokenType::Character('c'),
        TokenType::RParen,
        TokenType::Concat,
        TokenType::Character('.'),
        TokenType::Concat,
        TokenType::Dot,
        TokenType::Star,
    ];

    let mut idx = 0;

    while idx < res_vec.len() {
        assert_eq!(res_vec[idx].token_type, outputs[idx]);
        idx += 1;
    }
    assert_eq!(res_vec.len(), outputs.len());
}

#[test]
fn scan_records_columns() {
    let mut scanner = Scanner::new("a\\*b");
    assert_eq!(scanner.scan(), Ok(()));
    let tokens = scanner.move_vec();
    assert_eq!(
        tokens,
        vec![
            Token::new(0, TokenType::Character('a')),
            Token::new(2, TokenType::Concat),
            Token::new(2, TokenType::Character('*')),
            Token::new(3, TokenType::Concat),
            Token::new(3, TokenType::Character('b')),
        ]
    );
}

#[test]
fn scan_empty_pattern() {
    assert_eq!(kinds(""), Ok(vec![]));
}

#[test]
fn scan_every_metacharacter() {
    assert_eq!(
        kinds("(a|.)*b+c?$"),
        Ok(vec![
            TokenType::LParen,
            TokenType::Character('a'),
            TokenType::Beam,
            TokenType::Dot,
            TokenType::RParen,
            TokenType::Star,
            TokenType::Concat,
            TokenType::Character('b'),
            TokenType::Plus,
            TokenType::Concat,
            TokenType::Character('c'),
            TokenType::QuestionMark,
            TokenType::Concat,
            TokenType::Dollar,
        ])
    );
}

#[test]
fn no_concat_behind_hat() {
    assert_eq!(kinds("^a"), Ok(vec![TokenType::Hat, TokenType::Character('a')]));
    assert_eq!(kinds("^$"), Ok(vec![TokenType::Hat, TokenType::Dollar]));
    assert_eq!(
        kinds("(^a|^b)"),
        Ok(vec![
            TokenType::LParen,
            TokenType::Hat,
            TokenType::Character('a'),
            TokenType::Beam,
            TokenType::Hat,
            TokenType::Character('b'),
            TokenType::RParen,
        ])
    );
}

#[test]
fn concat_behind_quantifier_group_and_dollar() {
    assert_eq!(
        kinds("a*b"),
        Ok(vec![
            TokenType::Character('a'),
            TokenType::Star,
            TokenType::Concat,
            TokenType::Character('b'),
        ])
    );
    assert_eq!(
        kinds("(a)(b)"),
        Ok(vec![
            TokenType::LParen,
            TokenType::Character('a'),
            TokenType::RParen,
            TokenType::Concat,
            TokenType::LParen,
            TokenType::Character('b'),
            TokenType::RParen,
        ])
    );
    assert_eq!(
        kinds("$a"),
        Ok(vec![TokenType::Dollar, TokenType::Concat, TokenType::Character('a')])
    );
}

#[test]
fn escape_keeps_pending_concat() {
    assert_eq!(
        kinds("a\\\\b"),
        Ok(vec![
            TokenType::Character('a'),
            TokenType::Concat,
            TokenType::Character('\\'),
            TokenType::Concat,
            TokenType::Character('b'),
        ])
    );
    assert_eq!(kinds("(\\("), Ok(vec![TokenType::LParen, TokenType::Character('(')]));
}

#[test]
fn misplaced_hat_is_rejected() {
    assert_eq!(kinds("a^"), Err(SyntaxError::new(1, SyntaxErrorKind::MisplacedHat)));
    assert_eq!(kinds("^^"), Err(SyntaxError::new(1, SyntaxErrorKind::MisplacedHat)));
    assert_eq!(kinds("a*^"), Err(SyntaxError::new(2, SyntaxErrorKind::MisplacedHat)));
}

#[test]
fn quantifier_without_operand_is_rejected() {
    assert_eq!(kinds("*a"), Err(SyntaxError::new(0, SyntaxErrorKind::QuantifierWithoutOperand)));
    assert_eq!(kinds("(+a)"), Err(SyntaxError::new(1, SyntaxErrorKind::QuantifierWithoutOperand)));
    assert_eq!(kinds("a|?"), Err(SyntaxError::new(2, SyntaxErrorKind::QuantifierWithoutOperand)));
}

#[test]
fn trailing_escape_is_rejected() {
    assert_eq!(kinds("a\\"), Err(SyntaxError::new(1, SyntaxErrorKind::TrailingEscape)));
    assert_eq!(kinds("\\"), Err(SyntaxError::new(0, SyntaxErrorKind::TrailingEscape)));
}

#[test]
fn reverse_token_list_reverses() {
    let mut scanner = Scanner::new("ab");
    assert_eq!(scanner.scan(), Ok(()));
    scanner.reverse_token_list();
    assert_eq!(
        scanner.move_vec(),
        vec![
            Token::new(1, TokenType::Character('b')),
            Token::new(1, TokenType::Concat),
            Token::new(0, TokenType::Character('a')),
        ]
    );
}

#[test]
fn precedence_table() {
    assert_eq!(TokenType::LParen.precedence(), 0);
    assert_eq!(TokenType::RParen.precedence(), 0);
    assert_eq!(TokenType::Beam.precedence(), 1);
    assert_eq!(TokenType::Concat.precedence(), 2);
    assert_eq!(TokenType::Star.precedence(), 3);
    assert_eq!(TokenType::Plus.precedence(), 3);
    assert_eq!(TokenType::QuestionMark.precedence(), 3);
    assert_eq!(TokenType::Character('x').precedence(), 4);
    assert_eq!(TokenType::Dot.precedence(), 4);
    assert_eq!(TokenType::Hat.precedence(), 4);
    assert_eq!(TokenType::Dollar.precedence(), 4);
    assert!(TokenType::Star.is_symbol());
    assert!(TokenType::LParen.is_symbol());
    assert!(!TokenType::Dot.is_symbol());
    assert!(!TokenType::Dollar.is_symbol());
    assert!(!TokenType::LParen.need_concat_next());
    assert!(!TokenType::Beam.need_concat_next());
    assert!(!TokenType::Hat.need_concat_next());
    assert!(TokenType::RParen.need_concat_next());
    assert!(TokenType::Character('a').need_concat_next());
}
