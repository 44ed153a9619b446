use rare::error::{SyntaxError, SyntaxErrorKind};
use rare::lexer::scanner::Scanner;
use rare::lexer::token_type::{Token, TokenType};
use rare::postfix_converter::PostfixConverter;

fn postfix(pattern: &str) -> Result<Vec<Token>, SyntaxError> {
    let mut scanner = Scanner::new(pattern);
    scanner.scan()?;
    let mut conv = PostfixConverter::from_scanner(scanner);
    conv.convert()?;
    Ok(conv.move_postfix_vec())
}

fn postfix_kinds(pattern: &str) -> Result<Vec<TokenType>, SyntaxError> {
    Ok(postfix(pattern)?.iter().map(|t| t.token_type).collect())
}

#[test]
fn simple_postfix_test() {
    let mut test_scanner = Scanner::new("ab*|bc*");
    assert!(test_scanner.scan().is_ok());

    let mut test_pfix_conv = PostfixConverter::from_scanner(test_scanner);
    test_pfix_conv.convert().expect("It didn't work");
    let kinds: Vec<TokenType> =
        test_pfix_conv.move_postfix_vec().iter().map(|t| t.token_type).collect();
    assert_eq!(
        kinds,
        vec![
            TokenType::Character('a'),
            TokenType::Character('b'),
            TokenType::Star,
            TokenType::Concat,
            TokenType::Character('b'),
            TokenType::Character('c'),
            TokenType::Star,
            TokenType::Concat,
            TokenType::Beam,
        ]
    );
}

#[test]
fn simple_postfix_test_2() {
    let mut test_scanner = Scanner::new("\\.c(c|h)");
    assert!(test_scanner.scan().is_ok());

    let mut test_pfix_conv = PostfixConverter::from_scanner(test_scanner);
    test_pfix_conv.convert().expect("It didn't work");
    let kinds: Vec<TokenType> =
        test_pfix_conv.move_postfix_vec().iter().map(|t| t.token_type).collect();
    assert_eq!(
        kinds,
        vec![
            TokenType::Character('.'),
            TokenType::Character('c'),
            TokenType::Concat,
            TokenType::Character('c'),
            TokenType::Character('h'),
            TokenType::Beam,
            TokenType::Concat,
        ]
    );
}

#[test]
fn complex_postfix_test() {
    let mut test_scanner = Scanner::new("z(abc?|c)+\\.?.*");
    assert!(test_scanner.scan().is_ok());

    let mut test_pfix_conv = PostfixConverter::from_scanner(test_scanner);
    test_pfix_conv.convert().expect("It didn't work");
    let postfix_token_list = test_pfix_conv.move_postfix_vec();

    let test_vec: Vec<TokenType> = vec![
        TokenType::Character('z'),
        TokenType::Character('a'),
        TokenType::Character('b'),
        TokenType::Concat, // Concat a and b
        TokenType::Character('c'),
        TokenType::QuestionMark,
        TokenType::Concat, // Concat ab and c?
        TokenType::Character('c'),
        TokenType::Beam,   // either abc? or c
        TokenType::Plus,   // one or more of (abc?|c)
        TokenType::Concat, // concat z with (abc?|c)+
        TokenType::Character('.'),
        TokenType::QuestionMark,
        TokenType::Concat, // concat z(abc?|c)+ with \.?
        TokenType::Dot,
        TokenType::Star,
        TokenType::Concat, // concat z(abc?|c)+\.? with .*
    ];

    assert!(
        postfix_token_list
            .iter()
            .zip(test_vec.iter())
            .filter(|pair| pair.0.token_type == *pair.1)
            .count()
            == test_vec.len()
    );
    assert_eq!(postfix_token_list.len(), test_vec.len());
}

#[test]
fn alternation_associates_to_the_left() {
    assert_eq!(
        postfix_kinds("a|bc|d"),
        Ok(vec![
            TokenType::Character('a'),
            TokenType::Character('b'),
            TokenType::Character('c'),
            TokenType::Concat,
            TokenType::Beam,
            TokenType::Character('d'),
            TokenType::Beam,
        ])
    );
}

#[test]
fn concat_tokens_keep_their_columns() {
    assert_eq!(
        postfix("abc"),
        Ok(vec![
            Token::new(0, TokenType::Character('a')),
            Token::new(1, TokenType::Character('b')),
            Token::new(1, TokenType::Concat),
            Token::new(2, TokenType::Character('c')),
            Token::new(2, TokenType::Concat),
        ])
    );
}

#[test]
fn empty_pattern_has_empty_postfix() {
    assert_eq!(postfix(""), Ok(vec![]));
    assert_eq!(postfix("()"), Ok(vec![]));
}

#[test]
fn dollar_must_end_an_alternative() {
    assert_eq!(postfix("a$b"), Err(SyntaxError::new(1, SyntaxErrorKind::MisplacedDollar)));
    assert_eq!(postfix("$*"), Err(SyntaxError::new(0, SyntaxErrorKind::MisplacedDollar)));
    assert_eq!(
        postfix_kinds("(a$|b$)$"),
        Ok(vec![
            TokenType::Character('a'),
            TokenType::Dollar,
            TokenType::Concat,
            TokenType::Character('b'),
            TokenType::Dollar,
            TokenType::Concat,
            TokenType::Beam,
            TokenType::Dollar,
            TokenType::Concat,
        ])
    );
}

#[test]
fn unbalanced_parentheses_are_rejected() {
    assert_eq!(postfix("a)"), Err(SyntaxError::new(1, SyntaxErrorKind::UnmatchedRParen)));
    assert_eq!(postfix("(a"), Err(SyntaxError::new(0, SyntaxErrorKind::UnmatchedLParen)));
    assert_eq!(postfix("a(b(c)"), Err(SyntaxError::new(1, SyntaxErrorKind::UnmatchedLParen)));
    assert_eq!(postfix("(a))("), Err(SyntaxError::new(3, SyntaxErrorKind::UnmatchedRParen)));
}
