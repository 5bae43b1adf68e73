use exprlang::tokens::{Token, WhiteSpace};
use exprlang::{tokenize, Lexer};

#[test]
fn test_tokenization() {
    let input = "12 + 24  - (3 * 4) / 2";
    let mut lexer = Lexer::new(input);
    let mut tokens: Vec<Token> = Vec::new();

    let expected_tokens = vec![
        Token::NUMBER(12),
        Token::PLUS,
        Token::NUMBER(24),
        Token::MINUS,
        Token::LPAREN,
        Token::NUMBER(3),
        Token::MUL,
        Token::NUMBER(4),
        Token::RPAREN,
        Token::DIV,
        Token::NUMBER(2),
        Token::EOF,
    ];

    loop {
        let token = lexer
            .next_token()
            .expect("Lexer returned None unexpectedly");
        println!("{}", token.render());
        tokens.push(token.clone());
        if token == Token::EOF {
            break;
        }
    }
    assert_eq!(tokens, expected_tokens);
}

#[test]
fn tokenization_is_deterministic() {
    let input = "12 + 24  - (3 * 4) / 2";
    let first = tokenize(input);
    let second = tokenize(input);
    assert_eq!(first, second);
    assert!(first.is_some());
}

#[test]
fn empty_input_yields_exactly_one_eof() {
    let tokens = tokenize("").expect("empty input must tokenize");
    assert_eq!(tokens, vec![Token::EOF]);
}

#[test]
fn whitespace_only_input_yields_exactly_one_eof() {
    let tokens = tokenize(" \t\n ").expect("whitespace input must tokenize");
    assert_eq!(tokens, vec![Token::EOF]);
}

#[test]
fn no_more_tokens_after_eof() {
    let mut lexer = Lexer::new("7");
    assert_eq!(lexer.next_token(), Some(Token::NUMBER(7)));
    assert_eq!(lexer.next_token(), Some(Token::EOF));
    assert_eq!(lexer.next_token(), None);
    assert_eq!(lexer.next_token(), None);
}

#[test]
fn digit_run_folds_into_one_number() {
    let tokens = tokenize("123").expect("digit run must tokenize");
    assert_eq!(tokens, vec![Token::NUMBER(123), Token::EOF]);
}

#[test]
fn longer_digit_run_folds_positionally() {
    let tokens = tokenize("98765").expect("digit run must tokenize");
    assert_eq!(
        tokens,
        vec![
            Token::NUMBER(9 * 10000 + 8 * 1000 + 7 * 100 + 6 * 10 + 5),
            Token::EOF
        ]
    );
}

#[test]
fn whitespace_between_tokens_is_insignificant() {
    let compact = tokenize("1+2").expect("must tokenize");
    let spaced = tokenize("1 + 2").expect("must tokenize");
    let exotic = tokenize("1\t+\n2").expect("must tokenize");
    assert_eq!(compact, vec![Token::NUMBER(1), Token::PLUS, Token::NUMBER(2), Token::EOF]);
    assert_eq!(compact, spaced);
    assert_eq!(compact, exotic);
}

#[test]
fn whitespace_splits_digit_runs() {
    let split = tokenize("1 2").expect("must tokenize");
    assert_eq!(split, vec![Token::NUMBER(1), Token::NUMBER(2), Token::EOF]);
}

#[test]
fn unknown_character_fails_tokenization() {
    assert_eq!(tokenize("1 & 2"), None);
}

#[test]
fn unknown_character_fails_at_its_position() {
    let mut lexer = Lexer::new("1 & 2");
    assert_eq!(lexer.next_token(), Some(Token::NUMBER(1)));
    assert_eq!(lexer.next_token(), None);
}

#[test]
fn every_single_character_token_is_lexed() {
    let tokens = tokenize("+ - * / ^ ( ) { }").expect("must tokenize");
    assert_eq!(
        tokens,
        vec![
            Token::PLUS,
            Token::MINUS,
            Token::MUL,
            Token::DIV,
            Token::POW,
            Token::LPAREN,
            Token::RPAREN,
            Token::LCURLY,
            Token::RCURLY,
            Token::EOF,
        ]
    );
}

#[test]
fn lexer_peek_and_advance_walk_the_input() {
    let mut lexer = Lexer::new("ab");
    assert_eq!(lexer.peek(), Some('a'));
    assert_eq!(lexer.advance(), Some('a'));
    assert_eq!(lexer.peek(), Some('b'));
    assert_eq!(lexer.advance(), Some('b'));
    assert_eq!(lexer.peek(), None);
    assert_eq!(lexer.advance(), None);
}

#[test]
fn tokens_render_to_their_canonical_text() {
    assert_eq!(Token::NUMBER(12).render(), "12");
    assert_eq!(Token::NUMBER(0).render(), "0");
    assert_eq!(Token::NUMBER(-5).render(), "-5");
    assert_eq!(Token::PLUS.render(), "+");
    assert_eq!(Token::MINUS.render(), "-");
    assert_eq!(Token::MUL.render(), "*");
    assert_eq!(Token::DIV.render(), "/");
    assert_eq!(Token::POW.render(), "^");
    assert_eq!(Token::LPAREN.render(), "(");
    assert_eq!(Token::RPAREN.render(), ")");
    assert_eq!(Token::LCURLY.render(), "{");
    assert_eq!(Token::RCURLY.render(), "}");
    assert_eq!(Token::EOF.render(), "EOF");
    assert_eq!(Token::WhiteSpace(WhiteSpace::SPACE).render(), " ");
    assert_eq!(Token::WhiteSpace(WhiteSpace::TAB).render(), "\t");
    assert_eq!(Token::WhiteSpace(WhiteSpace::NEWLINE).render(), "\n");
}
