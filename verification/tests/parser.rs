use exprlang::ast::{BinaryOp, Expr, Parser, UnaryOp};
use exprlang::tokens::Token;
use exprlang::{parse_expression, tokenize};

fn num(n: i32) -> Expr {
    Expr::Number(n)
}

fn neg(e: Expr) -> Expr {
    Expr::Unary { op: UnaryOp::Neg, expr: Box::new(e) }
}

fn bin(left: Expr, op: BinaryOp, right: Expr) -> Expr {
    Expr::Binary { left: Box::new(left), op, right: Box::new(right) }
}

#[test]
fn subtraction_is_left_associative() {
    let parsed = parse_expression("1 - 2 - 3").expect("must parse");
    let expected = bin(bin(num(1), BinaryOp::Sub, num(2)), BinaryOp::Sub, num(3));
    assert_eq!(parsed, expected);
}

#[test]
fn multiplication_binds_tighter_than_addition() {
    let parsed = parse_expression("2 + 3 * 4").expect("must parse");
    let expected = bin(num(2), BinaryOp::Add, bin(num(3), BinaryOp::Mul, num(4)));
    assert_eq!(parsed, expected);
}

#[test]
fn grouping_overrides_precedence() {
    let parsed = parse_expression("(2 + 3) * 4").expect("must parse");
    let expected = bin(bin(num(2), BinaryOp::Add, num(3)), BinaryOp::Mul, num(4));
    assert_eq!(parsed, expected);
}

#[test]
fn unary_negation_nests() {
    let parsed = parse_expression("--5").expect("must parse");
    let expected = neg(neg(num(5)));
    assert_eq!(parsed, expected);
}

#[test]
fn unterminated_group_fails() {
    assert_eq!(parse_expression("(1 + 2"), None);
}

#[test]
fn power_is_lexed_but_not_parsed() {
    let tokens = tokenize("2 ^ 3").expect("must tokenize");
    assert_eq!(
        tokens,
        vec![Token::NUMBER(2), Token::POW, Token::NUMBER(3), Token::EOF]
    );

    let mut parser = Parser::init(tokens);
    let prefix = parser.parse_exp();
    assert_eq!(prefix, Some(num(2)));
    assert_eq!(parser.tokens[parser.pos], Token::POW);

    assert_eq!(parse_expression("2 ^ 3"), None);
}

#[test]
fn end_to_end_example() {
    let input = "12 + 24 - (3 * 4) / 2";
    let tokens = tokenize(input).expect("must tokenize");
    assert_eq!(
        tokens,
        vec![
            Token::NUMBER(12),
            Token::PLUS,
            Token::NUMBER(24),
            Token::MINUS,
            Token::LPAREN,
            Token::NUMBER(3),
            Token::MUL,
            Token::NUMBER(4),
            Token::RPAREN,
            Token::DIV,
            Token::NUMBER(2),
            Token::EOF,
        ]
    );

    let parsed = parse_expression(input).expect("must parse");
    let expected = bin(
        bin(num(12), BinaryOp::Add, num(24)),
        BinaryOp::Sub,
        bin(
            bin(num(3), BinaryOp::Mul, num(4)),
            BinaryOp::Div,
            num(2),
        ),
    );
    assert_eq!(parsed, expected);
}

#[test]
fn empty_input_fails_to_parse() {
    assert_eq!(parse_expression(""), None);
}

#[test]
fn lone_operator_fails_to_parse() {
    assert_eq!(parse_expression("+"), None);
}

#[test]
fn curly_braces_fail_to_parse() {
    assert_eq!(parse_expression("{ 1 }"), None);
}

#[test]
fn trailing_tokens_are_rejected() {
    assert_eq!(parse_expression("1 2"), None);
}

#[test]
fn mismatched_closing_paren_fails() {
    assert_eq!(parse_expression("(1 + 2}"), None);
}

#[test]
fn parser_peek_and_advance_walk_the_tokens() {
    let tokens = vec![Token::NUMBER(1), Token::PLUS, Token::EOF];
    let mut parser = Parser::init(tokens);
    assert_eq!(parser.peek(), Some(Token::NUMBER(1)));
    assert_eq!(parser.advance(), Some(Token::NUMBER(1)));
    assert_eq!(parser.peek(), Some(Token::PLUS));
    assert_eq!(parser.advance(), Some(Token::PLUS));
    assert_eq!(parser.advance(), Some(Token::EOF));
    assert_eq!(parser.advance(), None);
    assert_eq!(parser.peek(), None);
}

#[test]
fn division_is_left_associative() {
    let parsed = parse_expression("8 / 4 / 2").expect("must parse");
    let expected = bin(bin(num(8), BinaryOp::Div, num(4)), BinaryOp::Div, num(2));
    assert_eq!(parsed, expected);
}

#[test]
fn negation_applies_to_factors_inside_terms() {
    let parsed = parse_expression("2 * -3").expect("must parse");
    let expected = bin(num(2), BinaryOp::Mul, neg(num(3)));
    assert_eq!(parsed, expected);
}
