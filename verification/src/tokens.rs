use vstd::prelude::*;

verus! {

/// One lexical unit of the expression language.
///
/// `NUMBER` carries the folded value of a maximal digit run; every other
/// variant stands for a single source character, except `EOF`, which marks
/// the end of the input, and `WhiteSpace`, which is recognized but never
/// emitted by the lexer.
#[derive(Debug, Clone, Copy, PartialEq, Eq, Structural)]
pub enum Token {
    NUMBER(i32),
    PLUS,
    MINUS,
    DIV,
    MUL,
    POW,
    LPAREN,
    RPAREN,
    RCURLY,
    LCURLY,
    EOF,
    WhiteSpace(WhiteSpace),
}

/// The three whitespace separators the language recognizes.
#[derive(Debug, Clone, Copy, PartialEq, Eq, Structural)]
pub enum WhiteSpace {
    SPACE,
    TAB,
    NEWLINE,
}

/// The digit character for a value between 0 and 9.
pub open spec fn digit_char(d: int) -> char {
    if d == 0 {
        '0'
    } else if d == 1 {
        '1'
    } else if d == 2 {
        '2'
    } else if d == 3 {
        '3'
    } else if d == 4 {
        '4'
    } else if d == 5 {
        '5'
    } else if d == 6 {
        '6'
    } else if d == 7 {
        '7'
    } else if d == 8 {
        '8'
    } else {
        '9'
    }
}

/// Decimal digit sequence of a non-negative value, most significant first.
pub open spec fn dec_digits(n: nat) -> Seq<char>
    decreases n,
{
    if n < 10 {
        seq![digit_char(n as int)]
    } else {
        dec_digits(n / 10).push(digit_char((n % 10) as int))
    }
}

/// Canonical text of an integer: decimal digits, with a leading '-' when
/// negative.
pub open spec fn number_text(n: int) -> Seq<char> {
    if n < 0 {
        seq!['-'] + dec_digits((-n) as nat)
    } else {
        dec_digits(n as nat)
    }
}

/// Canonical text of a whitespace token: its own character.
pub open spec fn whitespace_text(w: WhiteSpace) -> Seq<char> {
    match w {
        WhiteSpace::SPACE => seq![' '],
        WhiteSpace::TAB => seq!['\t'],
        WhiteSpace::NEWLINE => seq!['\n'],
    }
}

/// Canonical text of a token: digits for numbers, the literal character for
/// operators and brackets, and a fixed sentinel for the end of input.
pub open spec fn token_text(t: Token) -> Seq<char> {
    match t {
        Token::NUMBER(n) => number_text(n as int),
        Token::PLUS => seq!['+'],
        Token::MINUS => seq!['-'],
        Token::DIV => seq!['/'],
        Token::MUL => seq!['*'],
        Token::POW => seq!['^'],
        Token::LPAREN => seq!['('],
        Token::RPAREN => seq![')'],
        Token::LCURLY => seq!['{'],
        Token::RCURLY => seq!['}'],
        Token::EOF => seq!['E', 'O', 'F'],
        Token::WhiteSpace(w) => whitespace_text(w),
    }
}

/// The one-character string for a digit value.
fn digit_str(d: u32) -> (r: &'static str)
    requires
        d < 10,
    ensures
        r@ == seq![digit_char(d as int)],
{
    proof {
        reveal_strlit("0");
        reveal_strlit("1");
        reveal_strlit("2");
        reveal_strlit("3");
        reveal_strlit("4");
        reveal_strlit("5");
        reveal_strlit("6");
        reveal_strlit("7");
        reveal_strlit("8");
        reveal_strlit("9");
    }
    let r = if d == 0 {
        "0"
    } else if d == 1 {
        "1"
    } else if d == 2 {
        "2"
    } else if d == 3 {
        "3"
    } else if d == 4 {
        "4"
    } else if d == 5 {
        "5"
    } else if d == 6 {
        "6"
    } else if d == 7 {
        "7"
    } else if d == 8 {
        "8"
    } else {
        "9"
    };
    proof {
        assert(r@ =~= seq![digit_char(d as int)]);
    }
    r
}

/// Appends the decimal digits of `n` to `out`, most significant first.
fn append_dec_digits(n: u32, out: &mut String)
    ensures
        final(out)@ == old(out)@ + dec_digits(n as nat),
    decreases n,
{
    if n < 10 {
        out.append(digit_str(n));
    } else {
        append_dec_digits(n / 10, out);
        out.append(digit_str(n % 10));
        proof {
            assert(final(out)@ =~= old(out)@ + dec_digits(n as nat));
        }
    }
}

/// The decimal text of a signed value.
fn number_string(n: i32) -> (r: String)
    ensures
        r@ == number_text(n as int),
{
    if n >= 0 {
        let mut out = String::new();
        append_dec_digits(n as u32, &mut out);
        proof {
            assert(out@ =~= number_text(n as int));
        }
        out
    } else {
        let mut out = String::from_str("-");
        let magnitude: u32 = (-(n as i64)) as u32;
        proof {
            reveal_strlit("-");
        }
        append_dec_digits(magnitude, &mut out);
        proof {
            assert(out@ =~= number_text(n as int));
        }
        out
    }
}

impl WhiteSpace {
    /// The canonical one-character text of this separator.
    pub fn render(&self) -> (r: String)
        ensures
            r@ == whitespace_text(*self),
    {
        proof {
            reveal_strlit(" ");
            reveal_strlit("\t");
            reveal_strlit("\n");
        }
        let r = match self {
            WhiteSpace::SPACE => String::from_str(" "),
            WhiteSpace::TAB => String::from_str("\t"),
            WhiteSpace::NEWLINE => String::from_str("\n"),
        };
        proof {
            assert(r@ =~= whitespace_text(*self));
        }
        r
    }
}

impl Token {
    /// The canonical textual form of this token, for diagnostics.
    pub fn render(&self) -> (r: String)
        ensures
            r@ == token_text(*self),
    {
        proof {
            reveal_strlit("+");
            reveal_strlit("-");
            reveal_strlit("/");
            reveal_strlit("*");
            reveal_strlit("^");
            reveal_strlit("(");
            reveal_strlit(")");
            reveal_strlit("{");
            reveal_strlit("}");
            reveal_strlit("EOF");
        }
        let r = match self {
            Token::NUMBER(n) => number_string(*n),
            Token::PLUS => String::from_str("+"),
            Token::MINUS => String::from_str("-"),
            Token::DIV => String::from_str("/"),
            Token::MUL => String::from_str("*"),
            Token::POW => String::from_str("^"),
            Token::LPAREN => String::from_str("("),
            Token::RPAREN => String::from_str(")"),
            Token::LCURLY => String::from_str("{"),
            Token::RCURLY => String::from_str("}"),
            Token::EOF => String::from_str("EOF"),
            Token::WhiteSpace(w) => w.render(),
        };
        proof {
            assert(r@ =~= token_text(*self));
        }
        r
    }
}

} // verus!
