use vstd::prelude::*;

pub mod ast;
pub mod laws;
pub mod tokens;

use crate::ast::Expr;
use crate::ast::Parser;
use crate::tokens::Token;

verus! {

/// True of the characters the lexer treats as insignificant separators.
pub open spec fn is_space_char(c: char) -> bool {
    c == ' ' || c == '\t' || c == '\n'
}

/// True of the decimal digit characters.
pub open spec fn is_digit_char(c: char) -> bool {
    48 <= c as u32 && c as u32 <= 57
}

/// The numeric value of a digit character.
pub open spec fn digit_val(c: char) -> int {
    c as u32 - 48
}

/// The first position at or after `pos` that does not hold whitespace.
pub open spec fn skip_ws_from(s: Seq<char>, pos: int) -> int
    decreases s.len() - pos,
{
    if 0 <= pos && pos < s.len() && is_space_char(s[pos]) {
        skip_ws_from(s, pos + 1)
    } else {
        pos
    }
}

/// The first position at or after `pos` that does not hold a digit.
pub open spec fn digit_run_end(s: Seq<char>, pos: int) -> int
    decreases s.len() - pos,
{
    if 0 <= pos && pos < s.len() && is_digit_char(s[pos]) {
        digit_run_end(s, pos + 1)
    } else {
        pos
    }
}

/// Left fold of the digits in `s[pos .. end]` onto `acc`, reduced modulo
/// 2^32 at every step: the unsigned image of wrapping 32-bit folding.
pub open spec fn fold_digits_mod(s: Seq<char>, pos: int, end: int, acc: int) -> int
    decreases end - pos,
{
    if pos < end {
        fold_digits_mod(s, pos + 1, end, (acc * 10 + digit_val(s[pos])) % 0x1_0000_0000)
    } else {
        acc
    }
}

/// Reinterprets a value in [0, 2^32) as a two's-complement 32-bit integer.
pub open spec fn as_signed32(u: int) -> i32 {
    if u < 0x8000_0000 {
        u as i32
    } else {
        (u - 0x1_0000_0000) as i32
    }
}

/// The `NUMBER` payload produced for the digit run `s[pos .. end]`.
pub open spec fn number_value(s: Seq<char>, pos: int, end: int) -> i32 {
    as_signed32(fold_digits_mod(s, pos, end, 0))
}

/// One lexer step from `pos` with the given end-of-input flag: the token
/// produced (`None` on a lexical error, and on every call after `EOF` has
/// been returned), the cursor after the step, and the new flag.
pub open spec fn lex_step(s: Seq<char>, pos: int, eof_returned: bool) -> (Option<Token>, int, bool) {
    let p = skip_ws_from(s, pos);
    if p >= s.len() {
        if eof_returned {
            (None, p, true)
        } else {
            (Some(Token::EOF), p, true)
        }
    } else {
        let c = s[p];
        if is_digit_char(c) {
            let e = digit_run_end(s, p);
            (Some(Token::NUMBER(number_value(s, p, e))), e, eof_returned)
        } else if c == '+' {
            (Some(Token::PLUS), p + 1, eof_returned)
        } else if c == '-' {
            (Some(Token::MINUS), p + 1, eof_returned)
        } else if c == '*' {
            (Some(Token::MUL), p + 1, eof_returned)
        } else if c == '/' {
            (Some(Token::DIV), p + 1, eof_returned)
        } else if c == '^' {
            (Some(Token::POW), p + 1, eof_returned)
        } else if c == '(' {
            (Some(Token::LPAREN), p + 1, eof_returned)
        } else if c == ')' {
            (Some(Token::RPAREN), p + 1, eof_returned)
        } else if c == '{' {
            (Some(Token::LCURLY), p + 1, eof_returned)
        } else if c == '}' {
            (Some(Token::RCURLY), p + 1, eof_returned)
        } else {
            (None, p, eof_returned)
        }
    }
}

/// The token sequence lexed from `pos` to the end of the input, ending in
/// `EOF`; `None` when an unrecognized character is reached first.
pub open spec fn tokens_from(s: Seq<char>, pos: int) -> Option<Seq<Token>>
    decreases s.len() - pos,
{
    let step = lex_step(s, pos, false);
    match step.0 {
        None => None,
        Some(tok) => if tok == Token::EOF {
            Some(seq![Token::EOF])
        } else if pos < step.1 && step.1 <= s.len() {
            match tokens_from(s, step.1) {
                None => None,
                Some(rest) => Some(seq![tok] + rest),
            }
        } else {
            None
        },
    }
}

/// Scans a character buffer one token at a time, skipping whitespace and
/// returning `EOF` exactly once at the end of the input.
pub struct Lexer {
    pub chars: Vec<char>,
    pub pos: usize,
    pub eof_returned: bool,
}

impl Lexer {
    /// The cursor never leaves the buffer.
    pub open spec fn wf(self) -> bool {
        self.pos <= self.chars.len()
    }

    /// A lexer over the characters of `input`, cursor at the start.
    pub fn new(input: &str) -> (lx: Lexer)
        ensures
            lx.wf(),
            lx.chars@ == input@,
            lx.pos == 0,
            !lx.eof_returned,
    {
        let n = input.unicode_len();
        let mut chars: Vec<char> = Vec::new();
        let mut i: usize = 0;
        while i < n
            invariant
                i <= n,
                n == input@.len(),
                chars@ == input@.take(i as int),
            decreases n - i,
        {
            let c = input.get_char(i);
            chars.push(c);
            proof {
                assert(chars@ =~= input@.take(i as int + 1));
            }
            i = i + 1;
        }
        proof {
            assert(chars@ =~= input@);
        }
        Lexer { pos: 0, chars, eof_returned: false }
    }

    /// The next not-yet-consumed character, without advancing.
    pub fn peek(&self) -> (r: Option<char>)
        ensures
            r == (if self.pos < self.chars.len() {
                Some(self.chars@[self.pos as int])
            } else {
                None::<char>
            }),
    {
        if self.pos < self.chars.len() {
            Some(self.chars[self.pos])
        } else {
            None
        }
    }

    /// Consumes and returns the current character, or nothing at the end of
    /// the input.
    pub fn advance(&mut self) -> (r: Option<char>)
        requires
            old(self).wf(),
        ensures
            final(self).wf(),
            final(self).chars@ == old(self).chars@,
            final(self).eof_returned == old(self).eof_returned,
            old(self).pos < old(self).chars.len() ==> r == Some(
                old(self).chars@[old(self).pos as int],
            ) && final(self).pos == old(self).pos + 1,
            old(self).pos >= old(self).chars.len() ==> r is None && final(self).pos == old(
                self,
            ).pos,
    {
        if self.pos < self.chars.len() {
            let c = self.chars[self.pos];
            self.pos = self.pos + 1;
            Some(c)
        } else {
            None
        }
    }

    /// Moves the cursor past any run of whitespace.
    pub fn skip_whitespaces(&mut self)
        requires
            old(self).wf(),
        ensures
            final(self).wf(),
            final(self).chars@ == old(self).chars@,
            final(self).eof_returned == old(self).eof_returned,
            final(self).pos == skip_ws_from(old(self).chars@, old(self).pos as int),
    {
        let ghost entry = self.pos as int;
        while self.pos < self.chars.len() && is_space(self.chars[self.pos])
            invariant
                self.wf(),
                self.chars == old(self).chars,
                self.eof_returned == old(self).eof_returned,
                entry <= self.pos,
                skip_ws_from(self.chars@, self.pos as int) == skip_ws_from(self.chars@, entry),
            decreases self.chars.len() - self.pos,
        {
            self.pos = self.pos + 1;
        }
    }
    /// Produces the next token: whitespace is skipped, a maximal digit run
    /// folds into one `NUMBER` with wrapping 32-bit arithmetic, each
    /// operator or bracket character maps to its token, and the end of the
    /// input yields `EOF` exactly once. `None` signals an unrecognized
    /// character, or exhaustion after `EOF` has been returned.
    pub fn next_token(&mut self) -> (r: Option<Token>)
        requires
            old(self).wf(),
        ensures
            final(self).wf(),
            final(self).chars@ == old(self).chars@,
            (r, final(self).pos as int, final(self).eof_returned) == lex_step(
                old(self).chars@,
                old(self).pos as int,
                old(self).eof_returned,
            ),
    {
        self.skip_whitespaces();
        let ghost s = self.chars@;
        let ghost p = self.pos as int;
        if self.pos == self.chars.len() {
            if self.eof_returned {
                None
            } else {
                self.eof_returned = true;
                Some(Token::EOF)
            }
        } else {
            let c = self.chars[self.pos];
            if is_digit(c) {
                let ghost run_end = digit_run_end(s, p);
                let mut acc: u32 = 0;
                while self.pos < self.chars.len() && is_digit(self.chars[self.pos])
                    invariant
                        self.wf(),
                        self.chars@ == s,
                        self.eof_returned == old(self).eof_returned,
                        p <= self.pos,
                        digit_run_end(s, self.pos as int) == run_end,
                        fold_digits_mod(s, self.pos as int, run_end, acc as int)
                            == fold_digits_mod(s, p, run_end, 0),
                    decreases self.chars.len() - self.pos,
                {
                    let d: u32 = self.chars[self.pos] as u32 - 48;
                    proof {
                        assert(digit_run_end(s, self.pos as int) == digit_run_end(
                            s,
                            self.pos as int + 1,
                        ));
                        lemma_digit_run_end_bounds(s, self.pos as int + 1);
                        assert(d == digit_val(s[self.pos as int]));
                    }
                    acc = ((acc as u64 * 10 + d as u64) % 0x1_0000_0000u64) as u32;
                    self.pos = self.pos + 1;
                }
                proof {
                    assert(digit_run_end(s, self.pos as int) == self.pos as int);
                    assert(acc as int == fold_digits_mod(s, p, run_end, 0));
                }
                let value: i32 = if acc <= 0x7FFF_FFFFu32 {
                    acc as i32
                } else {
                    (acc as i64 - 0x1_0000_0000i64) as i32
                };
                proof {
                    assert(value == number_value(s, p, run_end));
                }
                Some(Token::NUMBER(value))
            } else if c == '+' {
                self.advance();
                Some(Token::PLUS)
            } else if c == '-' {
                self.advance();
                Some(Token::MINUS)
            } else if c == '*' {
                self.advance();
                Some(Token::MUL)
            } else if c == '/' {
                self.advance();
                Some(Token::DIV)
            } else if c == '^' {
                self.advance();
                Some(Token::POW)
            } else if c == '(' {
                self.advance();
                Some(Token::LPAREN)
            } else if c == ')' {
                self.advance();
                Some(Token::RPAREN)
            } else if c == '{' {
                self.advance();
                Some(Token::LCURLY)
            } else if c == '}' {
                self.advance();
                Some(Token::RCURLY)
            } else {
                None
            }
        }
    }
}

/// Drives a fresh lexer over `input` until `EOF`, collecting the tokens.
/// Returns `None` exactly when the input holds an unrecognized character.
pub fn tokenize(input: &str) -> (r: Option<Vec<Token>>)
    ensures
        match r {
            Some(v) => tokens_from(input@, 0) == Some(v@),
            None => tokens_from(input@, 0) is None,
        },
{
    let mut lexer = Lexer::new(input);
    let ghost s = input@;
    let mut collected: Vec<Token> = Vec::new();
    loop
        invariant
            s == input@,
            lexer.wf(),
            lexer.chars@ == s,
            !lexer.eof_returned,
            tokens_from(s, 0) == (match tokens_from(s, lexer.pos as int) {
                Some(rest) => Some(collected@ + rest),
                None => None::<Seq<Token>>,
            }),
        decreases s.len() - lexer.pos,
    {
        let ghost pos0 = lexer.pos as int;
        proof {
            lemma_skip_ws_bounds(s, pos0);
            let p = skip_ws_from(s, pos0);
            if p < s.len() && is_digit_char(s[p]) {
                lemma_digit_run_end_bounds(s, p + 1);
                assert(digit_run_end(s, p) == digit_run_end(s, p + 1));
            }
        }
        let token = match lexer.next_token() {
            None => {
                proof {
                    assert(tokens_from(s, pos0) is None);
                }
                return None;
            },
            Some(t) => t,
        };
        proof {
            assert(pos0 <= lexer.pos as int <= s.len());
            assert(token != Token::EOF ==> pos0 < lexer.pos as int);
        }
        collected.push(token);
        match token {
            Token::EOF => {
                proof {
                    assert(tokens_from(s, pos0) == Some(seq![Token::EOF]));
                    assert(collected@ =~= collected@.drop_last() + seq![Token::EOF]);
                }
                return Some(collected);
            },
            _ => {
                proof {
                    let p2 = lexer.pos as int;
                    assert(tokens_from(s, pos0) == (match tokens_from(s, p2) {
                        Some(rest) => Some(seq![token] + rest),
                        None => None::<Seq<Token>>,
                    }));
                    if tokens_from(s, p2) is Some {
                        let rest = tokens_from(s, p2)->Some_0;
                        assert(collected@.drop_last() + (seq![token] + rest) =~= collected@
                            + rest);
                    }
                }
            },
        }
    }
}

/// The result of the whole pipeline on `s`: the token sequence parsed as
/// one Expr, accepted only when the parse stops exactly at the `EOF` token.
pub open spec fn parse_result(s: Seq<char>) -> Option<Expr> {
    match tokens_from(s, 0) {
        None => None,
        Some(ts) => match crate::ast::parse_exp_at(ts, 0) {
            Some((e, p)) => if 0 <= p && p < ts.len() && ts[p] == Token::EOF {
                Some(e)
            } else {
                None
            },
            None => None,
        },
    }
}

/// Tokenizes `input`, parses the tokens as one expression, and accepts the
/// result only when every token up to `EOF` was consumed. `None` signals a
/// lexical or syntax error, or trailing unconsumed tokens.
pub fn parse_expression(input: &str) -> (r: Option<Expr>)
    ensures
        r == parse_result(input@),
{
    let tokens = match tokenize(input) {
        None => {
            return None;
        },
        Some(v) => v,
    };
    let mut parser = Parser::init(tokens);
    let parsed = match parser.parse_exp() {
        None => {
            return None;
        },
        Some(e) => e,
    };
    if parser.pos < parser.tokens.len() {
        let current = parser.tokens[parser.pos];
        match current {
            Token::EOF => Some(parsed),
            _ => None,
        }
    } else {
        None
    }
}

/// The cursor positions reached by whitespace skipping stay inside the
/// buffer and never move backwards.
pub proof fn lemma_skip_ws_bounds(s: Seq<char>, pos: int)
    requires
        0 <= pos <= s.len(),
    ensures
        pos <= skip_ws_from(s, pos) <= s.len(),
    decreases s.len() - pos,
{
    if pos < s.len() && is_space_char(s[pos]) {
        lemma_skip_ws_bounds(s, pos + 1);
    }
}

/// The end of a digit run stays inside the buffer and never lies before its
/// start.
pub proof fn lemma_digit_run_end_bounds(s: Seq<char>, pos: int)
    requires
        0 <= pos <= s.len(),
    ensures
        pos <= digit_run_end(s, pos) <= s.len(),
    decreases s.len() - pos,
{
    if pos < s.len() && is_digit_char(s[pos]) {
        lemma_digit_run_end_bounds(s, pos + 1);
    }
}

/// True exactly when `c` is one of the whitespace separators.
pub fn is_space(c: char) -> (b: bool)
    ensures
        b == is_space_char(c),
{
    c == ' ' || c == '\t' || c == '\n'
}

/// True exactly when `c` is a decimal digit.
pub fn is_digit(c: char) -> (b: bool)
    ensures
        b == is_digit_char(c),
{
    let u = c as u32;
    48 <= u && u <= 57
}

} // verus!
