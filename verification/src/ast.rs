use vstd::prelude::*;

use crate::tokens::Token;

verus! {

/// The binary operators of the expression language.
#[derive(Debug, Clone, Copy, PartialEq, Eq, Structural)]
pub enum BinaryOp {
    Add,
    Sub,
    Mul,
    Div,
    Pow,
}

/// The unary operators of the expression language.
#[derive(Debug, Clone, Copy, PartialEq, Eq, Structural)]
pub enum UnaryOp {
    Neg,
}

/// An expression tree: a literal, a negation, or a binary node whose
/// children are fully formed subtrees owned by their parent.
#[derive(Debug, PartialEq)]
#[allow(inconsistent_fields)]
pub enum Expr {
    Number(i32),
    Unary { op: UnaryOp, expr: Box<Expr> },
    Binary { left: Box<Expr>, op: BinaryOp, right: Box<Expr> },
}

// The grammar, one spec function per level, each returning the parsed tree
// and the cursor after it, or `None` on a syntax error:
//
//   Expr   := Term (('+' | '-') Term)*      left-associative
//   Term   := Unary (('*' | '/') Unary)*    left-associative
//   Unary  := '-' Unary | Factor
//   Factor := NUMBER | '(' Expr ')'
//
// Every successful parse consumes at least one token, which the bounds
// guards below make visible to the termination checker; `lemma_parse_bounds`
// shows the guards never fail.

/// Factor := NUMBER | '(' Expr ')'
pub open spec fn parse_factor_at(t: Seq<Token>, pos: int) -> Option<(Expr, int)>
    decreases t.len() - pos, 0int,
{
    if 0 <= pos && pos < t.len() {
        match t[pos] {
            Token::NUMBER(n) => Some((Expr::Number(n), pos + 1)),
            Token::LPAREN => match parse_exp_at(t, pos + 1) {
                Some((inner, p)) => if p < t.len() && t[p] == Token::RPAREN {
                    Some((inner, p + 1))
                } else {
                    None
                },
                None => None,
            },
            _ => None,
        }
    } else {
        None
    }
}

/// Unary := '-' Unary | Factor
pub open spec fn parse_unary_at(t: Seq<Token>, pos: int) -> Option<(Expr, int)>
    decreases t.len() - pos, 1int,
{
    if 0 <= pos && pos < t.len() {
        if t[pos] == Token::MINUS {
            match parse_unary_at(t, pos + 1) {
                Some((inner, p)) => Some(
                    (Expr::Unary { op: UnaryOp::Neg, expr: Box::new(inner) }, p),
                ),
                None => None,
            }
        } else {
            parse_factor_at(t, pos)
        }
    } else {
        None
    }
}

/// The iterated tail of Term: folds each following ('*' | '/') Unary pair
/// onto `acc`, keeping the tree built so far as the left child.
pub open spec fn parse_term_tail(t: Seq<Token>, pos: int, acc: Expr) -> Option<(Expr, int)>
    decreases t.len() - pos, 3int,
{
    if 0 <= pos && pos < t.len() && (t[pos] == Token::MUL || t[pos] == Token::DIV) {
        let op = if t[pos] == Token::MUL {
            BinaryOp::Mul
        } else {
            BinaryOp::Div
        };
        match parse_unary_at(t, pos + 1) {
            Some((right, p)) => if pos + 1 <= p && p <= t.len() {
                parse_term_tail(
                    t,
                    p,
                    Expr::Binary { left: Box::new(acc), op, right: Box::new(right) },
                )
            } else {
                None
            },
            None => None,
        }
    } else {
        Some((acc, pos))
    }
}

/// Term := Unary (('*' | '/') Unary)*
pub open spec fn parse_term_at(t: Seq<Token>, pos: int) -> Option<(Expr, int)>
    decreases t.len() - pos, 2int,
{
    match parse_unary_at(t, pos) {
        Some((first, p)) => if pos < p && p <= t.len() {
            parse_term_tail(t, p, first)
        } else {
            None
        },
        None => None,
    }
}

/// The iterated tail of Expr: folds each following ('+' | '-') Term pair
/// onto `acc`, keeping the tree built so far as the left child.
pub open spec fn parse_exp_tail(t: Seq<Token>, pos: int, acc: Expr) -> Option<(Expr, int)>
    decreases t.len() - pos, 5int,
{
    if 0 <= pos && pos < t.len() && (t[pos] == Token::PLUS || t[pos] == Token::MINUS) {
        let op = if t[pos] == Token::PLUS {
            BinaryOp::Add
        } else {
            BinaryOp::Sub
        };
        match parse_term_at(t, pos + 1) {
            Some((right, p)) => if pos + 1 <= p && p <= t.len() {
                parse_exp_tail(
                    t,
                    p,
                    Expr::Binary { left: Box::new(acc), op, right: Box::new(right) },
                )
            } else {
                None
            },
            None => None,
        }
    } else {
        Some((acc, pos))
    }
}

/// Expr := Term (('+' | '-') Term)*
pub open spec fn parse_exp_at(t: Seq<Token>, pos: int) -> Option<(Expr, int)>
    decreases t.len() - pos, 4int,
{
    match parse_term_at(t, pos) {
        Some((first, p)) => if pos < p && p <= t.len() {
            parse_exp_tail(t, p, first)
        } else {
            None
        },
        None => None,
    }
}

/// A recursive-descent parser over a fixed token sequence, with a single
/// integer cursor and one-token lookahead.
pub struct Parser {
    pub tokens: Vec<Token>,
    pub pos: usize,
}

impl Parser {
    /// The cursor never leaves the token sequence.
    pub open spec fn wf(self) -> bool {
        self.pos <= self.tokens.len()
    }

    /// A parser over `tokens`, cursor at position 0.
    pub fn init(tokens: Vec<Token>) -> (p: Parser)
        ensures
            p.wf(),
            p.tokens@ == tokens@,
            p.pos == 0,
    {
        Parser { tokens, pos: 0 }
    }

    /// The current token, without consuming it.
    pub fn peek(&self) -> (r: Option<Token>)
        ensures
            r == (if self.pos < self.tokens.len() {
                Some(self.tokens@[self.pos as int])
            } else {
                None::<Token>
            }),
    {
        if self.pos < self.tokens.len() {
            Some(self.tokens[self.pos])
        } else {
            None
        }
    }

    /// Consumes the current token and moves the cursor forward.
    pub fn advance(&mut self) -> (r: Option<Token>)
        requires
            old(self).wf(),
        ensures
            final(self).wf(),
            final(self).tokens@ == old(self).tokens@,
            old(self).pos < old(self).tokens.len() ==> r == Some(
                old(self).tokens@[old(self).pos as int],
            ) && final(self).pos == old(self).pos + 1,
            old(self).pos >= old(self).tokens.len() ==> r is None && final(self).pos == old(
                self,
            ).pos,
    {
        if self.pos < self.tokens.len() {
            let token = self.tokens[self.pos];
            self.pos = self.pos + 1;
            Some(token)
        } else {
            None
        }
    }

    /// Parses one Factor: a number literal, or a parenthesized expression
    /// that must be closed by `RPAREN`.
    pub fn parse_factor(&mut self) -> (r: Option<Expr>)
        requires
            old(self).wf(),
        ensures
            final(self).wf(),
            final(self).tokens@ == old(self).tokens@,
            old(self).pos <= final(self).pos,
            match r {
                Some(e) => parse_factor_at(old(self).tokens@, old(self).pos as int) == Some(
                    (e, final(self).pos as int),
                ) && old(self).pos < final(self).pos,
                None => parse_factor_at(old(self).tokens@, old(self).pos as int) is None,
            },
        decreases old(self).tokens@.len() - old(self).pos, 0int,
    {
        if self.pos >= self.tokens.len() {
            return None;
        }
        let token = self.tokens[self.pos];
        match token {
            Token::NUMBER(n) => {
                self.advance();
                Some(Expr::Number(n))
            },
            Token::LPAREN => {
                self.advance();
                let inner = match self.parse_exp() {
                    None => {
                        return None;
                    },
                    Some(e) => e,
                };
                if self.pos < self.tokens.len() {
                    let closing = self.tokens[self.pos];
                    match closing {
                        Token::RPAREN => {
                            self.advance();
                            Some(inner)
                        },
                        _ => None,
                    }
                } else {
                    None
                }
            },
            _ => None,
        }
    }

    /// Parses one Unary: any depth of leading minus signs over a Factor.
    pub fn parse_unary(&mut self) -> (r: Option<Expr>)
        requires
            old(self).wf(),
        ensures
            final(self).wf(),
            final(self).tokens@ == old(self).tokens@,
            old(self).pos <= final(self).pos,
            match r {
                Some(e) => parse_unary_at(old(self).tokens@, old(self).pos as int) == Some(
                    (e, final(self).pos as int),
                ) && old(self).pos < final(self).pos,
                None => parse_unary_at(old(self).tokens@, old(self).pos as int) is None,
            },
        decreases old(self).tokens@.len() - old(self).pos, 1int,
    {
        if self.pos >= self.tokens.len() {
            return None;
        }
        let token = self.tokens[self.pos];
        match token {
            Token::MINUS => {
                self.advance();
                let inner = match self.parse_unary() {
                    None => {
                        return None;
                    },
                    Some(e) => e,
                };
                Some(Expr::Unary { op: UnaryOp::Neg, expr: Box::new(inner) })
            },
            _ => self.parse_factor(),
        }
    }

    /// Parses one Term: a Unary followed by any number of ('*' | '/') Unary
    /// pairs, folded to the left.
    pub fn parse_term(&mut self) -> (r: Option<Expr>)
        requires
            old(self).wf(),
        ensures
            final(self).wf(),
            final(self).tokens@ == old(self).tokens@,
            old(self).pos <= final(self).pos,
            match r {
                Some(e) => parse_term_at(old(self).tokens@, old(self).pos as int) == Some(
                    (e, final(self).pos as int),
                ) && old(self).pos < final(self).pos,
                None => parse_term_at(old(self).tokens@, old(self).pos as int) is None,
            },
        decreases old(self).tokens@.len() - old(self).pos, 2int,
    {
        let mut left = match self.parse_unary() {
            None => {
                return None;
            },
            Some(e) => e,
        };
        while self.pos < self.tokens.len() && (self.tokens[self.pos] == Token::MUL
            || self.tokens[self.pos] == Token::DIV)
            invariant
                self.wf(),
                self.tokens@ == old(self).tokens@,
                old(self).pos < self.pos,
                parse_term_at(old(self).tokens@, old(self).pos as int) == parse_term_tail(
                    self.tokens@,
                    self.pos as int,
                    left,
                ),
            decreases self.tokens@.len() - self.pos,
        {
            let is_mul = self.tokens[self.pos] == Token::MUL;
            self.advance();
            let right = match self.parse_unary() {
                None => {
                    return None;
                },
                Some(e) => e,
            };
            left = Expr::Binary {
                left: Box::new(left),
                op: if is_mul {
                    BinaryOp::Mul
                } else {
                    BinaryOp::Div
                },
                right: Box::new(right),
            };
        }
        Some(left)
    }

    /// Parses one Expr: a Term followed by any number of ('+' | '-') Term
    /// pairs, folded to the left. This is the top-level entry point; the
    /// caller must check that the cursor reached `EOF` to accept the parse
    /// as complete.
    pub fn parse_exp(&mut self) -> (r: Option<Expr>)
        requires
            old(self).wf(),
        ensures
            final(self).wf(),
            final(self).tokens@ == old(self).tokens@,
            old(self).pos <= final(self).pos,
            match r {
                Some(e) => parse_exp_at(old(self).tokens@, old(self).pos as int) == Some(
                    (e, final(self).pos as int),
                ) && old(self).pos < final(self).pos,
                None => parse_exp_at(old(self).tokens@, old(self).pos as int) is None,
            },
        decreases old(self).tokens@.len() - old(self).pos, 4int,
    {
        let mut left = match self.parse_term() {
            None => {
                return None;
            },
            Some(e) => e,
        };
        while self.pos < self.tokens.len() && (self.tokens[self.pos] == Token::PLUS
            || self.tokens[self.pos] == Token::MINUS)
            invariant
                self.wf(),
                self.tokens@ == old(self).tokens@,
                old(self).pos < self.pos,
                parse_exp_at(old(self).tokens@, old(self).pos as int) == parse_exp_tail(
                    self.tokens@,
                    self.pos as int,
                    left,
                ),
            decreases self.tokens@.len() - self.pos,
        {
            let is_add = self.tokens[self.pos] == Token::PLUS;
            self.advance();
            let right = match self.parse_term() {
                None => {
                    return None;
                },
                Some(e) => e,
            };
            left = Expr::Binary {
                left: Box::new(left),
                op: if is_add {
                    BinaryOp::Add
                } else {
                    BinaryOp::Sub
                },
                right: Box::new(right),
            };
        }
        Some(left)
    }
}

} // verus!
