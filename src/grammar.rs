//! The grammar of the language as spec functions over a token sequence.
//!
//! Each function reads the tokens of one line from a position and gives the
//! parse outcome together with the position after it:
//!
//! ```text
//! factor    := Number | Identifier | '(' rightExpr ')'
//! term      := factor ( ('*'|'/') factor )*
//! compTerm  := term ( ('+'|'-') term )*
//! rightExpr := compTerm ( comparisonOp compTerm )?
//! expr      := Identifier '=' rightExpr | rightExpr
//! ```
//!
//! A few branches test that a position moved forward before the grammar
//! reads on from it; the parser proves that it always does, so those
//! branches are never taken. They keep every recursion visibly finite.
use vstd::prelude::*;
use crate::ast::{BinOp, Expr, Location, SyntaxError};
use crate::lexer::{is_digit, Token, TokenType};

verus! {

/// A parse outcome and the position after it.
pub type Outcome = (Result<Expr, SyntaxError>, int);

/// The token at `p`, if there is one on `line`.
pub open spec fn current(toks: Seq<Token>, line: int, p: int) -> Option<Token> {
    if 0 <= p < toks.len() && toks[p].line == line {
        Some(toks[p])
    } else {
        None
    }
}

/// Whether the token at `p` is on `line` and of kind `tt`.
pub open spec fn current_is(toks: Seq<Token>, line: int, p: int, tt: TokenType) -> bool {
    current(toks, line, p) is Some && current(toks, line, p)->0.ttype == tt
}

pub open spec fn location_of(t: Token) -> Location {
    Location(t.line, t.column)
}

/// Where a line that ends before `p` ends: the last character of the token
/// before `p`, or the start of the line when no token comes before.
pub open spec fn end_location(toks: Seq<Token>, line: int, p: int) -> Location {
    if 0 < p <= toks.len() {
        let t = toks[p - 1];
        Location(t.line, (t.column + t.value@.len() - 1) as usize)
    } else {
        Location(line as usize, 0)
    }
}

/// The error for a token, or for the end of the line, where none fits.
pub open spec fn unexpected_error(toks: Seq<Token>, line: int, p: int) -> SyntaxError {
    match current(toks, line, p) {
        Some(t) => SyntaxError::UnexpectedToken(t.value@, location_of(t)),
        None => SyntaxError::UnexpectedEndOfLine(end_location(toks, line, p)),
    }
}

/// The error for a group that is not closed at `p`.
pub open spec fn close_paren_error(toks: Seq<Token>, line: int, p: int) -> SyntaxError {
    match current(toks, line, p) {
        Some(t) => SyntaxError::ExpectedCloseParen(t.value@, location_of(t)),
        None => SyntaxError::ExpectedCloseParen(seq!['E', 'O', 'L'], end_location(toks, line, p)),
    }
}

pub open spec fn is_product_op(tt: TokenType) -> bool {
    tt == TokenType::Times || tt == TokenType::Div
}

pub open spec fn is_sum_op(tt: TokenType) -> bool {
    tt == TokenType::Plus || tt == TokenType::Minus
}

pub open spec fn is_comparison_op(tt: TokenType) -> bool {
    ||| tt == TokenType::GreaterThan
    ||| tt == TokenType::GreaterThanOrEqual
    ||| tt == TokenType::LessThan
    ||| tt == TokenType::LessThanOrEqual
    ||| tt == TokenType::Equal
}

pub open spec fn is_binary_op(tt: TokenType) -> bool {
    is_product_op(tt) || is_sum_op(tt) || is_comparison_op(tt)
}

pub open spec fn bin_op(tt: TokenType) -> BinOp {
    match tt {
        TokenType::Plus => BinOp::Sum,
        TokenType::Minus => BinOp::Sub,
        TokenType::Times => BinOp::Mul,
        TokenType::Div => BinOp::Div,
        TokenType::GreaterThan => BinOp::Gt,
        TokenType::GreaterThanOrEqual => BinOp::Ge,
        TokenType::LessThan => BinOp::Lt,
        TokenType::LessThanOrEqual => BinOp::Le,
        _ => BinOp::Eq,
    }
}

/// The node of a number or identifier token.
pub open spec fn leaf(t: Token) -> Expr {
    if t.ttype == TokenType::Number {
        Expr::Number(t.value@, location_of(t))
    } else {
        Expr::Identifier(t.value@, location_of(t))
    }
}

/// The node of an operator token with its two operands.
pub open spec fn binary(t: Token, left: Expr, right: Expr) -> Expr {
    Expr::Binary(bin_op(t.ttype), Box::new(left), Box::new(right), location_of(t))
}

pub open spec fn digit_count(s: Seq<char>) -> nat
    decreases s.len(),
{
    if s.len() == 0 {
        0
    } else {
        digit_count(s.drop_last()) + if is_digit(s.last()) { 1nat } else { 0nat }
    }
}

pub open spec fn dot_count(s: Seq<char>) -> nat
    decreases s.len(),
{
    if s.len() == 0 {
        0
    } else {
        dot_count(s.drop_last()) + if s.last() == '.' { 1nat } else { 0nat }
    }
}

/// A decimal literal: digits with at most one point, and at least one digit.
pub open spec fn is_decimal(s: Seq<char>) -> bool {
    &&& digit_count(s) >= 1
    &&& dot_count(s) <= 1
    &&& digit_count(s) + dot_count(s) == s.len()
}

/// What a number token parses to.
pub open spec fn number_result(t: Token) -> Result<Expr, SyntaxError> {
    if is_decimal(t.value@) {
        Ok(leaf(t))
    } else {
        Err(SyntaxError::UnexpectedToken(t.value@, location_of(t)))
    }
}

pub open spec fn factor(toks: Seq<Token>, line: int, p: int) -> Outcome
    decreases toks.len() - p, 0int,
{
    match current(toks, line, p) {
        Some(t) => if t.ttype == TokenType::Number {
            (number_result(t), p + 1)
        } else if t.ttype == TokenType::Identifier {
            (Ok(leaf(t)), p + 1)
        } else if t.ttype == TokenType::LeftParenthesis {
            let (r, q) = right_expr(toks, line, p + 1);
            match r {
                Ok(e) => if current_is(toks, line, q, TokenType::RightParenthesis) {
                    (Ok(e), q + 1)
                } else {
                    (Err(close_paren_error(toks, line, q)), q)
                },
                Err(e) => (Err(e), q),
            }
        } else {
            (Err(unexpected_error(toks, line, p)), p)
        },
        None => (Err(unexpected_error(toks, line, p)), p),
    }
}

/// The products and quotients that follow `left` at `p`.
pub open spec fn term_rest(toks: Seq<Token>, line: int, left: Expr, p: int) -> Outcome
    decreases toks.len() - p, 0int,
{
    let c = current(toks, line, p);
    if c is Some && is_product_op(c->0.ttype) {
        let (r, q) = factor(toks, line, p + 1);
        match r {
            Ok(right) => if p < q <= toks.len() {
                term_rest(toks, line, binary(c->0, left, right), q)
            } else {
                (Ok(left), q)
            },
            Err(e) => (Err(e), q),
        }
    } else {
        (Ok(left), p)
    }
}

pub open spec fn term(toks: Seq<Token>, line: int, p: int) -> Outcome
    decreases toks.len() - p, 1int,
{
    let (r, q) = factor(toks, line, p);
    match r {
        Ok(left) => if p <= q <= toks.len() {
            term_rest(toks, line, left, q)
        } else {
            (Ok(left), q)
        },
        Err(e) => (Err(e), q),
    }
}

/// The sums and differences that follow `left` at `p`.
pub open spec fn comp_term_rest(toks: Seq<Token>, line: int, left: Expr, p: int) -> Outcome
    decreases toks.len() - p, 1int,
{
    let c = current(toks, line, p);
    if c is Some && is_sum_op(c->0.ttype) {
        let (r, q) = term(toks, line, p + 1);
        match r {
            Ok(right) => if p < q <= toks.len() {
                comp_term_rest(toks, line, binary(c->0, left, right), q)
            } else {
                (Ok(left), q)
            },
            Err(e) => (Err(e), q),
        }
    } else {
        (Ok(left), p)
    }
}

pub open spec fn comp_term(toks: Seq<Token>, line: int, p: int) -> Outcome
    decreases toks.len() - p, 2int,
{
    let (r, q) = term(toks, line, p);
    match r {
        Ok(left) => if p <= q <= toks.len() {
            comp_term_rest(toks, line, left, q)
        } else {
            (Ok(left), q)
        },
        Err(e) => (Err(e), q),
    }
}

pub open spec fn right_expr(toks: Seq<Token>, line: int, p: int) -> Outcome
    decreases toks.len() - p, 3int,
{
    let (r, q) = comp_term(toks, line, p);
    match r {
        Ok(left) => {
            let c = current(toks, line, q);
            if c is Some && is_comparison_op(c->0.ttype) && p <= q {
                let (r2, q2) = comp_term(toks, line, q + 1);
                match r2 {
                    Ok(right) => (Ok(binary(c->0, left, right)), q2),
                    Err(e) => (Err(e), q2),
                }
            } else {
                (Ok(left), q)
            }
        },
        Err(e) => (Err(e), q),
    }
}

pub open spec fn expr(toks: Seq<Token>, line: int, p: int) -> Outcome {
    if current_is(toks, line, p, TokenType::Identifier) && current_is(toks, line, p + 1, TokenType::Assign) {
        let (r, q) = right_expr(toks, line, p + 2);
        match r {
            Ok(e) => (
                Ok(Expr::Assignment(toks[p].value@, Box::new(e), location_of(toks[p + 1]))),
                q,
            ),
            Err(e) => (Err(e), q),
        }
    } else {
        right_expr(toks, line, p)
    }
}

/// The first position from `p` on whose token is on `line` or later.
pub open spec fn skip_to_line(toks: Seq<Token>, p: int, line: int) -> int
    decreases toks.len() - p,
{
    if 0 <= p < toks.len() && toks[p].line < line {
        skip_to_line(toks, p + 1, line)
    } else {
        p
    }
}

/// One line: an expression that must reach the end of the line. After an
/// error the position moves past the rest of the line.
pub open spec fn line_outcome(toks: Seq<Token>, line: int, p: int) -> Outcome {
    let (r, q) = expr(toks, line, p);
    match r {
        Ok(e) => if current(toks, line, q) is None {
            (Ok(e), q)
        } else {
            (Err(unexpected_error(toks, line, q)), skip_to_line(toks, q, line + 1))
        },
        Err(e) => (Err(e), skip_to_line(toks, q, line + 1)),
    }
}

/// The statements and the errors of the lines from `line` on, starting at
/// position `p`, each in the order of the lines. Every line up to the last
/// token's is parsed, so a blank line among them is an error: it ends
/// before any expression, at the last character of the previous line's last
/// token (the start of the line when no token comes before).
pub open spec fn program(toks: Seq<Token>, line: int, p: int) -> (Seq<Expr>, Seq<SyntaxError>)
    decreases toks.len() - p, toks[p].line - line,
{
    let (r, q) = line_outcome(toks, line, p);
    let rest = if p <= q < toks.len() && toks[q].line > line {
        program(toks, line + 1, q)
    } else {
        (Seq::empty(), Seq::empty())
    };
    match r {
        Ok(e) => (seq![e] + rest.0, rest.1),
        Err(e) => (rest.0, seq![e] + rest.1),
    }
}

/// The outcome of parsing a whole token sequence: the statements of all
/// lines under a root, or the errors of every failing line.
pub open spec fn parse_tokens(toks: Seq<Token>) -> Result<Expr, SyntaxError> {
    if toks.len() == 0 {
        Ok(Expr::Root(Seq::empty(), Location(0, 0)))
    } else {
        let (statements, errors) = program(toks, 0, 0);
        if errors.len() == 0 {
            Ok(Expr::Root(statements, Location(0, 0)))
        } else {
            Err(SyntaxError::MultipleErrors(errors))
        }
    }
}

} // verus!
