//! Properties of the language, proved over the spec functions that the
//! lexer's and the parser's contracts use.
use vstd::prelude::*;
use crate::ast::{BinOp, Expr, Location, SyntaxError};
use crate::grammar::{
    binary, is_binary_op, is_comparison_op, is_decimal, is_product_op, is_sum_op, comp_term, comp_term_rest, current, expr, factor, leaf, line_outcome, parse_tokens, program,
    right_expr, skip_to_line, term, term_rest,
};
use crate::lexer::{is_blank, lex, lex_from, LexError, Lexeme, Token, TokenType};
use crate::symbols::SymbolTable;
use crate::eval::{apply, run, run_all, Number};

verus! {

broadcast use vstd::seq::group_seq_axioms;

/// The positions from `p` to `q` are in order within the text and all hold
/// tokens of `line`.
pub open spec fn reads_line(toks: Seq<Token>, line: int, p: int, q: int) -> bool {
    &&& p <= q <= toks.len()
    &&& forall|k: int| p <= k < q ==> (#[trigger] toks[k]).line == line
}

proof fn lemma_reads_line_join(toks: Seq<Token>, line: int, p: int, q: int, s: int)
    requires
        reads_line(toks, line, p, q),
        reads_line(toks, line, q, s),
    ensures
        reads_line(toks, line, p, s),
{
    assert forall|k: int| p <= k < s implies (#[trigger] toks[k]).line == line by {
        if k >= q {
            assert(reads_line(toks, line, q, s));
        }
    }
}

/// Each grammar function reads on from where it starts, and only tokens of
/// its own line.
proof fn lemma_factor_reads_line(toks: Seq<Token>, line: int, p: int)
    requires
        0 <= p <= toks.len(),
    ensures
        reads_line(toks, line, p, factor(toks, line, p).1),
        factor(toks, line, p).0 is Ok ==> factor(toks, line, p).1 > p,
    decreases toks.len() - p, 0int,
{
    if let Some(t) = current(toks, line, p) {
        if t.ttype == TokenType::LeftParenthesis {
            lemma_right_expr_reads_line(toks, line, p + 1);
            let q = right_expr(toks, line, p + 1).1;
            if current(toks, line, q) is Some {
                assert(reads_line(toks, line, p + 1, q + 1));
            }
            assert(reads_line(toks, line, p, p + 1));
            lemma_reads_line_join(toks, line, p, p + 1, q);
            if current(toks, line, q) is Some {
                lemma_reads_line_join(toks, line, p, p + 1, q + 1);
            }
        }
    }
}

proof fn lemma_term_rest_reads_line(toks: Seq<Token>, line: int, left: Expr, p: int)
    requires
        0 <= p <= toks.len(),
    ensures
        reads_line(toks, line, p, term_rest(toks, line, left, p).1),
    decreases toks.len() - p, 0int,
{
    let c = current(toks, line, p);
    if c is Some && crate::grammar::is_product_op(c->0.ttype) {
        lemma_factor_reads_line(toks, line, p + 1);
        let (r, q) = factor(toks, line, p + 1);
        assert(reads_line(toks, line, p, p + 1));
        lemma_reads_line_join(toks, line, p, p + 1, q);
        if r is Ok && p < q <= toks.len() {
            lemma_term_rest_reads_line(toks, line, binary(c->0, left, r->Ok_0), q);
            lemma_reads_line_join(toks, line, p, q, term_rest(toks, line, binary(c->0, left, r->Ok_0), q).1);
        }
    }
}

proof fn lemma_term_reads_line(toks: Seq<Token>, line: int, p: int)
    requires
        0 <= p <= toks.len(),
    ensures
        reads_line(toks, line, p, term(toks, line, p).1),
        term(toks, line, p).0 is Ok ==> term(toks, line, p).1 > p,
    decreases toks.len() - p, 1int,
{
    lemma_factor_reads_line(toks, line, p);
    let (r, q) = factor(toks, line, p);
    if r is Ok {
        lemma_term_rest_reads_line(toks, line, r->Ok_0, q);
        lemma_reads_line_join(toks, line, p, q, term_rest(toks, line, r->Ok_0, q).1);
    }
}

proof fn lemma_comp_term_rest_reads_line(toks: Seq<Token>, line: int, left: Expr, p: int)
    requires
        0 <= p <= toks.len(),
    ensures
        reads_line(toks, line, p, comp_term_rest(toks, line, left, p).1),
    decreases toks.len() - p, 1int,
{
    let c = current(toks, line, p);
    if c is Some && crate::grammar::is_sum_op(c->0.ttype) {
        lemma_term_reads_line(toks, line, p + 1);
        let (r, q) = term(toks, line, p + 1);
        assert(reads_line(toks, line, p, p + 1));
        lemma_reads_line_join(toks, line, p, p + 1, q);
        if r is Ok && p < q <= toks.len() {
            lemma_comp_term_rest_reads_line(toks, line, binary(c->0, left, r->Ok_0), q);
            lemma_reads_line_join(toks, line, p, q, comp_term_rest(toks, line, binary(c->0, left, r->Ok_0), q).1);
        }
    }
}

proof fn lemma_comp_term_reads_line(toks: Seq<Token>, line: int, p: int)
    requires
        0 <= p <= toks.len(),
    ensures
        reads_line(toks, line, p, comp_term(toks, line, p).1),
        comp_term(toks, line, p).0 is Ok ==> comp_term(toks, line, p).1 > p,
    decreases toks.len() - p, 2int,
{
    lemma_term_reads_line(toks, line, p);
    let (r, q) = term(toks, line, p);
    if r is Ok {
        lemma_comp_term_rest_reads_line(toks, line, r->Ok_0, q);
        lemma_reads_line_join(toks, line, p, q, comp_term_rest(toks, line, r->Ok_0, q).1);
    }
}

proof fn lemma_right_expr_reads_line(toks: Seq<Token>, line: int, p: int)
    requires
        0 <= p <= toks.len(),
    ensures
        reads_line(toks, line, p, right_expr(toks, line, p).1),
        right_expr(toks, line, p).0 is Ok ==> right_expr(toks, line, p).1 > p,
    decreases toks.len() - p, 3int,
{
    lemma_comp_term_reads_line(toks, line, p);
    let (r, q) = comp_term(toks, line, p);
    if r is Ok {
        let c = current(toks, line, q);
        if c is Some && crate::grammar::is_comparison_op(c->0.ttype) && p <= q {
            lemma_comp_term_reads_line(toks, line, q + 1);
            assert(reads_line(toks, line, q, q + 1));
            lemma_reads_line_join(toks, line, p, q, q + 1);
            lemma_reads_line_join(toks, line, p, q + 1, comp_term(toks, line, q + 1).1);
        }
    }
}

proof fn lemma_expr_reads_line(toks: Seq<Token>, line: int, p: int)
    requires
        0 <= p <= toks.len(),
    ensures
        reads_line(toks, line, p, expr(toks, line, p).1),
{
    if crate::grammar::current_is(toks, line, p, TokenType::Identifier) && crate::grammar::current_is(
        toks,
        line,
        p + 1,
        TokenType::Assign,
    ) {
        lemma_right_expr_reads_line(toks, line, p + 2);
        assert(reads_line(toks, line, p, p + 2));
        lemma_reads_line_join(toks, line, p, p + 2, right_expr(toks, line, p + 2).1);
    } else {
        lemma_right_expr_reads_line(toks, line, p);
    }
}

proof fn lemma_skip_to_line(toks: Seq<Token>, p: int, line: int, e: int)
    requires
        0 <= p <= e <= toks.len(),
        forall|k: int| p <= k < e ==> (#[trigger] toks[k]).line < line,
        e == toks.len() || toks[e].line >= line,
    ensures
        skip_to_line(toks, p, line) == e,
    decreases e - p,
{
    if p < e {
        lemma_skip_to_line(toks, p + 1, line, e);
    }
}

/// A failing line ends where the next line begins.
proof fn lemma_failing_line_ends(toks: Seq<Token>, line: int, p: int, e: int)
    requires
        0 <= p <= e <= toks.len(),
        forall|k: int| p <= k < e ==> (#[trigger] toks[k]).line == line,
        e == toks.len() || toks[e].line > line,
        line_outcome(toks, line, p).0 is Err,
    ensures
        line_outcome(toks, line, p).1 == e,
{
    lemma_expr_reads_line(toks, line, p);
    let q = expr(toks, line, p).1;
    if q > e {
        assert(toks[e].line == line);
    }
    lemma_skip_to_line(toks, q, line + 1, e);
}

/// `short` is `toks` cut at `e`, and no token from `e` on is on `line`: the
/// two look the same to a parse of `line` that starts at or before `e`.
pub open spec fn cut_after_line(toks: Seq<Token>, short: Seq<Token>, line: int, e: int) -> bool {
    &&& 0 <= e <= toks.len()
    &&& short == toks.take(e)
    &&& forall|k: int| e <= k < toks.len() ==> (#[trigger] toks[k]).line != line
}

proof fn lemma_cut_agrees(toks: Seq<Token>, short: Seq<Token>, line: int, e: int, k: int)
    requires
        cut_after_line(toks, short, line, e),
    ensures
        current(toks, line, k) == current(short, line, k),
        0 <= k <= e ==> crate::grammar::end_location(toks, line, k) == crate::grammar::end_location(short, line, k),
{
    if 0 <= k < e {
        assert(short[k] == toks[k]);
    }
    if 0 < k <= e {
        assert(short[k - 1] == toks[k - 1]);
    }
}

proof fn lemma_factor_cut(toks: Seq<Token>, short: Seq<Token>, line: int, e: int, p: int)
    requires
        cut_after_line(toks, short, line, e),
        0 <= p <= e,
    ensures
        factor(toks, line, p) == factor(short, line, p),
    decreases short.len() - p, 0int,
{
    lemma_cut_agrees(toks, short, line, e, p);
    if let Some(t) = current(short, line, p) {
        if t.ttype == TokenType::LeftParenthesis {
            lemma_right_expr_cut(toks, short, line, e, p + 1);
            lemma_right_expr_reads_line(short, line, p + 1);
            let q = right_expr(short, line, p + 1).1;
            lemma_cut_agrees(toks, short, line, e, q);
        }
    }
}

proof fn lemma_term_rest_cut(toks: Seq<Token>, short: Seq<Token>, line: int, e: int, left: Expr, p: int)
    requires
        cut_after_line(toks, short, line, e),
        0 <= p <= e,
    ensures
        term_rest(toks, line, left, p) == term_rest(short, line, left, p),
    decreases short.len() - p, 0int,
{
    lemma_cut_agrees(toks, short, line, e, p);
    let c = current(short, line, p);
    if c is Some && crate::grammar::is_product_op(c->0.ttype) {
        lemma_factor_cut(toks, short, line, e, p + 1);
        lemma_factor_reads_line(short, line, p + 1);
        let (r, q) = factor(short, line, p + 1);
        if r is Ok && p < q <= short.len() {
            lemma_term_rest_cut(toks, short, line, e, binary(c->0, left, r->Ok_0), q);
        }
    }
}

proof fn lemma_term_cut(toks: Seq<Token>, short: Seq<Token>, line: int, e: int, p: int)
    requires
        cut_after_line(toks, short, line, e),
        0 <= p <= e,
    ensures
        term(toks, line, p) == term(short, line, p),
    decreases short.len() - p, 1int,
{
    lemma_factor_cut(toks, short, line, e, p);
    lemma_factor_reads_line(short, line, p);
    let (r, q) = factor(short, line, p);
    if r is Ok {
        lemma_term_rest_cut(toks, short, line, e, r->Ok_0, q);
    }
}

proof fn lemma_comp_term_rest_cut(toks: Seq<Token>, short: Seq<Token>, line: int, e: int, left: Expr, p: int)
    requires
        cut_after_line(toks, short, line, e),
        0 <= p <= e,
    ensures
        comp_term_rest(toks, line, left, p) == comp_term_rest(short, line, left, p),
    decreases short.len() - p, 1int,
{
    lemma_cut_agrees(toks, short, line, e, p);
    let c = current(short, line, p);
    if c is Some && crate::grammar::is_sum_op(c->0.ttype) {
        lemma_term_cut(toks, short, line, e, p + 1);
        lemma_term_reads_line(short, line, p + 1);
        let (r, q) = term(short, line, p + 1);
        if r is Ok && p < q <= short.len() {
            lemma_comp_term_rest_cut(toks, short, line, e, binary(c->0, left, r->Ok_0), q);
        }
    }
}

proof fn lemma_comp_term_cut(toks: Seq<Token>, short: Seq<Token>, line: int, e: int, p: int)
    requires
        cut_after_line(toks, short, line, e),
        0 <= p <= e,
    ensures
        comp_term(toks, line, p) == comp_term(short, line, p),
    decreases short.len() - p, 2int,
{
    lemma_term_cut(toks, short, line, e, p);
    lemma_term_reads_line(short, line, p);
    let (r, q) = term(short, line, p);
    if r is Ok {
        lemma_comp_term_rest_cut(toks, short, line, e, r->Ok_0, q);
    }
}

proof fn lemma_right_expr_cut(toks: Seq<Token>, short: Seq<Token>, line: int, e: int, p: int)
    requires
        cut_after_line(toks, short, line, e),
        0 <= p <= e,
    ensures
        right_expr(toks, line, p) == right_expr(short, line, p),
    decreases short.len() - p, 3int,
{
    lemma_comp_term_cut(toks, short, line, e, p);
    lemma_comp_term_reads_line(short, line, p);
    let (r, q) = comp_term(short, line, p);
    if r is Ok {
        lemma_cut_agrees(toks, short, line, e, q);
        let c = current(short, line, q);
        if c is Some && crate::grammar::is_comparison_op(c->0.ttype) && p <= q {
            lemma_comp_term_cut(toks, short, line, e, q + 1);
        }
    }
}

/// What a line parses to does not depend on the lines after it.
proof fn lemma_line_outcome_cut(toks: Seq<Token>, short: Seq<Token>, line: int, e: int, p: int)
    requires
        cut_after_line(toks, short, line, e),
        0 <= p <= e,
    ensures
        line_outcome(toks, line, p).0 == line_outcome(short, line, p).0,
{
    lemma_cut_agrees(toks, short, line, e, p);
    lemma_cut_agrees(toks, short, line, e, p + 1);
    if crate::grammar::current_is(short, line, p, TokenType::Identifier) && crate::grammar::current_is(
        short,
        line,
        p + 1,
        TokenType::Assign,
    ) {
        assert(short[p] == toks[p] && short[p + 1] == toks[p + 1]);
        lemma_right_expr_cut(toks, short, line, e, p + 2);
    } else {
        lemma_right_expr_cut(toks, short, line, e, p);
    }
    lemma_expr_reads_line(short, line, p);
    lemma_cut_agrees(toks, short, line, e, expr(short, line, p).1);
}

/// Every failing line is reported, in the order of the lines: when the
/// first and the second line of a text both fail, parsing fails with the
/// errors of both, the first line's error first; and the first line's error
/// is the one that line gives on its own.
pub proof fn law_errors_of_every_line(toks: Seq<Token>, split: int)
    requires
        0 < split < toks.len(),
        forall|k: int| 0 <= k < split ==> (#[trigger] toks[k]).line == 0,
        forall|k: int| split <= k < toks.len() ==> (#[trigger] toks[k]).line == 1,
        line_outcome(toks, 0, 0).0 is Err,
        line_outcome(toks, 1, split).0 is Err,
    ensures
        parse_tokens(toks) == Err::<Expr, SyntaxError>(
            SyntaxError::MultipleErrors(
                seq![line_outcome(toks, 0, 0).0->Err_0, line_outcome(toks, 1, split).0->Err_0],
            ),
        ),
        line_outcome(toks, 0, 0).0 == line_outcome(toks.take(split), 0, 0).0,
{
    lemma_line_outcome_cut(toks, toks.take(split), 0, split, 0);
    lemma_failing_line_ends(toks, 0, 0, split);
    lemma_failing_line_ends(toks, 1, split, toks.len() as int);
    let e0 = line_outcome(toks, 0, 0).0->Err_0;
    let e1 = line_outcome(toks, 1, split).0->Err_0;
    assert(program(toks, 1, split) == (Seq::<Expr>::empty(), seq![e1]));
    assert(program(toks, 0, 0) == (Seq::<Expr>::empty(), seq![e0] + seq![e1]));
    assert(seq![e0] + seq![e1] == seq![e0, e1]);
}

/// A token that is a whole operand: an identifier or a decimal literal.
pub open spec fn is_operand(t: Token) -> bool {
    t.ttype == TokenType::Identifier || (t.ttype == TokenType::Number && is_decimal(t.value@))
}

proof fn lemma_operand_factor(toks: Seq<Token>, line: int, p: int)
    requires
        0 <= p < toks.len(),
        toks[p].line == line,
        is_operand(toks[p]),
    ensures
        factor(toks, line, p) == (Ok::<Expr, SyntaxError>(leaf(toks[p])), p + 1),
{
}

/// Where no operator follows, each level of the grammar hands on what the
/// level below read.
proof fn lemma_no_operator_after(toks: Seq<Token>, line: int, p: int, e: Expr)
    requires
        0 <= p <= toks.len(),
        current(toks, line, p) is None || current(toks, line, p)->0.ttype == TokenType::RightParenthesis,
    ensures
        term_rest(toks, line, e, p) == (Ok::<Expr, SyntaxError>(e), p),
        comp_term_rest(toks, line, e, p) == (Ok::<Expr, SyntaxError>(e), p),
{
}

/// Inside `depth - d` opening parentheses, the rest of the group reads the
/// operand and `d` closing parentheses.
proof fn lemma_nested_group(toks: Seq<Token>, depth: int, d: int)
    requires
        0 <= d <= depth,
        toks.len() == 2 * depth + 1,
        forall|k: int| 0 <= k < toks.len() ==> (#[trigger] toks[k]).line == 0,
        forall|k: int| 0 <= k < depth ==> (#[trigger] toks[k]).ttype == TokenType::LeftParenthesis,
        forall|k: int| depth < k < toks.len() ==> (#[trigger] toks[k]).ttype == TokenType::RightParenthesis,
        is_operand(toks[depth]),
    ensures
        right_expr(toks, 0, depth - d) == (Ok::<Expr, SyntaxError>(leaf(toks[depth])), depth + d + 1),
    decreases d,
{
    let p = depth - d;
    let e = leaf(toks[depth]);
    let after = depth + d + 1;
    assert(current(toks, 0, after) is None || current(toks, 0, after)->0.ttype == TokenType::RightParenthesis) by {
        if after < toks.len() {
            assert(toks[after].ttype == TokenType::RightParenthesis);
        }
    }
    lemma_no_operator_after(toks, 0, after, e);
    if d == 0 {
        lemma_operand_factor(toks, 0, depth);
    } else {
        lemma_nested_group(toks, depth, d - 1);
        assert(toks[p].ttype == TokenType::LeftParenthesis);
        assert(toks[depth + d].ttype == TokenType::RightParenthesis);
        assert(factor(toks, 0, p) == (Ok::<Expr, SyntaxError>(e), after));
    }
    assert(term(toks, 0, p) == (Ok::<Expr, SyntaxError>(e), after));
    assert(comp_term(toks, 0, p) == (Ok::<Expr, SyntaxError>(e), after));
}

/// Parentheses around a single operand change nothing, however deep they
/// nest: the line parses to the operand's own node.
pub proof fn law_parentheses_around_operand(toks: Seq<Token>, depth: nat)
    requires
        toks.len() == 2 * depth + 1,
        forall|k: int| 0 <= k < toks.len() ==> (#[trigger] toks[k]).line == 0,
        forall|k: int| 0 <= k < depth ==> (#[trigger] toks[k]).ttype == TokenType::LeftParenthesis,
        forall|k: int| depth < k < toks.len() ==> (#[trigger] toks[k]).ttype == TokenType::RightParenthesis,
        is_operand(toks[depth as int]),
    ensures
        parse_tokens(toks) == Ok::<Expr, SyntaxError>(Expr::Root(seq![leaf(toks[depth as int])], Location(0, 0))),
{
    let e = leaf(toks[depth as int]);
    lemma_nested_group(toks, depth as int, depth as int);
    if depth > 0 {
        assert(toks[0].ttype == TokenType::LeftParenthesis);
    }
    assert(expr(toks, 0, 0) == (Ok::<Expr, SyntaxError>(e), toks.len() as int));
    assert(line_outcome(toks, 0, 0) == (Ok::<Expr, SyntaxError>(e), toks.len() as int));
    assert(program(toks, 0, 0) == (seq![e] + Seq::<Expr>::empty(), Seq::<SyntaxError>::empty()));
    assert(seq![e] + Seq::<Expr>::empty() == seq![e]);
}

/// How tightly an operator binds: products tighter than sums, sums tighter
/// than comparisons.
pub open spec fn binding(tt: TokenType) -> int {
    if is_product_op(tt) {
        2
    } else if is_sum_op(tt) {
        1
    } else {
        0
    }
}

/// The tree of `a o1 b o2 c` where each operator binds as `binding` says and
/// operators that bind alike group to the left.
pub open spec fn grouped(toks: Seq<Token>) -> Expr {
    let (a, b, c) = (leaf(toks[0]), leaf(toks[2]), leaf(toks[4]));
    if binding(toks[1].ttype) >= binding(toks[3].ttype) {
        binary(toks[3], binary(toks[1], a, b), c)
    } else {
        binary(toks[1], a, binary(toks[3], b, c))
    }
}

/// Operator precedence: in a line `a o1 b o2 c`, products and quotients bind
/// tighter than sums and differences, which bind tighter than comparisons;
/// arithmetic operators that bind alike group to the left; and a second
/// comparison after a first one is refused, since comparisons do not chain.
pub proof fn law_precedence(toks: Seq<Token>)
    requires
        toks.len() == 5,
        forall|k: int| 0 <= k < toks.len() ==> (#[trigger] toks[k]).line == 0,
        is_operand(toks[0]),
        is_operand(toks[2]),
        is_operand(toks[4]),
        is_binary_op(toks[1].ttype),
        is_binary_op(toks[3].ttype),
    ensures
        !(is_comparison_op(toks[1].ttype) && is_comparison_op(toks[3].ttype)) ==> parse_tokens(toks)
            == Ok::<Expr, SyntaxError>(Expr::Root(seq![grouped(toks)], Location(0, 0))),
        is_comparison_op(toks[1].ttype) && is_comparison_op(toks[3].ttype) ==> parse_tokens(toks) is Err,
{
    let (o1, o2) = (toks[1].ttype, toks[3].ttype);
    let (a, b, c) = (leaf(toks[0]), leaf(toks[2]), leaf(toks[4]));
    lemma_operand_factor(toks, 0, 0);
    lemma_operand_factor(toks, 0, 2);
    lemma_operand_factor(toks, 0, 4);
    let g = grouped(toks);
    lemma_no_operator_after(toks, 0, 5, c);
    lemma_no_operator_after(toks, 0, 5, g);
    if is_product_op(o1) {
        let ab = binary(toks[1], a, b);
        assert(term_rest(toks, 0, a, 1) == term_rest(toks, 0, ab, 3));
        if is_product_op(o2) {
            assert(term(toks, 0, 0) == (Ok::<Expr, SyntaxError>(g), 5int));
        } else if is_sum_op(o2) {
            assert(term(toks, 0, 0) == (Ok::<Expr, SyntaxError>(ab), 3int));
            assert(comp_term(toks, 0, 0) == comp_term_rest(toks, 0, ab, 3));
            assert(term(toks, 0, 4) == (Ok::<Expr, SyntaxError>(c), 5int));
        } else {
            assert(term(toks, 0, 0) == (Ok::<Expr, SyntaxError>(ab), 3int));
            assert(comp_term(toks, 0, 0) == (Ok::<Expr, SyntaxError>(ab), 3int));
            assert(term(toks, 0, 4) == (Ok::<Expr, SyntaxError>(c), 5int));
            assert(comp_term(toks, 0, 4) == (Ok::<Expr, SyntaxError>(c), 5int));
        }
    } else if is_sum_op(o1) {
        assert(term(toks, 0, 0) == (Ok::<Expr, SyntaxError>(a), 1int));
        if is_product_op(o2) {
            let bc = binary(toks[3], b, c);
            assert(term(toks, 0, 2) == (Ok::<Expr, SyntaxError>(bc), 5int));
            lemma_no_operator_after(toks, 0, 5, bc);
        } else if is_sum_op(o2) {
            assert(term(toks, 0, 2) == (Ok::<Expr, SyntaxError>(b), 3int));
            assert(term(toks, 0, 4) == (Ok::<Expr, SyntaxError>(c), 5int));
            let ab = binary(toks[1], a, b);
            assert(comp_term_rest(toks, 0, a, 1) == comp_term_rest(toks, 0, ab, 3));
        } else {
            let ab = binary(toks[1], a, b);
            assert(term(toks, 0, 2) == (Ok::<Expr, SyntaxError>(b), 3int));
            assert(comp_term(toks, 0, 0) == (Ok::<Expr, SyntaxError>(ab), 3int));
            assert(term(toks, 0, 4) == (Ok::<Expr, SyntaxError>(c), 5int));
            assert(comp_term(toks, 0, 4) == (Ok::<Expr, SyntaxError>(c), 5int));
        }
    } else {
        assert(term(toks, 0, 0) == (Ok::<Expr, SyntaxError>(a), 1int));
        assert(comp_term(toks, 0, 0) == (Ok::<Expr, SyntaxError>(a), 1int));
        if is_product_op(o2) {
            let bc = binary(toks[3], b, c);
            assert(term(toks, 0, 2) == (Ok::<Expr, SyntaxError>(bc), 5int));
            lemma_no_operator_after(toks, 0, 5, bc);
            assert(comp_term(toks, 0, 2) == (Ok::<Expr, SyntaxError>(bc), 5int));
        } else if is_sum_op(o2) {
            let bc = binary(toks[3], b, c);
            assert(term(toks, 0, 2) == (Ok::<Expr, SyntaxError>(b), 3int));
            assert(term(toks, 0, 4) == (Ok::<Expr, SyntaxError>(c), 5int));
            lemma_no_operator_after(toks, 0, 5, bc);
            assert(comp_term(toks, 0, 2) == (Ok::<Expr, SyntaxError>(bc), 5int));
        } else {
            assert(term(toks, 0, 2) == (Ok::<Expr, SyntaxError>(b), 3int));
            assert(comp_term(toks, 0, 2) == (Ok::<Expr, SyntaxError>(b), 3int));
            assert(right_expr(toks, 0, 0).1 == 3);
            assert(line_outcome(toks, 0, 0).0 is Err);
            assert(program(toks, 0, 0).1.len() > 0);
            return;
        }
    }
    assert(right_expr(toks, 0, 0) == (Ok::<Expr, SyntaxError>(g), 5int));
    assert(line_outcome(toks, 0, 0) == (Ok::<Expr, SyntaxError>(g), 5int));
    assert(program(toks, 0, 0) == (seq![g] + Seq::<Expr>::empty(), Seq::<SyntaxError>::empty()));
    assert(seq![g] + Seq::<Expr>::empty() == seq![g]);
}

proof fn lemma_blank_rest(cs: Seq<char>, i: int, line: int, column: int)
    requires
        0 <= i,
        forall|k: int| i <= k < cs.len() ==> is_blank(#[trigger] cs[k]) || cs[k] == '\n',
    ensures
        lex_from(cs, i, line, column) == Ok::<Seq<Lexeme>, LexError>(Seq::empty()),
    decreases cs.len() - i,
{
    if i < cs.len() {
        if cs[i] == '\n' {
            lemma_blank_rest(cs, i + 1, line + 1, 0);
        } else {
            lemma_blank_rest(cs, i + 1, line, column + 1);
        }
    }
}

/// A text of nothing but blanks and line breaks, the empty text among them,
/// has no tokens and parses to a program of no statements, not to an error;
/// running no statements gives no values and leaves the table as it was.
pub proof fn law_blank_text_has_no_statements<V: Number>(cs: Seq<char>, t: Map<Seq<char>, V>)
    requires
        forall|k: int| 0 <= k < cs.len() ==> is_blank(#[trigger] cs[k]) || cs[k] == '\n',
    ensures
        lex(cs) == Ok::<Seq<Lexeme>, LexError>(Seq::empty()),
        parse_tokens(Seq::empty()) == Ok::<Expr, SyntaxError>(Expr::Root(Seq::empty(), Location(0, 0))),
        run_all(Seq::<Expr>::empty(), t) == (Ok::<Seq<V>, (Seq<char>, Location)>(Seq::empty()), t),
{
    lemma_blank_rest(cs, 0, 0, 0);
}

/// An assignment is seen by every later lookup: once `insert` has given
/// `name` the value `value`, `lookup` of `name` finds `value`, and every
/// other name keeps what it had.
pub proof fn law_assignment_then_lookup<V: Copy>(
    before: SymbolTable<V>,
    after: SymbolTable<V>,
    name: Seq<char>,
    value: V,
)
    requires
        after@ == before@.insert(name, value),
    ensures
        after@.contains_key(name),
        after@[name] == value,
        forall|k: Seq<char>| k != name ==> (#[trigger] after@.contains_key(k) <==> before@.contains_key(k)),
        forall|k: Seq<char>| k != name && #[trigger] before@.contains_key(k) ==> after@[k] == before@[k],
{
}

/// An assignment is visible to the statements after it: once `name = value`
/// has run to the value `v`, the next statement runs against the table with
/// `name` holding `v`; so a later read of `name` gives `v`, and the two
/// statements give `v` each.
pub proof fn law_assignment_visible_later<V: Number>(
    name: Seq<char>,
    value: Expr,
    at: Location,
    later: Expr,
    read_at: Location,
    t: Map<Seq<char>, V>,
    v: V,
)
    requires
        run(value, t).0 == Ok::<V, (Seq<char>, Location)>(v),
    ensures
        ({
            let assignment = Expr::Assignment(name, Box::new(value), at);
            let stored = run(value, t).1.insert(name, v);
            &&& run(assignment, t) == (Ok::<V, (Seq<char>, Location)>(v), stored)
            &&& run_all(seq![assignment, later], t) == match run(later, stored).0 {
                Ok(w) => (Ok::<Seq<V>, (Seq<char>, Location)>(seq![v, w]), run(later, stored).1),
                Err(x) => (Err(x), run(later, stored).1),
            }
            &&& run_all(seq![assignment, Expr::Identifier(name, read_at)], t) == (
                Ok::<Seq<V>, (Seq<char>, Location)>(seq![v, v]),
                stored,
            )
        }),
{
    let assignment = Expr::Assignment(name, Box::new(value), at);
    let stored = run(value, t).1.insert(name, v);
    assert(run(assignment, t) == (Ok::<V, (Seq<char>, Location)>(v), stored));
    let first = seq![assignment];
    assert(first.drop_last() == Seq::<Expr>::empty() && first.last() == assignment);
    assert(Seq::<V>::empty().push(v) == seq![v]);
    assert(run_all(Seq::<Expr>::empty(), t) == (Ok::<Seq<V>, (Seq<char>, Location)>(Seq::empty()), t));
    assert(run_all(first, t) == (Ok::<Seq<V>, (Seq<char>, Location)>(seq![v]), stored));
    assert(seq![assignment, later].drop_last() == first && seq![assignment, later].last() == later);
    let read = Expr::Identifier(name, read_at);
    assert(seq![assignment, read].drop_last() == first && seq![assignment, read].last() == read);
    assert(Seq::<V>::empty().push(v) == seq![v]);
    assert(seq![v].push(v) == seq![v, v]);
    assert forall|w: V| seq![v].push(w) == seq![v, w] by {
        assert(seq![v].push(w) =~= seq![v, w]);
    }
    assert(run(read, stored) == (Ok::<V, (Seq<char>, Location)>(v), stored));
    assert(run_all(seq![assignment, read], t) == (Ok::<Seq<V>, (Seq<char>, Location)>(seq![v, v]), stored));
    let (rl, tl) = run(later, stored);
    assert(run_all(seq![assignment, later], t) == match rl {
        Ok(w) => (Ok::<Seq<V>, (Seq<char>, Location)>(seq![v, w]), tl),
        Err(x) => (Err(x), tl),
    });
}

/// A tree of literals and arithmetic or comparison operators.
pub open spec fn literal_only(e: Expr) -> bool
    decreases e,
{
    match e {
        Expr::Number(..) => true,
        Expr::Binary(_, l, r, _) => literal_only(*l) && literal_only(*r),
        _ => false,
    }
}

/// A tree of literals always has a value, the same against any table, and
/// evaluating it leaves the table as it was.
pub proof fn law_literal_tree_value<V: Number>(e: Expr, t1: Map<Seq<char>, V>, t2: Map<Seq<char>, V>)
    requires
        literal_only(e),
    ensures
        run(e, t1).0 is Ok,
        run(e, t1).0 == run(e, t2).0,
        run(e, t1).1 == t1,
    decreases e,
{
    if let Expr::Binary(op, l, r, _) = e {
        law_literal_tree_value(*l, t1, t2);
        law_literal_tree_value(*r, t1, t2);
        law_literal_tree_value(*r, t2, t1);
        law_literal_tree_value(*l, t2, t1);
        let a = run(*l, t1).0->Ok_0;
        let b = run(*r, t1).0->Ok_0;
        assert(run(e, t1) == (Ok::<V, (Seq<char>, Location)>(apply(op, a, b)), t1));
        assert(run(e, t2).0 == Ok::<V, (Seq<char>, Location)>(apply(op, a, b)));
    }
}

/// A comparison gives exactly one or zero: one when it holds.
pub proof fn law_comparison_is_one_or_zero<V: Number>(op: BinOp, a: V, b: V)
    requires
        op is Gt || op is Ge || op is Lt || op is Le || op is Eq,
    ensures
        apply(op, a, b) == V::one_value() || apply(op, a, b) == V::zero_value(),
        op is Eq ==> (apply(op, a, b) == V::one_value() <==> a.is_near(b)) || V::one_value() == V::zero_value(),
{
}

} // verus!
