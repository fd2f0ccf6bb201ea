use vstd::prelude::*;
use vstd::string::*;
use crate::ast::{
    lemma_view_errors, result_view, view_errors, view_nodes, Expr, Location, NodeType, ParseNode, ParsingError,
    SyntaxError,
};
use crate::grammar::{
    binary, close_paren_error, comp_term, comp_term_rest, current, current_is, digit_count, dot_count, end_location,
    expr, factor, is_binary_op, is_comparison_op, is_decimal, is_product_op, is_sum_op, leaf, line_outcome,
    location_of, number_result, parse_tokens, program, right_expr, skip_to_line, term, term_rest, unexpected_error,
};
use crate::lexer::{tokens_wf, Token, TokenType};

verus! {

broadcast use {vstd::std_specs::vec::group_vec_axioms, vstd::seq::group_seq_axioms};

/// A precedence-climbing parser over a token sequence, one line at a time.
pub struct Parser<'a> {
    input: &'a [Token],
    position: usize,
    line: usize,
}

/// The token a lookup found, as a value.
pub open spec fn found(o: Option<&Token>) -> Option<Token> {
    match o {
        Some(t) => Some(*t),
        None => None,
    }
}

impl<'a> Parser<'a> {
    pub closed spec fn tokens(&self) -> Seq<Token> {
        self.input@
    }

    /// The index of the next token to read.
    pub closed spec fn pos(&self) -> int {
        self.position as int
    }

    /// The line being parsed.
    pub closed spec fn line_no(&self) -> int {
        self.line as int
    }

    pub closed spec fn wf(&self) -> bool {
        &&& tokens_wf(self.input@)
        &&& self.position <= self.input@.len()
    }

    /// `self` is `before` after reading on along the same line.
    pub closed spec fn advanced_from(&self, before: &Self) -> bool {
        &&& self.input@ == before.input@
        &&& self.line == before.line
        &&& before.position <= self.position <= self.input@.len()
        &&& forall|k: int| before.position <= k < self.position ==> (#[trigger] self.input@[k]).line == self.line
    }

    /// A parse result `r` together with the position the parser stands at.
    pub open spec fn outcome(&self, r: Result<ParseNode, ParsingError>) -> (Result<Expr, SyntaxError>, int) {
        (result_view(r), self.pos())
    }

    pub fn new(input: &'a [Token]) -> (r: Self)
        requires
            tokens_wf(input@),
        ensures
            r.wf(),
            r.tokens() == input@,
            r.pos() == 0,
            r.line_no() == 0,
    {
        Parser { input, position: 0, line: 0 }
    }

    /// The index of the next token to read.
    pub fn position(&self) -> (r: usize)
        ensures
            r == self.pos(),
    {
        self.position
    }

    fn look_ahead(&self, count: usize) -> (r: Option<&'a Token>)
        requires
            self.wf(),
        ensures
            found(r) == current(self.tokens(), self.line_no(), self.pos() + count),
    {
        if count < self.input.len() - self.position {
            let token = &self.input[self.position + count];
            if token.line == self.line {
                Some(token)
            } else {
                None
            }
        } else {
            None
        }
    }

    fn current(&self) -> (r: Option<&'a Token>)
        requires
            self.wf(),
        ensures
            found(r) == current(self.tokens(), self.line_no(), self.pos()),
    {
        self.look_ahead(0)
    }

    fn move_forward(&mut self, count: usize)
        requires
            old(self).wf(),
            old(self).pos() + count <= old(self).tokens().len(),
            forall|k: int| old(self).pos() <= k < old(self).pos() + count ==> (#[trigger] old(self).tokens()[k]).line == old(self).line_no(),
        ensures
            final(self).advanced_from(old(self)),
            final(self).pos() == old(self).pos() + count,
    {
        let len = self.input.len();
        assert(self.position + count <= len);
        self.position = self.position + count;
    }

    fn advance(&mut self)
        requires
            old(self).wf(),
            current(old(self).tokens(), old(self).line_no(), old(self).pos()) is Some,
        ensures
            final(self).advanced_from(old(self)),
            final(self).pos() == old(self).pos() + 1,
    {
        self.move_forward(1);
    }

    /// The current token if it is of kind `token_type`, read past it when
    /// `advance` is set.
    fn check_current(&mut self, token_type: TokenType, advance: bool) -> (r: Option<&'a Token>)
        requires
            old(self).wf(),
        ensures
            final(self).advanced_from(old(self)),
            if current_is(old(self).tokens(), old(self).line_no(), old(self).pos(), token_type) {
                &&& found(r) == current(old(self).tokens(), old(self).line_no(), old(self).pos())
                &&& final(self).pos() == old(self).pos() + if advance { 1int } else { 0int }
            } else {
                r is None && final(self).pos() == old(self).pos()
            },
    {
        match self.current() {
            Some(token) => {
                if token.ttype == token_type {
                    if advance {
                        self.advance();
                    }
                    Some(token)
                } else {
                    None
                }
            },
            None => None,
        }
    }

    /// The token `count` places ahead if it is on this line and of kind `token_type`.
    fn check_ahead(&self, token_type: TokenType, count: usize) -> (r: Option<&'a Token>)
        requires
            self.wf(),
        ensures
            if current_is(self.tokens(), self.line_no(), self.pos() + count, token_type) {
                found(r) == current(self.tokens(), self.line_no(), self.pos() + count)
            } else {
                r is None
            },
    {
        match self.look_ahead(count) {
            Some(token) => if token.ttype == token_type {
                Some(token)
            } else {
                None
            },
            None => None,
        }
    }

    fn token_to_node(token: &Token) -> (r: ParseNode)
        requires
            token.ttype == TokenType::Number || token.ttype == TokenType::Identifier,
        ensures
            r@ == leaf(*token),
    {
        let value = token.value.clone();
        let ntype = if token.ttype == TokenType::Number {
            NodeType::Number(value)
        } else {
            NodeType::Identifier(value)
        };
        ParseNode { ntype, location: Location(token.line, token.column) }
    }

    fn token_to_bin_op_node(token: &Token, left_child: ParseNode, right_child: ParseNode) -> (r: ParseNode)
        requires
            is_binary_op(token.ttype),
        ensures
            r@ == binary(*token, left_child@, right_child@),
    {
        let left_child = Box::new(left_child);
        let right_child = Box::new(right_child);
        let ntype = match token.ttype {
            TokenType::Plus => NodeType::Sum(left_child, right_child),
            TokenType::Minus => NodeType::Substraction(left_child, right_child),
            TokenType::Times => NodeType::Multiplication(left_child, right_child),
            TokenType::Div => NodeType::Division(left_child, right_child),
            TokenType::GreaterThan => NodeType::GreaterThan(left_child, right_child),
            TokenType::GreaterThanOrEqual => NodeType::GreaterThanOrEqual(left_child, right_child),
            TokenType::LessThan => NodeType::LessThan(left_child, right_child),
            TokenType::LessThanOrEqual => NodeType::LessThanOrEqual(left_child, right_child),
            _ => NodeType::Equal(left_child, right_child),
        };
        ParseNode { ntype, location: Location(token.line, token.column) }
    }

    fn token_to_assignment_node(token: &Token, left_child: ParseNode, right_child: ParseNode) -> (r: ParseNode)
        requires
            token.ttype == TokenType::Assign,
            left_child.ntype is Identifier,
        ensures
            r@ == Expr::Assignment(left_child.ntype->Identifier_0@, Box::new(right_child@), location_of(*token)),
    {
        let right_child = Box::new(right_child);
        let ntype = match left_child.ntype {
            NodeType::Identifier(value) => NodeType::Assignment(value, right_child),
            _ => NodeType::Assignment(String::new(), right_child),
        };
        ParseNode { ntype, location: Location(token.line, token.column) }
    }

    pub fn parse_number(&mut self, advance: bool) -> (r: Option<Result<ParseNode, ParsingError>>)
        requires
            old(self).wf(),
        ensures
            final(self).wf(),
            final(self).advanced_from(old(self)),
            if current_is(old(self).tokens(), old(self).line_no(), old(self).pos(), TokenType::Number) {
                &&& r is Some
                &&& result_view(r->0) == number_result(old(self).tokens()[old(self).pos()])
                &&& final(self).pos() == old(self).pos() + if advance { 1int } else { 0int }
            } else {
                r is None && final(self).pos() == old(self).pos()
            },
    {
        match self.check_current(TokenType::Number, advance) {
            Some(token) => if is_decimal_literal(token.value.as_str()) {
                Some(Ok(Self::token_to_node(token)))
            } else {
                Some(Err(ParsingError::UnexpectedToken(token.value.clone(), Location(token.line, token.column))))
            },
            None => None,
        }
    }

    pub fn parse_identifier(&mut self, advance: bool) -> (r: Option<Result<ParseNode, ParsingError>>)
        requires
            old(self).wf(),
        ensures
            final(self).wf(),
            final(self).advanced_from(old(self)),
            if current_is(old(self).tokens(), old(self).line_no(), old(self).pos(), TokenType::Identifier) {
                &&& r is Some
                &&& result_view(r->0) == Ok::<Expr, SyntaxError>(leaf(old(self).tokens()[old(self).pos()]))
                &&& final(self).pos() == old(self).pos() + if advance { 1int } else { 0int }
            } else {
                r is None && final(self).pos() == old(self).pos()
            },
    {
        match self.check_current(TokenType::Identifier, advance) {
            Some(token) => Some(Ok(Self::token_to_node(token))),
            None => None,
        }
    }

    /// The last token read.
    fn last_token(&self) -> (r: &'a Token)
        requires
            self.wf(),
            self.pos() > 0,
        ensures
            *r == self.tokens()[self.pos() - 1],
    {
        &self.input[self.position - 1]
    }

    /// Where the line ends: the last character of the last token read, or
    /// the start of the line when no token has been read.
    fn end_location(&self) -> (r: Location)
        requires
            self.wf(),
        ensures
            r == end_location(self.tokens(), self.line_no(), self.pos()),
    {
        if self.position == 0 {
            Location(self.line, 0)
        } else {
            let token = self.last_token();
            assert(token.wf());
            let len = token.value.as_str().unicode_len();
            Location(token.line, token.column + len - 1)
        }
    }

    fn create_unexpected_error(&self) -> (r: ParsingError)
        requires
            self.wf(),
        ensures
            r@ == unexpected_error(self.tokens(), self.line_no(), self.pos()),
    {
        match self.current() {
            Some(token) => ParsingError::UnexpectedToken(token.value.clone(), Location(token.line, token.column)),
            None => ParsingError::UnexpectedEndOfLine(self.end_location()),
        }
    }

    fn check_open_paren(&mut self, advance: bool) -> (r: Option<&'a Token>)
        requires
            old(self).wf(),
        ensures
            final(self).advanced_from(old(self)),
            if current_is(old(self).tokens(), old(self).line_no(), old(self).pos(), TokenType::LeftParenthesis) {
                &&& found(r) == current(old(self).tokens(), old(self).line_no(), old(self).pos())
                &&& final(self).pos() == old(self).pos() + if advance { 1int } else { 0int }
            } else {
                r is None && final(self).pos() == old(self).pos()
            },
    {
        self.check_current(TokenType::LeftParenthesis, advance)
    }

    /// Reads the `)` that closes a group around `node`.
    fn expect_close_paren(&mut self, node: ParseNode) -> (r: Result<ParseNode, ParsingError>)
        requires
            old(self).wf(),
        ensures
            final(self).advanced_from(old(self)),
            if current_is(old(self).tokens(), old(self).line_no(), old(self).pos(), TokenType::RightParenthesis) {
                final(self).outcome(r) == (Ok::<Expr, SyntaxError>(node@), old(self).pos() + 1)
            } else {
                final(self).outcome(r) == (
                    Err::<Expr, SyntaxError>(close_paren_error(old(self).tokens(), old(self).line_no(), old(self).pos())),
                    old(self).pos(),
                )
            },
    {
        match self.check_current(TokenType::RightParenthesis, true) {
            Some(_) => Ok(node),
            None => Err(self.create_close_paren_error()),
        }
    }

    /// The current token if its kind is one of `token_types`, read past it
    /// when `advance` is set.
    fn check_current_in_list(&mut self, token_types: &[TokenType], advance: bool) -> (r: Option<&'a Token>)
        requires
            old(self).wf(),
        ensures
            final(self).advanced_from(old(self)),
            ({
                let c = current(old(self).tokens(), old(self).line_no(), old(self).pos());
                if c is Some && token_types@.contains(c->0.ttype) {
                    &&& found(r) == c
                    &&& final(self).pos() == old(self).pos() + if advance { 1int } else { 0int }
                } else {
                    r is None && final(self).pos() == old(self).pos()
                }
            }),
    {
        match self.current() {
            Some(token) => {
                let mut listed = false;
                let mut i: usize = 0;
                while i < token_types.len()
                    invariant
                        i <= token_types@.len(),
                        listed == exists|j: int| 0 <= j < i && token_types@[j] == token.ttype,
                    decreases token_types@.len() - i,
                {
                    if token_types[i] == token.ttype {
                        listed = true;
                    }
                    i = i + 1;
                }
                if listed {
                    if advance {
                        self.advance();
                    }
                    Some(token)
                } else {
                    None
                }
            },
            None => None,
        }
    }

    /// The `=` after an identifier that starts an assignment.
    fn check_assignment_op(&self) -> (r: Option<&'a Token>)
        requires
            self.wf(),
        ensures
            if current_is(self.tokens(), self.line_no(), self.pos() + 1, TokenType::Assign) {
                found(r) == current(self.tokens(), self.line_no(), self.pos() + 1)
            } else {
                r is None
            },
    {
        self.check_ahead(TokenType::Assign, 1)
    }

    fn parse_expr_in_parens(&mut self) -> (r: Option<Result<ParseNode, ParsingError>>)
        requires
            old(self).wf(),
        ensures
            final(self).advanced_from(old(self)),
            if current_is(old(self).tokens(), old(self).line_no(), old(self).pos(), TokenType::LeftParenthesis) {
                &&& r is Some
                &&& final(self).outcome(r->0) == factor(old(self).tokens(), old(self).line_no(), old(self).pos())
                &&& r->0 is Ok ==> final(self).pos() > old(self).pos()
            } else {
                r is None && final(self).pos() == old(self).pos()
            },
        decreases old(self).tokens().len() - old(self).pos(), 0int,
    {
        match self.check_open_paren(true) {
            Some(_) => Some(
                match self.parse_right_expr() {
                    Ok(node) => self.expect_close_paren(node),
                    Err(e) => Err(e),
                },
            ),
            None => None,
        }
    }

    /// A number, an identifier or a group in parentheses.
    pub fn parse_factor(&mut self) -> (r: Result<ParseNode, ParsingError>)
        requires
            old(self).wf(),
        ensures
            final(self).wf(),
            final(self).advanced_from(old(self)),
            final(self).outcome(r) == factor(old(self).tokens(), old(self).line_no(), old(self).pos()),
            r is Ok ==> final(self).pos() > old(self).pos(),
        decreases old(self).tokens().len() - old(self).pos(), 1int,
    {
        if let Some(r) = self.parse_number(true) {
            return r;
        }
        if let Some(r) = self.parse_identifier(true) {
            return r;
        }
        if let Some(r) = self.parse_expr_in_parens() {
            return r;
        }
        Err(self.create_unexpected_error())
    }

    /// Factors joined by `*` and `/`, grouped to the left.
    fn parse_term(&mut self) -> (r: Result<ParseNode, ParsingError>)
        requires
            old(self).wf(),
        ensures
            final(self).advanced_from(old(self)),
            final(self).outcome(r) == term(old(self).tokens(), old(self).line_no(), old(self).pos()),
            r is Ok ==> final(self).pos() > old(self).pos(),
        decreases old(self).tokens().len() - old(self).pos(), 2int,
    {
        let mut node = match self.parse_factor() {
            Ok(node) => node,
            Err(e) => return Err(e),
        };
        loop
            invariant
                self.wf(),
                self.advanced_from(old(self)),
                self.pos() > old(self).pos(),
                term(old(self).tokens(), old(self).line_no(), old(self).pos())
                    == term_rest(old(self).tokens(), old(self).line_no(), node@, self.pos()),
            ensures
                self.wf(),
                self.advanced_from(old(self)),
                self.pos() > old(self).pos(),
                term(old(self).tokens(), old(self).line_no(), old(self).pos())
                    == (Ok::<Expr, SyntaxError>(node@), self.pos()),
            decreases self.tokens().len() - self.pos(),
        {
            let ops = [TokenType::Times, TokenType::Div];
            assert(forall|tt: TokenType| ops@.contains(tt) <==> is_product_op(tt)) by {
                assert(ops@[0] == TokenType::Times && ops@[1] == TokenType::Div);
            }
            match self.check_current_in_list(&ops, true) {
                Some(token) => match self.parse_factor() {
                    Ok(right) => {
                        node = Self::token_to_bin_op_node(token, node, right);
                    },
                    Err(e) => {
                        return Err(e);
                    },
                },
                None => {
                    break;
                },
            }
        }
        Ok(node)
    }

    /// Terms joined by `+` and `-`, grouped to the left.
    fn parse_comp_term(&mut self) -> (r: Result<ParseNode, ParsingError>)
        requires
            old(self).wf(),
        ensures
            final(self).advanced_from(old(self)),
            final(self).outcome(r) == comp_term(old(self).tokens(), old(self).line_no(), old(self).pos()),
            r is Ok ==> final(self).pos() > old(self).pos(),
        decreases old(self).tokens().len() - old(self).pos(), 3int,
    {
        let mut node = match self.parse_term() {
            Ok(node) => node,
            Err(e) => return Err(e),
        };
        loop
            invariant
                self.wf(),
                self.advanced_from(old(self)),
                self.pos() > old(self).pos(),
                comp_term(old(self).tokens(), old(self).line_no(), old(self).pos())
                    == comp_term_rest(old(self).tokens(), old(self).line_no(), node@, self.pos()),
            ensures
                self.wf(),
                self.advanced_from(old(self)),
                self.pos() > old(self).pos(),
                comp_term(old(self).tokens(), old(self).line_no(), old(self).pos())
                    == (Ok::<Expr, SyntaxError>(node@), self.pos()),
            decreases self.tokens().len() - self.pos(),
        {
            let ops = [TokenType::Plus, TokenType::Minus];
            assert(forall|tt: TokenType| ops@.contains(tt) <==> is_sum_op(tt)) by {
                assert(ops@[0] == TokenType::Plus && ops@[1] == TokenType::Minus);
            }
            match self.check_current_in_list(&ops, true) {
                Some(token) => match self.parse_term() {
                    Ok(right) => {
                        node = Self::token_to_bin_op_node(token, node, right);
                    },
                    Err(e) => {
                        return Err(e);
                    },
                },
                None => {
                    break;
                },
            }
        }
        Ok(node)
    }

    /// A sum with at most one comparison after it.
    fn parse_right_expr(&mut self) -> (r: Result<ParseNode, ParsingError>)
        requires
            old(self).wf(),
        ensures
            final(self).advanced_from(old(self)),
            final(self).outcome(r) == right_expr(old(self).tokens(), old(self).line_no(), old(self).pos()),
            r is Ok ==> final(self).pos() > old(self).pos(),
        decreases old(self).tokens().len() - old(self).pos(), 4int,
    {
        let node = match self.parse_comp_term() {
            Ok(node) => node,
            Err(e) => return Err(e),
        };
        let ops = [
            TokenType::GreaterThan,
            TokenType::GreaterThanOrEqual,
            TokenType::LessThan,
            TokenType::LessThanOrEqual,
            TokenType::Equal,
        ];
        assert(forall|tt: TokenType| ops@.contains(tt) <==> is_comparison_op(tt)) by {
            assert(ops@[0] == TokenType::GreaterThan && ops@[1] == TokenType::GreaterThanOrEqual);
            assert(ops@[2] == TokenType::LessThan && ops@[3] == TokenType::LessThanOrEqual);
            assert(ops@[4] == TokenType::Equal);
        }
        match self.check_current_in_list(&ops, true) {
            Some(token) => match self.parse_comp_term() {
                Ok(right) => Ok(Self::token_to_bin_op_node(token, node, right)),
                Err(e) => Err(e),
            },
            None => Ok(node),
        }
    }

    /// An assignment `name = rightExpr`, or a right expression.
    pub fn parse_expr(&mut self) -> (r: Result<ParseNode, ParsingError>)
        requires
            old(self).wf(),
        ensures
            final(self).wf(),
            final(self).advanced_from(old(self)),
            final(self).outcome(r) == expr(old(self).tokens(), old(self).line_no(), old(self).pos()),
            r is Ok ==> final(self).pos() > old(self).pos(),
        decreases old(self).tokens().len() - old(self).pos(), 5int,
    {
        if let Some(Ok(id_node)) = self.parse_identifier(false) {
            if let Some(assign_token) = self.check_assignment_op() {
                self.move_forward(2);
                return match self.parse_right_expr() {
                    Ok(right) => Ok(Self::token_to_assignment_node(assign_token, id_node, right)),
                    Err(e) => Err(e),
                };
            }
        }
        self.parse_right_expr()
    }

    /// Skips the tokens of the lines before the current one.
    fn move_to_next_line(&mut self)
        requires
            old(self).wf(),
        ensures
            final(self).wf(),
            final(self).tokens() == old(self).tokens(),
            final(self).line_no() == old(self).line_no(),
            final(self).pos() == skip_to_line(old(self).tokens(), old(self).pos(), old(self).line_no()),
            final(self).pos() >= old(self).pos(),
            final(self).pos() < final(self).tokens().len() ==> final(self).tokens()[final(self).pos()].line >= final(self).line_no(),
    {
        while self.position < self.input.len() && self.input[self.position].line < self.line
            invariant
                self.wf(),
                self.input@ == old(self).input@,
                self.line == old(self).line,
                self.position >= old(self).position,
                skip_to_line(self.input@, old(self).pos(), self.line as int)
                    == skip_to_line(self.input@, self.pos(), self.line as int),
            decreases self.input@.len() - self.position,
        {
            self.position = self.position + 1;
        }
    }

    /// One line: an expression that must reach the end of the line. After an
    /// error the rest of the line is skipped; either way the parser moves on
    /// to the next line.
    fn parse_line(&mut self) -> (r: Result<ParseNode, ParsingError>)
        requires
            old(self).wf(),
            old(self).line_no() < usize::MAX,
        ensures
            final(self).wf(),
            final(self).tokens() == old(self).tokens(),
            final(self).line_no() == old(self).line_no() + 1,
            final(self).outcome(r) == line_outcome(old(self).tokens(), old(self).line_no(), old(self).pos()),
            final(self).pos() >= old(self).pos(),
            final(self).pos() < final(self).tokens().len()
                ==> final(self).tokens()[final(self).pos()].line > old(self).line_no(),
    {
        let ghost toks = self.input@;
        let ghost p = self.pos();
        match self.parse_expr() {
            Ok(node) => {
                if self.current().is_none() {
                    proof {
                        let q = self.pos();
                        if q < toks.len() {
                            assert(toks[q - 1].line == self.line);
                            assert(toks[q - 1].line <= toks[q].line);
                        }
                    }
                    self.line = self.line + 1;
                    Ok(node)
                } else {
                    let e = self.create_unexpected_error();
                    self.line = self.line + 1;
                    self.move_to_next_line();
                    Err(e)
                }
            },
            Err(e) => {
                self.line = self.line + 1;
                self.move_to_next_line();
                Err(e)
            },
        }
    }

    /// Parses every line of the input, from its first token. The result is a
    /// root with one statement per line, or the errors of all failing lines.
    pub fn parse(&mut self) -> (r: Result<ParseNode, ParsingError>)
        requires
            old(self).wf(),
        ensures
            final(self).wf(),
            final(self).tokens() == old(self).tokens(),
            final(self).pos() == final(self).tokens().len(),
            result_view(r) == parse_tokens(old(self).tokens()),
    {
        self.position = 0;
        self.line = 0;
        if self.input.len() == 0 {
            return Ok(ParseNode::empty_root());
        }
        let ghost toks = self.input@;
        let mut nodes: Vec<ParseNode> = Vec::new();
        let mut errors: Vec<ParsingError> = Vec::new();
        loop
            invariant_except_break
                self.pos() < toks.len(),
                self.line <= toks[self.pos()].line,
                program(toks, 0, 0) == (
                    view_nodes(nodes@) + program(toks, self.line_no(), self.pos()).0,
                    view_errors(errors@) + program(toks, self.line_no(), self.pos()).1,
                ),
            invariant
                self.wf(),
                self.input@ == toks,
                toks == old(self).input@,
            ensures
                self.wf(),
                self.input@ == toks,
                self.pos() == toks.len(),
                program(toks, 0, 0) == (view_nodes(nodes@), view_errors(errors@)),
            decreases toks.len() - self.pos(), toks[self.pos()].line - self.line,
        {
            let ghost p = self.pos();
            let ghost l = self.line_no();
            let ghost old_nodes = nodes@;
            let ghost old_errors = errors@;
            assert(toks[p].wf());
            let result = self.parse_line();
            let ghost q = self.pos();
            let ghost rest = if p <= q < toks.len() && toks[q].line > l {
                program(toks, l + 1, q)
            } else {
                (Seq::<Expr>::empty(), Seq::<SyntaxError>::empty())
            };
            match result {
                Ok(node) => {
                    nodes.push(node);
                    proof {
                        assert(nodes@.drop_last() == old_nodes);
                        assert(view_nodes(nodes@) == view_nodes(old_nodes).push(node@));
                        assert(view_nodes(old_nodes) + (seq![node@] + rest.0) == view_nodes(nodes@) + rest.0);
                    }
                },
                Err(e) => {
                    errors.push(e);
                    proof {
                        assert(errors@.drop_last() == old_errors);
                        assert(view_errors(errors@) == view_errors(old_errors).push(e@));
                        assert(view_errors(old_errors) + (seq![e@] + rest.1) == view_errors(errors@) + rest.1);
                    }
                },
            }
            if self.position >= self.input.len() {
                proof {
                    assert(rest.0 == Seq::<Expr>::empty());
                    assert(view_nodes(nodes@) + rest.0 == view_nodes(nodes@));
                    assert(view_errors(errors@) + rest.1 == view_errors(errors@));
                }
                break;
            }
        }
        proof {
            lemma_view_errors(errors@);
        }
        if errors.len() == 0 {
            Ok(ParseNode { ntype: NodeType::Root(nodes), location: Location(0, 0) })
        } else {
            Err(ParsingError::MultipleErrors(errors))
        }
    }

    fn create_close_paren_error(&self) -> (r: ParsingError)
        requires
            self.wf(),
        ensures
            r@ == close_paren_error(self.tokens(), self.line_no(), self.pos()),
    {
        match self.current() {
            Some(token) => ParsingError::ExpectedCloseParen(token.value.clone(), Location(token.line, token.column)),
            None => {
                let eol = "EOL".to_owned();
                proof {
                    reveal_strlit("EOL");
                    assert(eol@ == seq!['E', 'O', 'L']);
                }
                ParsingError::ExpectedCloseParen(eol, self.end_location())
            },
        }
    }
}

/// Whether `s` is a decimal literal.
fn is_decimal_literal(s: &str) -> (r: bool)
    ensures
        r == is_decimal(s@),
{
    let mut digits_seen = false;
    let mut dots: u8 = 0;
    let mut others_seen = false;
    let ghost mut read: Seq<char> = Seq::empty();
    for c in it: s.chars()
        invariant
            read == it.seq().take(it.index()),
            digits_seen == (digit_count(read) >= 1),
            dots as nat == if dot_count(read) <= 1 { dot_count(read) } else { 2 },
            others_seen == (digit_count(read) + dot_count(read) != read.len()),
            digit_count(read) + dot_count(read) <= read.len(),
    {
        assert(it.seq().take(it.index() + 1) == read.push(c));
        assert(read.push(c).drop_last() == read);
        if '0' <= c && c <= '9' {
            digits_seen = true;
        } else if c == '.' {
            if dots < 2 {
                dots = dots + 1;
            }
        } else {
            others_seen = true;
        }
        proof {
            read = read.push(c);
        }
    }
    assert(read =~= s@);
    digits_seen && dots <= 1 && !others_seen
}

} // verus!
