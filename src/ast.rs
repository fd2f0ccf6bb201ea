use vstd::prelude::*;

verus! {

broadcast use {vstd::std_specs::vec::group_vec_axioms, vstd::seq::group_seq_axioms};

/// A position in the source text: line and column, both counted from zero.
#[derive(Clone, Copy, PartialEq, Eq, Structural, Debug)]
pub struct Location(pub usize, pub usize);

/// The kind of a binary operation, as the model of the tree sees it.
pub enum BinOp {
    Sum,
    Sub,
    Mul,
    Div,
    Gt,
    Ge,
    Lt,
    Le,
    Eq,
}

/// The mathematical model of a tree node.
pub enum Expr {
    Number(Seq<char>, Location),
    Identifier(Seq<char>, Location),
    Binary(BinOp, Box<Expr>, Box<Expr>, Location),
    Assignment(Seq<char>, Box<Expr>, Location),
    Root(Seq<Expr>, Location),
}

/// The kind of a tree node together with its children.
#[derive(PartialEq, Debug)]
pub enum NodeType {
    /// Identifiers and literals; a number keeps its literal text.
    Identifier(String),
    Number(String),
    /// Arithmetic operations
    Sum(Box<ParseNode>, Box<ParseNode>),
    Substraction(Box<ParseNode>, Box<ParseNode>),
    Multiplication(Box<ParseNode>, Box<ParseNode>),
    Division(Box<ParseNode>, Box<ParseNode>),
    /// Comparison operations
    GreaterThan(Box<ParseNode>, Box<ParseNode>),
    GreaterThanOrEqual(Box<ParseNode>, Box<ParseNode>),
    LessThan(Box<ParseNode>, Box<ParseNode>),
    LessThanOrEqual(Box<ParseNode>, Box<ParseNode>),
    Equal(Box<ParseNode>, Box<ParseNode>),
    /// Assignment of a value to a name
    Assignment(String, Box<ParseNode>),
    /// The statements of a whole program, one per line
    Root(Vec<ParseNode>),
}

/// A node of the syntax tree with the location of its defining token.
#[derive(PartialEq, Debug)]
pub struct ParseNode {
    pub ntype: NodeType,
    pub location: Location,
}

impl ParseNode {
    pub open spec fn view(self) -> Expr
        decreases self,
    {
        let loc = self.location;
        match self.ntype {
            NodeType::Identifier(s) => Expr::Identifier(s@, loc),
            NodeType::Number(s) => Expr::Number(s@, loc),
            NodeType::Sum(l, r) => Expr::Binary(BinOp::Sum, Box::new(l.view()), Box::new(r.view()), loc),
            NodeType::Substraction(l, r) => Expr::Binary(BinOp::Sub, Box::new(l.view()), Box::new(r.view()), loc),
            NodeType::Multiplication(l, r) => Expr::Binary(BinOp::Mul, Box::new(l.view()), Box::new(r.view()), loc),
            NodeType::Division(l, r) => Expr::Binary(BinOp::Div, Box::new(l.view()), Box::new(r.view()), loc),
            NodeType::GreaterThan(l, r) => Expr::Binary(BinOp::Gt, Box::new(l.view()), Box::new(r.view()), loc),
            NodeType::GreaterThanOrEqual(l, r) => Expr::Binary(BinOp::Ge, Box::new(l.view()), Box::new(r.view()), loc),
            NodeType::LessThan(l, r) => Expr::Binary(BinOp::Lt, Box::new(l.view()), Box::new(r.view()), loc),
            NodeType::LessThanOrEqual(l, r) => Expr::Binary(BinOp::Le, Box::new(l.view()), Box::new(r.view()), loc),
            NodeType::Equal(l, r) => Expr::Binary(BinOp::Eq, Box::new(l.view()), Box::new(r.view()), loc),
            NodeType::Assignment(s, r) => Expr::Assignment(s@, Box::new(r.view()), loc),
            NodeType::Root(nodes) => Expr::Root(view_nodes(nodes@), loc),
        }
    }
}

/// The models of a sequence of nodes, in order.
pub open spec fn view_nodes(nodes: Seq<ParseNode>) -> Seq<Expr>
    decreases nodes,
{
    if nodes.len() == 0 {
        Seq::empty()
    } else {
        view_nodes(nodes.drop_last()).push(nodes.last().view())
    }
}

impl ParseNode {
    /// A program with no statements.
    pub fn empty_root() -> (r: ParseNode)
        ensures
            r@ == Expr::Root(Seq::empty(), Location(0, 0)),
    {
        let r = ParseNode { ntype: NodeType::Root(Vec::new()), location: Location(0, 0) };
        assert(view_nodes(Seq::<ParseNode>::empty()) == Seq::<Expr>::empty());
        r
    }
}

/// An error of the parser.
#[derive(Debug, PartialEq)]
pub enum ParsingError {
    /// A token where the grammar does not allow it: its text and location.
    UnexpectedToken(String, Location),
    /// The line ends in the middle of an expression; the location is the
    /// last character of the last token read.
    UnexpectedEndOfLine(Location),
    /// A group that is not closed: the text found instead (`EOL` at the end
    /// of the line) and its location.
    ExpectedCloseParen(String, Location),
    /// The errors of every failing line, in the order of the lines.
    MultipleErrors(Vec<ParsingError>),
}

/// The mathematical model of a parser error.
pub enum SyntaxError {
    UnexpectedToken(Seq<char>, Location),
    UnexpectedEndOfLine(Location),
    ExpectedCloseParen(Seq<char>, Location),
    MultipleErrors(Seq<SyntaxError>),
}

impl ParsingError {
    pub open spec fn view(self) -> SyntaxError
        decreases self,
    {
        match self {
            ParsingError::UnexpectedToken(s, loc) => SyntaxError::UnexpectedToken(s@, loc),
            ParsingError::UnexpectedEndOfLine(loc) => SyntaxError::UnexpectedEndOfLine(loc),
            ParsingError::ExpectedCloseParen(s, loc) => SyntaxError::ExpectedCloseParen(s@, loc),
            ParsingError::MultipleErrors(es) => SyntaxError::MultipleErrors(view_errors(es@)),
        }
    }
}

/// The models of a sequence of errors, in order.
pub open spec fn view_errors(errors: Seq<ParsingError>) -> Seq<SyntaxError>
    decreases errors,
{
    if errors.len() == 0 {
        Seq::empty()
    } else {
        view_errors(errors.drop_last()).push(errors.last().view())
    }
}

/// The model of a parse result.
pub open spec fn result_view(r: Result<ParseNode, ParsingError>) -> Result<Expr, SyntaxError> {
    match r {
        Ok(n) => Ok(n@),
        Err(e) => Err(e@),
    }
}

/// The models of nodes are the nodes' models, one for one.
pub proof fn lemma_view_nodes(nodes: Seq<ParseNode>)
    ensures
        view_nodes(nodes).len() == nodes.len(),
        forall|i: int| 0 <= i < nodes.len() ==> view_nodes(nodes)[i] == (#[trigger] nodes[i])@,
    decreases nodes.len(),
{
    if nodes.len() > 0 {
        lemma_view_nodes(nodes.drop_last());
        assert forall|i: int| 0 <= i < nodes.len() implies view_nodes(nodes)[i] == (#[trigger] nodes[i])@ by {
            if i < nodes.len() - 1 {
                assert(nodes.drop_last()[i] == nodes[i]);
            }
        }
    }
}

/// The models of errors are the errors' models, one for one.
pub proof fn lemma_view_errors(errors: Seq<ParsingError>)
    ensures
        view_errors(errors).len() == errors.len(),
        forall|i: int| 0 <= i < errors.len() ==> view_errors(errors)[i] == (#[trigger] errors[i])@,
    decreases errors.len(),
{
    if errors.len() > 0 {
        lemma_view_errors(errors.drop_last());
        assert forall|i: int| 0 <= i < errors.len() implies view_errors(errors)[i] == (#[trigger] errors[i])@ by {
            if i < errors.len() - 1 {
                assert(errors.drop_last()[i] == errors[i]);
            }
        }
    }
}

} // verus!
