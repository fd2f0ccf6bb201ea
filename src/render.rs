//! Text renderings for diagnostics: a syntax tree as an indented tree, and
//! parser errors as messages.
use vstd::prelude::*;
use vstd::string::*;
use crate::ast::{
    lemma_view_errors, lemma_view_nodes, view_errors, view_nodes, BinOp, Expr, Location, NodeType, ParseNode,
    ParsingError, SyntaxError,
};

verus! {

broadcast use {vstd::std_specs::vec::group_vec_axioms, vstd::seq::group_seq_axioms};

pub open spec fn digit_char(d: nat) -> char {
    seq!['0', '1', '2', '3', '4', '5', '6', '7', '8', '9'][d as int]
}

/// The decimal digits of `n`.
pub open spec fn decimal(n: nat) -> Seq<char>
    decreases n,
{
    if n < 10 {
        seq![digit_char(n)]
    } else {
        decimal(n / 10).push(digit_char(n % 10))
    }
}

/// `[line:column]`
pub open spec fn location_text(l: Location) -> Seq<char> {
    seq!['['] + decimal(l.0 as nat) + seq![':'] + decimal(l.1 as nat) + seq![']']
}

pub open spec fn op_name(op: BinOp) -> Seq<char> {
    match op {
        BinOp::Sum => "Sum"@,
        BinOp::Sub => "Substraction"@,
        BinOp::Mul => "Multiplication"@,
        BinOp::Div => "Division"@,
        BinOp::Gt => "GreaterThan"@,
        BinOp::Ge => "GreaterThanOrEqual"@,
        BinOp::Lt => "LessThan"@,
        BinOp::Le => "LessThanOrEqual"@,
        BinOp::Eq => "Equal"@,
    }
}

/// A node as a tree: each node on a line of its own, indented by its depth
/// (`indent`), named and tagged with its location; an inner node ends its
/// line with `>` and its children follow.
pub open spec fn tree_text(e: Expr, indent: Seq<char>) -> Seq<char>
    decreases e,
{
    let start = if indent.len() > 0 { seq!['\n'] + indent } else { Seq::empty() };
    let deeper = indent.push(' ');
    start + match e {
        Expr::Root(nodes, loc) => "Root "@ + location_text(loc) + ">"@ + children_text(nodes, deeper),
        Expr::Number(s, loc) => s + " "@ + location_text(loc),
        Expr::Identifier(s, loc) => s + " "@ + location_text(loc),
        Expr::Binary(op, l, r, loc) => op_name(op) + " "@ + location_text(loc) + ">"@ + tree_text(*l, deeper)
            + tree_text(*r, deeper),
        Expr::Assignment(name, r, loc) => "Assignment "@ + location_text(loc) + ">\n"@ + indent + " "@ + name
            + tree_text(*r, deeper),
    }
}

/// The trees of `nodes`, one after the other.
pub open spec fn children_text(nodes: Seq<Expr>, indent: Seq<char>) -> Seq<char>
    decreases nodes,
{
    if nodes.len() == 0 {
        Seq::empty()
    } else {
        children_text(nodes.drop_last(), indent) + tree_text(nodes.last(), indent)
    }
}

fn digit_str(d: usize) -> (r: &'static str)
    requires
        d < 10,
    ensures
        r@ == seq![digit_char(d as nat)],
{
    proof {
        reveal_strlit("0");
        reveal_strlit("1");
        reveal_strlit("2");
        reveal_strlit("3");
        reveal_strlit("4");
        reveal_strlit("5");
        reveal_strlit("6");
        reveal_strlit("7");
        reveal_strlit("8");
        reveal_strlit("9");
    }
    match d {
        0 => "0",
        1 => "1",
        2 => "2",
        3 => "3",
        4 => "4",
        5 => "5",
        6 => "6",
        7 => "7",
        8 => "8",
        _ => "9",
    }
}

fn write_decimal(out: &mut String, n: usize)
    ensures
        final(out)@ == old(out)@ + decimal(n as nat),
    decreases n,
{
    if n >= 10 {
        write_decimal(out, n / 10);
    }
    out.append(digit_str(n % 10));
    assert(decimal(n as nat) == if n < 10 { seq![digit_char(n as nat)] } else { decimal((n / 10) as nat).push(
        digit_char((n % 10) as nat),
    ) });
}

fn write_location(out: &mut String, l: Location)
    ensures
        final(out)@ == old(out)@ + location_text(l),
{
    proof {
        reveal_strlit("[");
        reveal_strlit(":");
        reveal_strlit("]");
    }
    let ghost start = out@;
    out.append("[");
    write_decimal(out, l.0);
    out.append(":");
    write_decimal(out, l.1);
    out.append("]");
    assert(out@ == start + location_text(l));
}

/// The operation of a binary node.
pub open spec fn op_of(ntype: NodeType) -> BinOp {
    match ntype {
        NodeType::Sum(..) => BinOp::Sum,
        NodeType::Substraction(..) => BinOp::Sub,
        NodeType::Multiplication(..) => BinOp::Mul,
        NodeType::Division(..) => BinOp::Div,
        NodeType::GreaterThan(..) => BinOp::Gt,
        NodeType::GreaterThanOrEqual(..) => BinOp::Ge,
        NodeType::LessThan(..) => BinOp::Lt,
        NodeType::LessThanOrEqual(..) => BinOp::Le,
        _ => BinOp::Eq,
    }
}

fn op_name_str(ntype: &NodeType) -> (r: &'static str)
    requires
        !(ntype is Identifier || ntype is Number || ntype is Assignment || ntype is Root),
    ensures
        r@ == op_name(op_of(*ntype)),
{
    proof {
        reveal_strlit("Sum");
        reveal_strlit("Substraction");
        reveal_strlit("Multiplication");
        reveal_strlit("Division");
        reveal_strlit("GreaterThan");
        reveal_strlit("GreaterThanOrEqual");
        reveal_strlit("LessThan");
        reveal_strlit("LessThanOrEqual");
        reveal_strlit("Equal");
    }
    match ntype {
        NodeType::Sum(..) => "Sum",
        NodeType::Substraction(..) => "Substraction",
        NodeType::Multiplication(..) => "Multiplication",
        NodeType::Division(..) => "Division",
        NodeType::GreaterThan(..) => "GreaterThan",
        NodeType::GreaterThanOrEqual(..) => "GreaterThanOrEqual",
        NodeType::LessThan(..) => "LessThan",
        NodeType::LessThanOrEqual(..) => "LessThanOrEqual",
        _ => "Equal",
    }
}

impl ParseNode {
    #[verifier::rlimit(60)]
    fn write_tree(&self, out: &mut String, indent: &String)
        ensures
            final(out)@ == old(out)@ + tree_text(self@, indent@),
        decreases self,
    {
        proof {
            reveal_strlit("\n");
            reveal_strlit(" ");
            reveal_strlit(">");
            reveal_strlit("Root ");
            reveal_strlit("Assignment ");
            reveal_strlit(">\n");
        }
        let ghost start = out@;
        if indent.as_str().unicode_len() > 0 {
            out.append("\n");
            out.append(indent.as_str());
        }
        let ghost head = out@;
        let ghost prefix = if indent@.len() > 0 { seq!['\n'] + indent@ } else { Seq::<char>::empty() };
        assert(head =~= start + prefix);
        let mut deeper = indent.clone();
        deeper.append(" ");
        assert(deeper@ =~= indent@.push(' '));
        match &self.ntype {
            NodeType::Root(nodes) => {
                out.append("Root ");
                write_location(out, self.location);
                out.append(">");
                let ghost before = out@;
                proof {
                    lemma_view_nodes(nodes@);
                }
                let mut i: usize = 0;
                while i < nodes.len()
                    invariant
                        i <= nodes@.len(),
                        view_nodes(nodes@).len() == nodes@.len(),
                        forall|k: int| 0 <= k < nodes@.len() ==> view_nodes(nodes@)[k] == (#[trigger] nodes@[k])@,
                        out@ == before + children_text(view_nodes(nodes@).take(i as int), deeper@),
                        forall|k: int| 0 <= k < nodes@.len() ==> decreases_to!(self => #[trigger] nodes@[k]),
                    decreases nodes@.len() - i,
                {
                    nodes[i].write_tree(out, &deeper);
                    assert(view_nodes(nodes@).take(i + 1).drop_last() == view_nodes(nodes@).take(i as int));
                    assert(out@ =~= before + children_text(view_nodes(nodes@).take(i + 1), deeper@));
                    i = i + 1;
                }
                assert(view_nodes(nodes@).take(i as int) == view_nodes(nodes@));
                let ghost body = "Root "@ + location_text(self.location) + ">"@ + children_text(view_nodes(nodes@), deeper@);
                assert(out@ =~= head + body);
                assert(tree_text(self@, indent@) == prefix + body);
                assert(out@ =~= start + (prefix + body));
            },
            NodeType::Number(s) | NodeType::Identifier(s) => {
                out.append(s.as_str());
                out.append(" ");
                write_location(out, self.location);
                let ghost body = s@ + " "@ + location_text(self.location);
                assert(out@ =~= head + body);
                assert(tree_text(self@, indent@) == prefix + body);
                assert(out@ =~= start + (prefix + body));
            },
            NodeType::Assignment(name, right) => {
                out.append("Assignment ");
                write_location(out, self.location);
                out.append(">\n");
                out.append(indent.as_str());
                out.append(" ");
                out.append(name.as_str());
                right.write_tree(out, &deeper);
                let ghost body = "Assignment "@ + location_text(self.location) + ">\n"@ + indent@ + " "@ + name@
                    + tree_text(right@, deeper@);
                assert(out@ =~= head + body);
                assert(tree_text(self@, indent@) == prefix + body);
                assert(out@ =~= start + (prefix + body));
            },
            NodeType::Sum(left, right) | NodeType::Substraction(left, right) | NodeType::Multiplication(left, right)
            | NodeType::Division(left, right) | NodeType::GreaterThan(left, right)
            | NodeType::GreaterThanOrEqual(left, right) | NodeType::LessThan(left, right)
            | NodeType::LessThanOrEqual(left, right) | NodeType::Equal(left, right) => {
                let name = op_name_str(&self.ntype);
                out.append(name);
                out.append(" ");
                write_location(out, self.location);
                out.append(">");
                left.write_tree(out, &deeper);
                right.write_tree(out, &deeper);
                let ghost body = name@ + " "@ + location_text(self.location) + ">"@ + tree_text(left@, deeper@)
                    + tree_text(right@, deeper@);
                assert(out@ =~= head + body);
                assert(self@ == Expr::Binary(op_of(self.ntype), Box::new(left@), Box::new(right@), self.location));
                assert(tree_text(self@, indent@) == prefix + body);
                assert(out@ =~= start + (prefix + body));
            },
        }
    }

    /// The node as an indented tree, one node per line, each tagged with its
    /// `[line:column]` location.
    pub fn to_tree_string(&self) -> (r: String)
        ensures
            r@ == tree_text(self@, Seq::empty()),
    {
        let mut out = String::new();
        let indent = String::new();
        self.write_tree(&mut out, &indent);
        out
    }
}

/// `Location(line, column)`
pub open spec fn location_debug(l: Location) -> Seq<char> {
    "Location("@ + decimal(l.0 as nat) + ", "@ + decimal(l.1 as nat) + ")"@
}

/// The message of an error; for many errors, one line per error.
pub open spec fn message(e: SyntaxError) -> Seq<char>
    decreases e,
{
    match e {
        SyntaxError::UnexpectedToken(text, loc) => "Unexpected token '"@ + text + "' at "@ + location_debug(loc),
        SyntaxError::UnexpectedEndOfLine(loc) => "Unexpected end of line: "@ + location_debug(loc),
        SyntaxError::ExpectedCloseParen(text, loc) => "Expected close parenthesis at '"@ + location_debug(loc) + "' got "@
            + text,
        SyntaxError::MultipleErrors(errors) => message_lines(errors),
    }
}

/// The messages of `errors`, each followed by a line break.
pub open spec fn message_lines(errors: Seq<SyntaxError>) -> Seq<char>
    decreases errors,
{
    if errors.len() == 0 {
        Seq::empty()
    } else {
        message_lines(errors.drop_last()) + message(errors.last()) + seq!['\n']
    }
}

fn write_location_debug(out: &mut String, l: Location)
    ensures
        final(out)@ == old(out)@ + location_debug(l),
{
    proof {
        reveal_strlit("Location(");
        reveal_strlit(", ");
        reveal_strlit(")");
    }
    let ghost start = out@;
    out.append("Location(");
    write_decimal(out, l.0);
    out.append(", ");
    write_decimal(out, l.1);
    out.append(")");
    assert(out@ =~= start + location_debug(l));
}

impl ParsingError {
    fn write_message(&self, out: &mut String)
        ensures
            final(out)@ == old(out)@ + message(self@),
        decreases self,
    {
        proof {
            reveal_strlit("Unexpected token '");
            reveal_strlit("' at ");
            reveal_strlit("Unexpected end of line: ");
            reveal_strlit("Expected close parenthesis at '");
            reveal_strlit("' got ");
            reveal_strlit("\n");
        }
        let ghost start = out@;
        match self {
            ParsingError::UnexpectedToken(text, loc) => {
                out.append("Unexpected token '");
                out.append(text.as_str());
                out.append("' at ");
                write_location_debug(out, *loc);
                assert(out@ =~= start + message(self@));
            },
            ParsingError::UnexpectedEndOfLine(loc) => {
                out.append("Unexpected end of line: ");
                write_location_debug(out, *loc);
                assert(out@ =~= start + message(self@));
            },
            ParsingError::ExpectedCloseParen(text, loc) => {
                out.append("Expected close parenthesis at '");
                write_location_debug(out, *loc);
                out.append("' got ");
                out.append(text.as_str());
                assert(out@ =~= start + message(self@));
            },
            ParsingError::MultipleErrors(errors) => {
                proof {
                    lemma_view_errors(errors@);
                }
                let mut i: usize = 0;
                while i < errors.len()
                    invariant
                        i <= errors@.len(),
                        view_errors(errors@).len() == errors@.len(),
                        forall|k: int| 0 <= k < errors@.len() ==> view_errors(errors@)[k] == (#[trigger] errors@[k])@,
                        out@ == start + message_lines(view_errors(errors@).take(i as int)),
                        forall|k: int| 0 <= k < errors@.len() ==> decreases_to!(self => #[trigger] errors@[k]),
                    decreases errors@.len() - i,
                {
                    let ghost before = out@;
                    errors[i].write_message(out);
                    let ghost mid = out@;
                    out.append("\n");
                    assert(view_errors(errors@).take(i + 1).drop_last() == view_errors(errors@).take(i as int));
                    assert(view_errors(errors@).take(i + 1).last() == errors@[i as int]@);
                    assert(mid == before + message(errors@[i as int]@));
                    proof {
                        reveal_strlit("\n");
                    }
                    assert(out@ =~= mid + seq!['\n']);
                    assert(out@ =~= start + message_lines(view_errors(errors@).take(i + 1)));
                    i = i + 1;
                }
                assert(view_errors(errors@).take(i as int) == view_errors(errors@));
            },
        }
    }

    /// The error as a message: the kind, the text found and the location;
    /// for many errors, one line per error.
    pub fn message(&self) -> (r: String)
        ensures
            r@ == message(self@),
    {
        let mut out = String::new();
        self.write_message(&mut out);
        out
    }
}

} // verus!
