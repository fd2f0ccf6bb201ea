//! Evaluation of syntax trees against a symbol table.
//!
//! The evaluator walks the tree and keeps the names; the arithmetic comes
//! from the number type it is given, through `Number`.
use vstd::prelude::*;
use crate::ast::{lemma_view_nodes, view_nodes, BinOp, Expr, Location, NodeType, ParseNode};
use crate::render::op_of;
use crate::symbols::{EvalError, SymbolTable};

verus! {

broadcast use {vstd::std_specs::vec::group_vec_axioms, vstd::seq::group_seq_axioms};

/// The text of a literal, as spec functions see it.
pub type LiteralText = Seq<char>;

/// The numbers a program computes with. Each operation is named by a spec
/// function, which an implementation defines as what its method returns.
pub trait Number: Copy + Sized {
    /// The value of a decimal literal.
    spec fn literal_value(text: LiteralText) -> Self;

    spec fn pi_value() -> Self;

    spec fn one_value() -> Self;

    spec fn zero_value() -> Self;

    spec fn sum_of(self, other: Self) -> Self;

    spec fn difference_of(self, other: Self) -> Self;

    spec fn product_of(self, other: Self) -> Self;

    spec fn quotient_of(self, other: Self) -> Self;

    spec fn is_greater(self, other: Self) -> bool;

    spec fn is_greater_or_equal(self, other: Self) -> bool;

    spec fn is_less(self, other: Self) -> bool;

    spec fn is_less_or_equal(self, other: Self) -> bool;

    /// Equality up to rounding error.
    spec fn is_near(self, other: Self) -> bool;

    fn from_literal(text: &str) -> (r: Self)
        ensures
            r == Self::literal_value(text@),
    ;

    /// The constant `PI`.
    fn pi() -> (r: Self)
        ensures
            r == Self::pi_value(),
    ;

    /// The value of a true comparison.
    fn one() -> (r: Self)
        ensures
            r == Self::one_value(),
    ;

    /// The value of a false comparison.
    fn zero() -> (r: Self)
        ensures
            r == Self::zero_value(),
    ;

    fn sum(self, other: Self) -> (r: Self)
        ensures
            r == self.sum_of(other),
    ;

    fn difference(self, other: Self) -> (r: Self)
        ensures
            r == self.difference_of(other),
    ;

    fn product(self, other: Self) -> (r: Self)
        ensures
            r == self.product_of(other),
    ;

    fn quotient(self, other: Self) -> (r: Self)
        ensures
            r == self.quotient_of(other),
    ;

    fn greater_than(self, other: Self) -> (r: bool)
        ensures
            r == self.is_greater(other),
    ;

    fn greater_or_equal(self, other: Self) -> (r: bool)
        ensures
            r == self.is_greater_or_equal(other),
    ;

    fn less_than(self, other: Self) -> (r: bool)
        ensures
            r == self.is_less(other),
    ;

    fn less_or_equal(self, other: Self) -> (r: bool)
        ensures
            r == self.is_less_or_equal(other),
    ;

    fn nearly_equal(self, other: Self) -> (r: bool)
        ensures
            r == self.is_near(other),
    ;
}

/// One for a comparison that holds, zero for one that does not.
pub open spec fn truth<V: Number>(holds: bool) -> V {
    if holds {
        V::one_value()
    } else {
        V::zero_value()
    }
}

/// The value of an operation on two operand values.
pub open spec fn apply<V: Number>(op: BinOp, a: V, b: V) -> V {
    match op {
        BinOp::Sum => a.sum_of(b),
        BinOp::Sub => a.difference_of(b),
        BinOp::Mul => a.product_of(b),
        BinOp::Div => a.quotient_of(b),
        BinOp::Gt => truth(a.is_greater(b)),
        BinOp::Ge => truth(a.is_greater_or_equal(b)),
        BinOp::Lt => truth(a.is_less(b)),
        BinOp::Le => truth(a.is_less_or_equal(b)),
        BinOp::Eq => truth(a.is_near(b)),
    }
}

/// A value, or the name read without one and where it was read.
pub type Run<V> = Result<V, (Seq<char>, Location)>;

/// Evaluating a node against the table `t`: its value, or the first name
/// read before it has one, together with the table as evaluation leaves it.
/// The left operand runs before the right, both always; an assignment
/// stores its value and has it as its own; a root runs its statements in
/// order and has the value of the last one. Evaluation stops at the first
/// unknown name.
pub open spec fn run<V: Number>(e: Expr, t: Map<Seq<char>, V>) -> (Run<V>, Map<Seq<char>, V>)
    decreases e,
{
    match e {
        Expr::Number(text, _) => (Ok(V::literal_value(text)), t),
        Expr::Identifier(name, loc) => if t.contains_key(name) {
            (Ok(t[name]), t)
        } else {
            (Err((name, loc)), t)
        },
        Expr::Binary(op, l, r, _) => {
            let (a, t1) = run(*l, t);
            match a {
                Err(x) => (Err(x), t1),
                Ok(a) => {
                    let (b, t2) = run(*r, t1);
                    match b {
                        Err(x) => (Err(x), t2),
                        Ok(b) => (Ok(apply(op, a, b)), t2),
                    }
                },
            }
        },
        Expr::Assignment(name, r, _) => {
            let (a, t1) = run(*r, t);
            match a {
                Err(x) => (Err(x), t1),
                Ok(v) => (Ok(v), t1.insert(name, v)),
            }
        },
        Expr::Root(statements, _) => {
            let (rs, t1) = run_all(statements, t);
            match rs {
                Err(x) => (Err(x), t1),
                Ok(values) => (Ok(values.last()), t1),
            }
        },
    }
}

/// Running statements in order: the value of each, or the first unknown
/// name, after which no statement runs; and the table as they leave it.
pub open spec fn run_all<V: Number>(statements: Seq<Expr>, t: Map<Seq<char>, V>) -> (Result<Seq<V>, (Seq<char>, Location)>, Map<Seq<char>, V>)
    decreases statements,
{
    if statements.len() == 0 {
        (Ok(Seq::empty()), t)
    } else {
        let (rs, t1) = run_all(statements.drop_last(), t);
        match rs {
            Err(x) => (Err(x), t1),
            Ok(values) => {
                let (r, t2) = run(statements.last(), t1);
                match r {
                    Err(x) => (Err(x), t2),
                    Ok(v) => (Ok(values.push(v)), t2),
                }
            },
        }
    }
}

/// Every root within the node has a statement, so every part has a value.
pub open spec fn has_value(e: Expr) -> bool
    decreases e,
{
    match e {
        Expr::Binary(_, l, r, _) => has_value(*l) && has_value(*r),
        Expr::Assignment(_, r, _) => has_value(*r),
        Expr::Root(statements, _) => statements.len() > 0 && all_have_value(statements),
        _ => true,
    }
}

pub open spec fn all_have_value(statements: Seq<Expr>) -> bool
    decreases statements,
{
    statements.len() == 0 || (all_have_value(statements.drop_last()) && has_value(statements.last()))
}

/// An evaluation result as a value or the unknown name it reports.
pub open spec fn run_of<V>(r: Result<V, EvalError>) -> Run<V> {
    match r {
        Ok(v) => Ok(v),
        Err(EvalError::SymbolNotFound(name, loc)) => Err((name@, loc)),
        Err(EvalError::Unimplemented(text)) => Err((text@, Location(0, 0))),
    }
}

/// The results of statements as values or the unknown name reported.
pub open spec fn runs_of<V>(r: Result<Vec<V>, EvalError>) -> Result<Seq<V>, (Seq<char>, Location)> {
    match r {
        Ok(values) => Ok(values@),
        Err(EvalError::SymbolNotFound(name, loc)) => Err((name@, loc)),
        Err(EvalError::Unimplemented(text)) => Err((text@, Location(0, 0))),
    }
}

/// An evaluation session: the values of the names assigned so far.
pub struct EvalContext<V> {
    syms: SymbolTable<V>,
}

impl<V: Number> EvalContext<V> {
    pub closed spec fn view(&self) -> Map<Seq<char>, V> {
        self.syms@
    }

    pub closed spec fn wf(&self) -> bool {
        self.syms.wf()
    }

    /// A session with no names.
    pub fn new() -> (r: Self)
        ensures
            r.wf(),
            r@ == Map::<Seq<char>, V>::empty(),
    {
        EvalContext { syms: SymbolTable::new() }
    }

    /// A session with the built-in constants.
    pub fn populated() -> (r: Self)
        ensures
            r.wf(),
            r@ == Map::<Seq<char>, V>::empty().insert("PI"@, V::pi_value()),
    {
        let mut ctx = Self::new();
        ctx.populate_symbol_table();
        ctx
    }

    fn populate_symbol_table(&mut self)
        requires
            old(self).wf(),
        ensures
            final(self).wf(),
            final(self)@ == old(self)@.insert("PI"@, V::pi_value()),
    {
        self.syms.insert("PI".to_owned(), V::pi());
    }

    /// The value of a node, as `run` gives it: operands left before right,
    /// an assignment stores its value, a root has the value of its last
    /// statement. The first name read without a value stops evaluation with
    /// `SymbolNotFound`, and the table stays as evaluation left it.
    pub fn eval(&mut self, node: &ParseNode) -> (r: Result<V, EvalError>)
        requires
            old(self).wf(),
            has_value(node@),
        ensures
            final(self).wf(),
            (run_of(r), final(self)@) == run(node@, old(self)@),
            r is Err ==> r->Err_0 is SymbolNotFound,
        decreases node,
    {
        match &node.ntype {
            NodeType::Root(nodes) => {
                proof {
                    lemma_view_nodes(nodes@);
                    assert(node@ == Expr::Root(view_nodes(nodes@), node.location));
                }
                match self.eval_statements(nodes) {
                    Ok(values) => Ok(values[values.len() - 1]),
                    Err(e) => Err(e),
                }
            },
            NodeType::Number(text) => Ok(V::from_literal(text.as_str())),
            NodeType::Identifier(name) => self.syms.lookup(name, node.location),
            NodeType::Assignment(name, right) => {
                let value = match self.eval(right) {
                    Ok(value) => value,
                    Err(e) => return Err(e),
                };
                self.syms.insert(name.clone(), value);
                Ok(value)
            },
            NodeType::Sum(left, right) | NodeType::Substraction(left, right) | NodeType::Multiplication(left, right)
            | NodeType::Division(left, right) => {
                proof {
                    assert(node@ == Expr::Binary(op_of(node.ntype), Box::new(left@), Box::new(right@), node.location));
                }
                let l = match self.eval(left) {
                    Ok(value) => value,
                    Err(e) => return Err(e),
                };
                let r = match self.eval(right) {
                    Ok(value) => value,
                    Err(e) => return Err(e),
                };
                Ok(Self::perform_arithmetic_op(&node.ntype, l, r))
            },
            NodeType::GreaterThan(left, right) | NodeType::GreaterThanOrEqual(left, right)
            | NodeType::LessThan(left, right) | NodeType::LessThanOrEqual(left, right)
            | NodeType::Equal(left, right) => {
                proof {
                    assert(node@ == Expr::Binary(op_of(node.ntype), Box::new(left@), Box::new(right@), node.location));
                }
                let l = match self.eval(left) {
                    Ok(value) => value,
                    Err(e) => return Err(e),
                };
                let r = match self.eval(right) {
                    Ok(value) => value,
                    Err(e) => return Err(e),
                };
                Ok(Self::perform_comparison_op(&node.ntype, l, r))
            },
        }
    }

    /// The values of statements run in order, one per statement, as
    /// `run_all` gives them; the first unknown name ends the run and no
    /// later statement runs. No statements give no values.
    pub fn eval_statements(&mut self, nodes: &Vec<ParseNode>) -> (r: Result<Vec<V>, EvalError>)
        requires
            old(self).wf(),
            all_have_value(view_nodes(nodes@)),
        ensures
            final(self).wf(),
            (runs_of(r), final(self)@) == run_all(view_nodes(nodes@), old(self)@),
            r is Err ==> r->Err_0 is SymbolNotFound,
            r is Ok ==> r->Ok_0@.len() == nodes@.len(),
        decreases nodes,
    {
        let ghost start = self@;
        let ghost stmts = view_nodes(nodes@);
        proof {
            lemma_view_nodes(nodes@);
            lemma_all_have_value(stmts);
            assert(stmts.take(0) =~= Seq::<Expr>::empty());
        }
        let mut values: Vec<V> = Vec::new();
        let mut i: usize = 0;
        while i < nodes.len()
            invariant
                self.wf(),
                start == old(self)@,
                i <= nodes@.len(),
                values@.len() == i,
                stmts == view_nodes(nodes@),
                stmts.len() == nodes@.len(),
                forall|k: int| 0 <= k < nodes@.len() ==> stmts[k] == (#[trigger] nodes@[k])@,
                forall|k: int| 0 <= k < nodes@.len() ==> has_value(#[trigger] stmts[k]),
                forall|k: int| 0 <= k < nodes@.len() ==> decreases_to!(nodes => #[trigger] nodes@[k]),
                run_all(stmts.take(i as int), start) == (Ok::<Seq<V>, (Seq<char>, Location)>(values@), self@),
            decreases nodes@.len() - i,
        {
            assert(stmts.take(i + 1).drop_last() == stmts.take(i as int));
            assert(stmts.take(i + 1).last() == stmts[i as int]);
            match self.eval(&nodes[i]) {
                Ok(v) => {
                    values.push(v);
                },
                Err(e) => {
                    proof {
                        lemma_stopped_run(stmts, i + 1, start);
                    }
                    return Err(e);
                },
            }
            i = i + 1;
        }
        assert(stmts.take(i as int) == stmts);
        Ok(values)
    }

    fn perform_arithmetic_op(ntype: &NodeType, left: V, right: V) -> (r: V)
        requires
            ntype is Sum || ntype is Substraction || ntype is Multiplication || ntype is Division,
        ensures
            r == apply(op_of(*ntype), left, right),
    {
        match ntype {
            NodeType::Sum(..) => left.sum(right),
            NodeType::Substraction(..) => left.difference(right),
            NodeType::Multiplication(..) => left.product(right),
            _ => left.quotient(right),
        }
    }

    /// One for a true comparison, zero for a false one.
    fn perform_comparison_op(ntype: &NodeType, left: V, right: V) -> (r: V)
        requires
            ntype is GreaterThan || ntype is GreaterThanOrEqual || ntype is LessThan || ntype is LessThanOrEqual
                || ntype is Equal,
        ensures
            r == apply(op_of(*ntype), left, right),
    {
        let holds = match ntype {
            NodeType::GreaterThan(..) => left.greater_than(right),
            NodeType::GreaterThanOrEqual(..) => left.greater_or_equal(right),
            NodeType::LessThan(..) => left.less_than(right),
            NodeType::LessThanOrEqual(..) => left.less_or_equal(right),
            _ => left.nearly_equal(right),
        };
        if holds {
            V::one()
        } else {
            V::zero()
        }
    }
}

proof fn lemma_all_have_value(statements: Seq<Expr>)
    requires
        all_have_value(statements),
    ensures
        forall|k: int| 0 <= k < statements.len() ==> has_value(#[trigger] statements[k]),
    decreases statements.len(),
{
    if statements.len() > 0 {
        lemma_all_have_value(statements.drop_last());
        assert forall|k: int| 0 <= k < statements.len() implies has_value(#[trigger] statements[k]) by {
            if k < statements.len() - 1 {
                assert(statements.drop_last()[k] == statements[k]);
            }
        }
    }
}

/// Once a run of the first `j` statements stops at an unknown name, the
/// run of them all stops there too, with the same table.
proof fn lemma_stopped_run<V: Number>(statements: Seq<Expr>, j: int, t: Map<Seq<char>, V>)
    requires
        0 <= j <= statements.len(),
        run_all(statements.take(j), t).0 is Err,
    ensures
        run_all(statements, t) == run_all(statements.take(j), t),
    decreases statements.len() - j,
{
    if j < statements.len() {
        assert(statements.take(j + 1).drop_last() == statements.take(j));
        lemma_stopped_run(statements, j + 1, t);
    } else {
        assert(statements.take(j) == statements);
    }
}

} // verus!
