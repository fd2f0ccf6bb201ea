use linecalc::eval::LiteralText;
use linecalc::{EvalContext, EvalError, Lexer, Location, NodeType, Number, Parser};

/// An `f64` as the evaluator's number type.
#[derive(Clone, Copy, Debug, PartialEq)]
struct F64(f64);

impl Number for F64 {
    // The spec functions name what the methods below return.
    fn literal_value(_text: LiteralText) -> Self {
        unreachable!("the text of a literal is known only to the verifier")
    }

    fn pi_value() -> Self {
        Self::pi()
    }

    fn one_value() -> Self {
        Self::one()
    }

    fn zero_value() -> Self {
        Self::zero()
    }

    fn sum_of(self, other: Self) -> Self {
        self.sum(other)
    }

    fn difference_of(self, other: Self) -> Self {
        self.difference(other)
    }

    fn product_of(self, other: Self) -> Self {
        self.product(other)
    }

    fn quotient_of(self, other: Self) -> Self {
        self.quotient(other)
    }

    fn is_greater(self, other: Self) -> bool {
        self.greater_than(other)
    }

    fn is_greater_or_equal(self, other: Self) -> bool {
        self.greater_or_equal(other)
    }

    fn is_less(self, other: Self) -> bool {
        self.less_than(other)
    }

    fn is_less_or_equal(self, other: Self) -> bool {
        self.less_or_equal(other)
    }

    fn is_near(self, other: Self) -> bool {
        self.nearly_equal(other)
    }

    fn from_literal(text: &str) -> Self {
        F64(text.parse().unwrap())
    }

    fn pi() -> Self {
        F64(std::f64::consts::PI)
    }

    fn one() -> Self {
        F64(1.0)
    }

    fn zero() -> Self {
        F64(0.0)
    }

    fn sum(self, other: Self) -> Self {
        F64(self.0 + other.0)
    }

    fn difference(self, other: Self) -> Self {
        F64(self.0 - other.0)
    }

    fn product(self, other: Self) -> Self {
        F64(self.0 * other.0)
    }

    fn quotient(self, other: Self) -> Self {
        F64(self.0 / other.0)
    }

    fn greater_than(self, other: Self) -> bool {
        self.0 > other.0
    }

    fn greater_or_equal(self, other: Self) -> bool {
        self.0 >= other.0
    }

    fn less_than(self, other: Self) -> bool {
        self.0 < other.0
    }

    fn less_or_equal(self, other: Self) -> bool {
        self.0 <= other.0
    }

    fn nearly_equal(self, other: Self) -> bool {
        (self.0 - other.0).abs() < f64::EPSILON
    }
}

type EvalResult = Result<f64, EvalError>;

const EPSILON: f64 = f64::EPSILON;

fn eval(input: &str) -> EvalResult {
    let tokens = Lexer::get_tokens(input).unwrap();
    let mut parser = Parser::new(&tokens);
    let root = parser.parse().unwrap();
    let node = if let NodeType::Root(_) = &root.ntype {
        &root
    } else {
        panic!("Parse result should always be a Root node");
    };

    let mut ctx: EvalContext<F64> = EvalContext::populated();
    ctx.eval(node).map(|value| value.0)
}

fn assert_res(lhs: EvalResult, rhs: EvalResult) {
    match (lhs, rhs) {
        (Ok(a), Ok(b)) => assert!((a - b).abs() <= EPSILON),
        (lhs, rhs) => assert_eq!(lhs, rhs),
    }
}

#[test]
fn test_eval_number() {
    assert_res(eval("3.2"), Ok(3.2));
}

#[test]
fn test_eval_sum() {
    assert_res(eval("3.2 + 2.0"), Ok(5.2));
}

#[test]
fn test_eval_substraction() {
    assert_res(eval("3.2 - 2.0"), Ok(1.2));
}

#[test]
fn test_eval_multiplication() {
    assert_res(eval("3.2 * 2.0"), Ok(6.4));
}

#[test]
fn test_eval_division() {
    assert_res(eval("3.2 / 2.0"), Ok(1.6));
}

#[test]
fn test_eval_greater_than() {
    assert_res(eval("3.2 > 2.0"), Ok(1.0));
}

#[test]
fn test_eval_greater_than_false() {
    assert_res(eval("3.2 > 5.0"), Ok(0.0));
}

#[test]
fn test_eval_greater_or_equal_than() {
    assert_res(eval("3.2 >= 2.0"), Ok(1.0));
}

#[test]
fn test_eval_greater_or_equal_than_false() {
    assert_res(eval("3.2 >= 5.0"), Ok(0.0));
}

#[test]
fn test_eval_less_than() {
    assert_res(eval("3.2 < 4.0"), Ok(1.0));
}

#[test]
fn test_eval_less_than_false() {
    assert_res(eval("3.2 < 1.0"), Ok(0.0));
}

#[test]
fn test_eval_less_or_equal_than() {
    assert_res(eval("3.2 <= 4.0"), Ok(1.0));
}

#[test]
fn test_eval_less_or_equal_than_false() {
    assert_res(eval("3.2 <= 1.0"), Ok(0.0));
}

#[test]
fn test_eval_equal() {
    assert_res(eval("3.2 == 3.2"), Ok(1.0));
}

#[test]
fn test_eval_equal_false() {
    assert_res(eval("3.2 == 5.0"), Ok(0.0));
}

#[test]
fn test_eval_pi() {
    assert_res(eval("PI >= 3.14159265358979312"), Ok(1.0));
}

#[test]
fn test_assinment() {
    assert_res(eval("hello = 5.0"), Ok(5.0));
}

#[test]
fn test_assinment2() {
    assert_res(eval("hello = 5.0\n2.3 + hello"), Ok(7.3));
}

#[test]
fn test_nested() {
    assert_res(eval("(6 * 5) / 4 + 2"), Ok(9.5));
    assert_res(eval("(2 * 5) / 3 - 2"), Ok(1.33333333333333333));
    assert_res(eval("(6 * 5) / 4 + (8 * PI)"), Ok(32.632741228718345));
    assert_res(eval("(6 * 5) / 4 + (8 * PI) > 32"), Ok(1.0));
    assert_res(eval("(((((3)))))"), Ok(3.0));
}

#[test]
fn unknown_name_is_reported_where_it_is_read() {
    assert_res(
        eval("x = 1\ny + x"),
        Err(EvalError::SymbolNotFound(String::from("y"), Location(1, 0))),
    );
    assert_res(
        eval("a = b"),
        Err(EvalError::SymbolNotFound(String::from("b"), Location(0, 4))),
    );
}

#[test]
fn left_operand_is_evaluated_first() {
    assert_res(
        eval("y * z"),
        Err(EvalError::SymbolNotFound(String::from("y"), Location(0, 0))),
    );
    assert_res(
        eval("2 - (1 + w) / z"),
        Err(EvalError::SymbolNotFound(String::from("w"), Location(0, 9))),
    );
}

#[test]
fn division_by_zero_is_not_an_error() {
    assert_eq!(eval("1 / 0"), Ok(f64::INFINITY));
    assert!(eval("0 / 0").unwrap().is_nan());
}

#[test]
fn comparisons_give_one_or_zero() {
    for (text, expected) in [("1 < 2", 1.0), ("2 < 1", 0.0), ("0.1 + 0.2 == 0.3", 1.0), ("0.1 == 0.2", 0.0)] {
        assert_eq!(eval(text), Ok(expected));
    }
}

#[test]
fn statements_give_one_value_each() {
    let tokens = Lexer::get_tokens("a = 2\na * 3\na").unwrap();
    let root = Parser::new(&tokens).parse().unwrap();
    let nodes = match root.ntype {
        NodeType::Root(nodes) => nodes,
        _ => panic!("not a root"),
    };
    let mut ctx: EvalContext<F64> = EvalContext::populated();
    let values: Vec<f64> = ctx.eval_statements(&nodes).unwrap().into_iter().map(|v| v.0).collect();
    assert_eq!(values, vec![2.0, 6.0, 2.0]);
}

#[test]
fn empty_program_has_no_statement_values() {
    let tokens = Lexer::get_tokens("").unwrap();
    let root = Parser::new(&tokens).parse().unwrap();
    let nodes = match root.ntype {
        NodeType::Root(nodes) => nodes,
        _ => panic!("not a root"),
    };
    assert!(nodes.is_empty());
    let mut ctx: EvalContext<F64> = EvalContext::populated();
    assert_eq!(ctx.eval_statements(&nodes).unwrap(), vec![]);
    assert_eq!(eval("PI").unwrap(), std::f64::consts::PI);
}

#[test]
fn failed_statement_stops_the_session() {
    let tokens = Lexer::get_tokens("a = 1\nb\nc = 2").unwrap();
    let root = Parser::new(&tokens).parse().unwrap();
    let nodes = match root.ntype {
        NodeType::Root(nodes) => nodes,
        _ => panic!("not a root"),
    };
    let mut ctx: EvalContext<F64> = EvalContext::new();
    assert_eq!(
        ctx.eval_statements(&nodes),
        Err(EvalError::SymbolNotFound(String::from("b"), Location(1, 0)))
    );
    assert_eq!(ctx.eval(&nodes[0]).unwrap(), F64(1.0));
}
