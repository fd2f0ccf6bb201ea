use linecalc::{Lexer, Location, NodeType, ParseNode, Parser, ParsingError};

fn wrap(node: ParseNode) -> ParseNode {
    ParseNode {
        ntype: NodeType::Root(vec![node]),
        location: Location(0, 0),
    }
}

fn wrap2(node1: ParseNode, node2: ParseNode) -> ParseNode {
    ParseNode {
        ntype: NodeType::Root(vec![node1, node2]),
        location: Location(0, 0),
    }
}

/// A number node keeps its literal's text, which is how these values print.
fn number_node(num: f64, (line, column): (usize, usize)) -> ParseNode {
    ParseNode {
        ntype: NodeType::Number(num.to_string()),
        location: Location(line, column),
    }
}

fn identifier_node(value: &str, (line, column): (usize, usize)) -> ParseNode {
    ParseNode {
        ntype: NodeType::Identifier(String::from(value)),
        location: Location(line, column),
    }
}

fn multiplication_node(
    left_child: ParseNode,
    right_child: ParseNode,
    (line, column): (usize, usize),
) -> ParseNode {
    let left_child = Box::new(left_child);
    let right_child = Box::new(right_child);
    ParseNode {
        ntype: NodeType::Multiplication(left_child, right_child),
        location: Location(line, column),
    }
}

fn division_node(
    left_child: ParseNode,
    right_child: ParseNode,
    (line, column): (usize, usize),
) -> ParseNode {
    let left_child = Box::new(left_child);
    let right_child = Box::new(right_child);
    ParseNode {
        ntype: NodeType::Division(left_child, right_child),
        location: Location(line, column),
    }
}

fn sum_node(
    left_child: ParseNode,
    right_child: ParseNode,
    (line, column): (usize, usize),
) -> ParseNode {
    let left_child = Box::new(left_child);
    let right_child = Box::new(right_child);
    ParseNode {
        ntype: NodeType::Sum(left_child, right_child),
        location: Location(line, column),
    }
}

fn substraction_node(
    left_child: ParseNode,
    right_child: ParseNode,
    (line, column): (usize, usize),
) -> ParseNode {
    let left_child = Box::new(left_child);
    let right_child = Box::new(right_child);
    ParseNode {
        ntype: NodeType::Substraction(left_child, right_child),
        location: Location(line, column),
    }
}

fn greater_than_node(
    left_child: ParseNode,
    right_child: ParseNode,
    (line, column): (usize, usize),
) -> ParseNode {
    let left_child = Box::new(left_child);
    let right_child = Box::new(right_child);
    ParseNode {
        ntype: NodeType::GreaterThan(left_child, right_child),
        location: Location(line, column),
    }
}

fn greater_than_equal_node(
    left_child: ParseNode,
    right_child: ParseNode,
    (line, column): (usize, usize),
) -> ParseNode {
    let left_child = Box::new(left_child);
    let right_child = Box::new(right_child);
    ParseNode {
        ntype: NodeType::GreaterThanOrEqual(left_child, right_child),
        location: Location(line, column),
    }
}

fn less_than_node(
    left_child: ParseNode,
    right_child: ParseNode,
    (line, column): (usize, usize),
) -> ParseNode {
    let left_child = Box::new(left_child);
    let right_child = Box::new(right_child);
    ParseNode {
        ntype: NodeType::LessThan(left_child, right_child),
        location: Location(line, column),
    }
}

fn less_than_equal_node(
    left_child: ParseNode,
    right_child: ParseNode,
    (line, column): (usize, usize),
) -> ParseNode {
    let left_child = Box::new(left_child);
    let right_child = Box::new(right_child);
    ParseNode {
        ntype: NodeType::LessThanOrEqual(left_child, right_child),
        location: Location(line, column),
    }
}

fn equal_node(
    left_child: ParseNode,
    right_child: ParseNode,
    (line, column): (usize, usize),
) -> ParseNode {
    let left_child = Box::new(left_child);
    let right_child = Box::new(right_child);
    ParseNode {
        ntype: NodeType::Equal(left_child, right_child),
        location: Location(line, column),
    }
}

fn assignment_node(
    identifier: String,
    right_child: ParseNode,
    (line, column): (usize, usize),
) -> ParseNode {
    let right_child = Box::new(right_child);
    ParseNode {
        ntype: NodeType::Assignment(identifier, right_child),
        location: Location(line, column),
    }
}

#[test]
fn test_fn_parse_number() {
    let tokens = Lexer::get_tokens("3.14").unwrap();
    let mut parser = Parser::new(&tokens);
    assert_eq!(
        Some(Ok(number_node(3.14f64, (0, 0)))),
        parser.parse_number(true)
    );

    assert_eq!(parser.position(), 1);
}

#[test]
fn test_fn_parse_number_non_number() {
    let tokens = Lexer::get_tokens("hello").unwrap();
    let mut parser = Parser::new(&tokens);
    assert_eq!(None, parser.parse_number(true));

    assert_eq!(parser.position(), 0);
}

#[test]
fn test_fn_parse_identifier() {
    let tokens = Lexer::get_tokens("hello").unwrap();
    let mut parser = Parser::new(&tokens);
    assert_eq!(
        Some(Ok(identifier_node("hello", (0, 0)))),
        parser.parse_identifier(true)
    );

    assert_eq!(parser.position(), 1);
}

#[test]
fn test_fn_parse_identifier_non_identifier() {
    let tokens = Lexer::get_tokens("3.14").unwrap();
    let mut parser = Parser::new(&tokens);
    assert_eq!(None, parser.parse_identifier(true));

    assert_eq!(parser.position(), 0);
}

#[test]
fn test_fn_parse_factor() {
    let tokens = Lexer::get_tokens("3.14 hello").unwrap();
    let mut parser = Parser::new(&tokens);
    assert_eq!(Ok(number_node(3.14f64, (0, 0))), parser.parse_factor());
    assert_eq!(Ok(identifier_node("hello", (0, 5))), parser.parse_factor());
    assert_eq!(
        Err(ParsingError::UnexpectedEndOfLine(Location(0, 9))),
        parser.parse_factor()
    );
    assert_eq!(parser.position(), 2);
}

#[test]
fn test_fn_parse_factor2() {
    let tokens = Lexer::get_tokens("hello + world").unwrap();
    let mut parser = Parser::new(&tokens);
    assert_eq!(Ok(identifier_node("hello", (0, 0))), parser.parse_factor());
    assert_eq!(
        Err(ParsingError::UnexpectedToken(
            String::from("+"),
            Location(0, 6)
        )),
        parser.parse_factor()
    );
    assert_eq!(parser.position(), 1);
}

#[test]
fn test_fn_expr_in_parens() {
    let tokens = Lexer::get_tokens("(hello)").unwrap();
    let mut parser = Parser::new(&tokens);
    assert_eq!(Ok(identifier_node("hello", (0, 1))), parser.parse_expr());
    assert_eq!(parser.position(), 3);
}

#[test]
fn test_fn_expr_in_double_parens() {
    let tokens = Lexer::get_tokens("((hello) )").unwrap();
    let mut parser = Parser::new(&tokens);
    assert_eq!(Ok(identifier_node("hello", (0, 2))), parser.parse_expr());
    assert_eq!(parser.position(), 5);
}

#[test]
fn test_fn_expr_in_unclosed_paren() {
    let tokens = Lexer::get_tokens("(hello").unwrap();
    let mut parser = Parser::new(&tokens);
    assert_eq!(
        Err(ParsingError::ExpectedCloseParen(
            String::from("EOL"),
            Location(0, 5)
        )),
        parser.parse_expr()
    );
    assert_eq!(parser.position(), 2);
}

#[test]
fn test_fn_expr_in_unclosed_paren2() {
    let tokens = Lexer::get_tokens("(hello j").unwrap();
    let mut parser = Parser::new(&tokens);
    assert_eq!(
        Err(ParsingError::ExpectedCloseParen(
            String::from("j"),
            Location(0, 7)
        )),
        parser.parse_expr()
    );
    assert_eq!(parser.position(), 2);
}

#[test]
fn test_parse_empty_input() {
    let tokens = Lexer::get_tokens("").unwrap();
    let mut parser = Parser::new(&tokens);
    assert_eq!(Ok(ParseNode::empty_root()), parser.parse());
}

#[test]
fn test_parse_number() {
    let tokens = Lexer::get_tokens("3.14").unwrap();
    let mut parser = Parser::new(&tokens);
    assert_eq!(Ok(wrap(number_node(3.14f64, (0, 0)))), parser.parse());
}

#[test]
fn test_parse_identifier() {
    let tokens = Lexer::get_tokens("hello").unwrap();
    let mut parser = Parser::new(&tokens);
    assert_eq!(Ok(wrap(identifier_node("hello", (0, 0)))), parser.parse());
}

#[test]
fn test_parse_expr_in_parens() {
    let tokens = Lexer::get_tokens("(hello)").unwrap();
    let mut parser = Parser::new(&tokens);
    assert_eq!(Ok(wrap(identifier_node("hello", (0, 1)))), parser.parse());
}

#[test]
fn test_parse_expr_in_double_parens() {
    let tokens = Lexer::get_tokens("((3.14))").unwrap();
    let mut parser = Parser::new(&tokens);
    assert_eq!(Ok(wrap(number_node(3.14f64, (0, 2)))), parser.parse());
}

#[test]
fn test_parse_multiplication() {
    let tokens = Lexer::get_tokens("3.14 * hello").unwrap();
    let mut parser = Parser::new(&tokens);
    assert_eq!(
        Ok(wrap(multiplication_node(
            number_node(3.14f64, (0, 0)),
            identifier_node("hello", (0, 7)),
            (0, 5)
        ))),
        parser.parse()
    );
}

#[test]
fn test_parse_division() {
    let tokens = Lexer::get_tokens("3.14 / hello").unwrap();
    let mut parser = Parser::new(&tokens);
    assert_eq!(
        Ok(wrap(division_node(
            number_node(3.14f64, (0, 0)),
            identifier_node("hello", (0, 7)),
            (0, 5)
        ))),
        parser.parse()
    );
}

#[test]
fn test_parse_mutli_div_parens() {
    let tokens = Lexer::get_tokens("3.14 * (hello / world)").unwrap();
    let mut parser = Parser::new(&tokens);
    assert_eq!(
        Ok(wrap(multiplication_node(
            number_node(3.14f64, (0, 0)),
            division_node(
                identifier_node("hello", (0, 8)),
                identifier_node("world", (0, 16)),
                (0, 14)
            ),
            (0, 5)
        ))),
        parser.parse()
    );
}

#[test]
fn test_parse_sum() {
    let tokens = Lexer::get_tokens("3.14 + hello").unwrap();
    let mut parser = Parser::new(&tokens);
    assert_eq!(
        Ok(wrap(sum_node(
            number_node(3.14f64, (0, 0)),
            identifier_node("hello", (0, 7)),
            (0, 5)
        ))),
        parser.parse()
    );
}

#[test]
fn test_parse_substraction() {
    let tokens = Lexer::get_tokens("3.14 - hello").unwrap();
    let mut parser = Parser::new(&tokens);
    assert_eq!(
        Ok(wrap(substraction_node(
            number_node(3.14f64, (0, 0)),
            identifier_node("hello", (0, 7)),
            (0, 5)
        ))),
        parser.parse()
    );
}

#[test]
fn test_parse_sum_multi() {
    let tokens = Lexer::get_tokens("3.14 + hello * world").unwrap();
    let mut parser = Parser::new(&tokens);
    assert_eq!(
        Ok(wrap(sum_node(
            number_node(3.14f64, (0, 0)),
            multiplication_node(
                identifier_node("hello", (0, 7)),
                identifier_node("world", (0, 15)),
                (0, 13)
            ),
            (0, 5)
        ))),
        parser.parse()
    );
}

#[test]
fn test_parse_div_substraction() {
    let tokens = Lexer::get_tokens("3.14 / (hello) - world").unwrap();
    let mut parser = Parser::new(&tokens);
    assert_eq!(
        Ok(wrap(substraction_node(
            division_node(
                number_node(3.14f64, (0, 0)),
                identifier_node("hello", (0, 8)),
                (0, 5)
            ),
            identifier_node("world", (0, 17)),
            (0, 15)
        ))),
        parser.parse()
    );
}

#[test]
fn test_parse_greater_than() {
    let tokens = Lexer::get_tokens("3.14 > hello").unwrap();
    let mut parser = Parser::new(&tokens);
    assert_eq!(
        Ok(wrap(greater_than_node(
            number_node(3.14f64, (0, 0)),
            identifier_node("hello", (0, 7)),
            (0, 5)
        ))),
        parser.parse()
    );
}

#[test]
fn test_parse_greater_than_equal() {
    let tokens = Lexer::get_tokens("3.14 >= hello").unwrap();
    let mut parser = Parser::new(&tokens);
    assert_eq!(
        Ok(wrap(greater_than_equal_node(
            number_node(3.14f64, (0, 0)),
            identifier_node("hello", (0, 8)),
            (0, 5)
        ))),
        parser.parse()
    );
}

#[test]
fn test_parse_less_than() {
    let tokens = Lexer::get_tokens("3.14 < hello").unwrap();
    let mut parser = Parser::new(&tokens);
    assert_eq!(
        Ok(wrap(less_than_node(
            number_node(3.14f64, (0, 0)),
            identifier_node("hello", (0, 7)),
            (0, 5)
        ))),
        parser.parse()
    );
}

#[test]
fn test_parse_less_than_equal() {
    let tokens = Lexer::get_tokens("3.14 <= hello").unwrap();
    let mut parser = Parser::new(&tokens);
    assert_eq!(
        Ok(wrap(less_than_equal_node(
            number_node(3.14f64, (0, 0)),
            identifier_node("hello", (0, 8)),
            (0, 5)
        ))),
        parser.parse()
    );
}

#[test]
fn test_parse_equal() {
    let tokens = Lexer::get_tokens("3.14 == hello").unwrap();
    let mut parser = Parser::new(&tokens);
    assert_eq!(
        Ok(wrap(equal_node(
            number_node(3.14f64, (0, 0)),
            identifier_node("hello", (0, 8)),
            (0, 5)
        ))),
        parser.parse()
    );
}

#[test]
fn test_parse_less_than_sum() {
    let tokens = Lexer::get_tokens("3.14 < hello + world").unwrap();
    let mut parser = Parser::new(&tokens);
    assert_eq!(
        Ok(wrap(less_than_node(
            number_node(3.14f64, (0, 0)),
            sum_node(
                identifier_node("hello", (0, 7)),
                identifier_node("world", (0, 15)),
                (0, 13)
            ),
            (0, 5)
        ))),
        parser.parse()
    );
}

#[test]
fn test_parse_equal_sub_multi() {
    let tokens = Lexer::get_tokens("3.14 - 2 == hello * world").unwrap();
    let mut parser = Parser::new(&tokens);
    assert_eq!(
        Ok(wrap(equal_node(
            substraction_node(
                number_node(3.14f64, (0, 0)),
                number_node(2f64, (0, 7)),
                (0, 5)
            ),
            multiplication_node(
                identifier_node("hello", (0, 12)),
                identifier_node("world", (0, 20)),
                (0, 18)
            ),
            (0, 9)
        ))),
        parser.parse()
    );
}

#[test]
fn test_parse_greater_than_sub() {
    let tokens = Lexer::get_tokens("3.14 >= (hello - world)").unwrap();
    let mut parser = Parser::new(&tokens);
    assert_eq!(
        Ok(wrap(greater_than_equal_node(
            number_node(3.14f64, (0, 0)),
            substraction_node(
                identifier_node("hello", (0, 9)),
                identifier_node("world", (0, 17)),
                (0, 15)
            ),
            (0, 5)
        ))),
        parser.parse()
    );
}

#[test]
fn test_parse_assignment() {
    let tokens = Lexer::get_tokens("pi = 3.14").unwrap();
    let mut parser = Parser::new(&tokens);
    assert_eq!(
        Ok(wrap(assignment_node(
            String::from("pi"),
            number_node(3.14f64, (0, 5)),
            (0, 3)
        ))),
        parser.parse()
    );
}

#[test]
fn test_parse_assignment2() {
    let tokens = Lexer::get_tokens("resp = (hello - world)").unwrap();
    let mut parser = Parser::new(&tokens);
    assert_eq!(
        Ok(wrap(assignment_node(
            String::from("resp"),
            substraction_node(
                identifier_node("hello", (0, 8)),
                identifier_node("world", (0, 16)),
                (0, 14)
            ),
            (0, 5)
        ))),
        parser.parse()
    );
}

#[test]
fn test_parse_multiple_lines() {
    let tokens = Lexer::get_tokens("resp = (hello - world)\n3.14 == hello").unwrap();
    let mut parser = Parser::new(&tokens);
    assert_eq!(
        Ok(wrap2(
            assignment_node(
                String::from("resp"),
                substraction_node(
                    identifier_node("hello", (0, 8)),
                    identifier_node("world", (0, 16)),
                    (0, 14)
                ),
                (0, 5)
            ),
            equal_node(
                number_node(3.14f64, (1, 0)),
                identifier_node("hello", (1, 8)),
                (1, 5)
            )
        )),
        parser.parse()
    );
}

fn wrap_err(error: ParsingError) -> ParsingError {
    ParsingError::MultipleErrors(vec![error])
}

fn wrap_err2(error1: ParsingError, error2: ParsingError) -> ParsingError {
    ParsingError::MultipleErrors(vec![error1, error2])
}

#[test]
fn test_parse_trailing_token() {
    let tokens = Lexer::get_tokens("3.14 hello").unwrap();
    let mut parser = Parser::new(&tokens);
    assert_eq!(
        Err(wrap_err(ParsingError::UnexpectedToken(
            String::from("hello"),
            Location(0, 5)
        ))),
        parser.parse()
    );
    assert_eq!(parser.position(), 2);
}

#[test]
fn test_parse_invalid_assignment() {
    let tokens = Lexer::get_tokens("hello =").unwrap();
    let mut parser = Parser::new(&tokens);
    assert_eq!(
        Err(wrap_err(ParsingError::UnexpectedEndOfLine(Location(0, 6)))),
        parser.parse()
    );
    assert_eq!(parser.position(), 2);
}

#[test]
fn test_parse_invalid_multiple_lines() {
    let tokens = Lexer::get_tokens("hello =\n2").unwrap();
    let mut parser = Parser::new(&tokens);
    assert_eq!(
        Err(wrap_err(ParsingError::UnexpectedEndOfLine(Location(0, 6)))),
        parser.parse()
    );
    assert_eq!(parser.position(), 3);
}

#[test]
fn test_parse_invalid_multiple_lines2() {
    let tokens = Lexer::get_tokens("2\nhello =").unwrap();
    let mut parser = Parser::new(&tokens);
    assert_eq!(
        Err(wrap_err(ParsingError::UnexpectedEndOfLine(Location(1, 6)))),
        parser.parse()
    );
    assert_eq!(parser.position(), 3);
}

#[test]
fn test_parse_invalid_multiple_lines3() {
    let tokens = Lexer::get_tokens("hello =\n=").unwrap();
    let mut parser = Parser::new(&tokens);
    assert_eq!(
        Err(wrap_err2(
            ParsingError::UnexpectedEndOfLine(Location(0, 6)),
            ParsingError::UnexpectedToken(String::from("="), Location(1, 0))
        )),
        parser.parse()
    );
    assert_eq!(parser.position(), 3);
}
