use linecalc::{Lexer, Location, ParseNode, Parser, ParsingError};

fn parse(text: &str) -> ParseNode {
    let tokens = Lexer::get_tokens(text).unwrap();
    let mut parser = Parser::new(&tokens);
    parser.parse().unwrap()
}

#[test]
fn tree_of_an_assignment() {
    assert_eq!(
        parse("x = 1 + 2").to_tree_string(),
        "Root [0:0]>\n Assignment [0:2]>\n  x\n  Sum [0:6]>\n   1 [0:4]\n   2 [0:8]"
    );
}

#[test]
fn tree_of_two_lines() {
    assert_eq!(
        parse("a * (b - 10)\nc >= 2").to_tree_string(),
        "Root [0:0]>\n Multiplication [0:2]>\n  a [0:0]\n  Substraction [0:7]>\n   b [0:5]\n   10 [0:9]\n GreaterThanOrEqual [1:2]>\n  c [1:0]\n  2 [1:5]"
    );
}

#[test]
fn tree_of_a_leaf() {
    assert_eq!(ParseNode::empty_root().to_tree_string(), "Root [0:0]>");
    assert_eq!(parse("          pi").to_tree_string(), "Root [0:0]>\n pi [0:10]");
}

#[test]
fn messages_of_each_error() {
    assert_eq!(
        ParsingError::UnexpectedToken(String::from("+"), Location(0, 6)).message(),
        "Unexpected token '+' at Location(0, 6)"
    );
    assert_eq!(
        ParsingError::UnexpectedEndOfLine(Location(12, 305)).message(),
        "Unexpected end of line: Location(12, 305)"
    );
    assert_eq!(
        ParsingError::ExpectedCloseParen(String::from("EOL"), Location(0, 5)).message(),
        "Expected close parenthesis at 'Location(0, 5)' got EOL"
    );
    assert_eq!(
        ParsingError::MultipleErrors(vec![
            ParsingError::UnexpectedEndOfLine(Location(0, 6)),
            ParsingError::UnexpectedToken(String::from("="), Location(1, 0)),
        ])
        .message(),
        "Unexpected end of line: Location(0, 6)\nUnexpected token '=' at Location(1, 0)\n"
    );
}
