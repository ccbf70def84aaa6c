use calc_language::parser::{parse, parse_bytes};
use calc_language::{Eval, Node, Operator, ParseError, SyntaxError};

fn leaf(n: i32) -> Box<Node> {
    Box::new(Node::Int(n))
}

fn unary(op: Operator, child: Node) -> Node {
    Node::UnaryExpr { op, child: Box::new(child) }
}

fn binary(op: Operator, lhs: Node, rhs: Node) -> Node {
    Node::BinaryExpr { op, lhs: Box::new(lhs), rhs: Box::new(rhs) }
}

fn error(position: usize, kind: SyntaxError, found: Option<u8>) -> Result<Vec<Node>, ParseError> {
    Err(ParseError { position, kind, found })
}

#[test]
fn empty_text_is_the_empty_program() {
    assert_eq!(parse(""), Ok(vec![]));
    assert_eq!(parse("   "), Ok(vec![]));
    assert_eq!(parse("\t\n\r "), Ok(vec![]));
}

#[test]
fn binary_expression() {
    assert_eq!(
        parse("1 + 2"),
        Ok(vec![Node::BinaryExpr { op: Operator::Plus, lhs: leaf(1), rhs: leaf(2) }])
    );
    assert_eq!(
        parse("12-345"),
        Ok(vec![Node::BinaryExpr { op: Operator::Minus, lhs: leaf(12), rhs: leaf(345) }])
    );
}

#[test]
fn unary_expression() {
    assert_eq!(parse("+7"), Ok(vec![unary(Operator::Plus, Node::Int(7))]));
    assert_eq!(parse("- 7"), Ok(vec![unary(Operator::Minus, Node::Int(7))]));
    assert_eq!(parse("-7"), Ok(vec![unary(Operator::Minus, Node::Int(7))]));
}

#[test]
fn leading_minus_is_folded_into_a_literal() {
    assert_eq!(
        parse("1 - -2"),
        Ok(vec![binary(Operator::Minus, Node::Int(1), Node::Int(-2))])
    );
    assert_eq!(parse("--2"), Ok(vec![unary(Operator::Minus, Node::Int(-2))]));
    assert_eq!(parse("+-2"), Ok(vec![unary(Operator::Plus, Node::Int(-2))]));
    assert_eq!(
        parse("1 + (-3)"),
        Ok(vec![binary(Operator::Plus, Node::Int(1), unary(Operator::Minus, Node::Int(3)))])
    );
    assert_eq!(parse("(-3 + 1)"), error(4, SyntaxError::MissingClosingParen, Some(b'+')));
}

#[test]
fn unary_expression_is_tried_first() {
    // A sign at the start of an expression always opens a unary expression.
    assert_eq!(
        parse("-1 + 2"),
        Ok(vec![unary(Operator::Minus, Node::Int(1)), unary(Operator::Plus, Node::Int(2))])
    );
}

#[test]
fn parentheses_nest() {
    assert_eq!(
        parse("(2 + 3) - 1"),
        Ok(vec![binary(
            Operator::Minus,
            binary(Operator::Plus, Node::Int(2), Node::Int(3)),
            Node::Int(1)
        )])
    );
    assert_eq!(
        parse("2 + (2 - 1)"),
        Ok(vec![binary(
            Operator::Plus,
            Node::Int(2),
            binary(Operator::Minus, Node::Int(2), Node::Int(1))
        )])
    );
    assert_eq!(
        parse("-(- 5)"),
        Ok(vec![unary(Operator::Minus, unary(Operator::Minus, Node::Int(5)))])
    );
    assert_eq!(
        parse(" ( +1 ) - ( 2+3 ) "),
        Ok(vec![binary(
            Operator::Minus,
            unary(Operator::Plus, Node::Int(1)),
            binary(Operator::Plus, Node::Int(2), Node::Int(3))
        )])
    );
}

#[test]
fn a_program_is_a_sequence_of_expressions() {
    assert_eq!(
        parse("1 + 2 3 - 4"),
        Ok(vec![
            binary(Operator::Plus, Node::Int(1), Node::Int(2)),
            binary(Operator::Minus, Node::Int(3), Node::Int(4)),
        ])
    );
    assert_eq!(
        parse("1+2+3-4"),
        Ok(vec![
            binary(Operator::Plus, Node::Int(1), Node::Int(2)),
            unary(Operator::Plus, Node::Int(3)),
            unary(Operator::Minus, Node::Int(4)),
        ])
    );
}

#[test]
fn a_parenthesized_expression_is_a_term() {
    // By itself it is no expression: an operator has to follow or precede it.
    assert_eq!(parse("(1 + 2)"), error(7, SyntaxError::MissingOperator, None));
    assert_eq!(parse("(1 + 2)(3 - 4)"), error(7, SyntaxError::MissingOperator, Some(b'(')));
    assert_eq!(
        parse("+(1 + 2)"),
        Ok(vec![unary(Operator::Plus, binary(Operator::Plus, Node::Int(1), Node::Int(2)))])
    );
}

#[test]
fn a_binary_expression_has_one_operator() {
    // No chain is one expression: what follows the second operand starts the
    // next top-level expression.
    assert_eq!(
        parse("1 + 2 + 3"),
        Ok(vec![
            binary(Operator::Plus, Node::Int(1), Node::Int(2)),
            unary(Operator::Plus, Node::Int(3)),
        ])
    );
    assert_eq!(parse("(1 + 2 + 3)"), error(7, SyntaxError::MissingClosingParen, Some(b'+')));
}

#[test]
fn whitespace_between_tokens_is_skipped() {
    let plain = parse("(1+2)-3");
    assert!(plain.is_ok());
    assert_eq!(parse("  ( 1 + 2 ) - 3  "), plain);
    assert_eq!(parse("\t(\n1\r\n+\t2)\n-\n3\n"), plain);
}

#[test]
fn no_whitespace_inside_a_literal() {
    assert_eq!(
        parse("1 2 + 3"),
        error(2, SyntaxError::MissingOperator, Some(b'2'))
    );
    assert_eq!(parse("1 + - 2"), error(5, SyntaxError::MissingDigit, Some(b' ')));
}

#[test]
fn leading_zeros() {
    assert_eq!(
        parse("007 + 000"),
        Ok(vec![binary(Operator::Plus, Node::Int(7), Node::Int(0))])
    );
    assert_eq!(
        parse("+00000000000000000002147483647"),
        Ok(vec![unary(Operator::Plus, Node::Int(2147483647))])
    );
}

#[test]
fn literal_range() {
    assert_eq!(
        parse("2147483647 - -2147483647"),
        Ok(vec![binary(Operator::Minus, Node::Int(i32::MAX), Node::Int(-i32::MAX))])
    );
    assert_eq!(parse("2147483648 + 1"), error(0, SyntaxError::LiteralTooLarge, Some(b'2')));
    assert_eq!(parse("1 + 2147483648"), error(4, SyntaxError::LiteralTooLarge, Some(b'2')));
    assert_eq!(
        parse("1 - -2147483648"),
        Ok(vec![binary(Operator::Minus, Node::Int(1), Node::Int(i32::MIN))])
    );
    assert_eq!(parse("1 - -2147483649"), error(4, SyntaxError::LiteralTooLarge, Some(b'-')));
    assert_eq!(parse("+99999999999999999999"), error(1, SyntaxError::LiteralTooLarge, Some(b'9')));
    assert_eq!(parse("1 + -99999999999999999999"), error(4, SyntaxError::LiteralTooLarge, Some(b'-')));
}

#[test]
fn the_least_integer_is_a_literal() {
    assert_eq!(
        parse("0 + -2147483648"),
        Ok(vec![binary(Operator::Plus, Node::Int(0), Node::Int(i32::MIN))])
    );
    assert_eq!(
        parse("--2147483648"),
        Ok(vec![unary(Operator::Minus, Node::Int(i32::MIN))])
    );
    assert_eq!(
        parse("+ -0002147483648"),
        Ok(vec![unary(Operator::Plus, Node::Int(i32::MIN))])
    );
    assert_eq!(
        parse("1 + (-2147483648 - -2147483648)"),
        error(6, SyntaxError::LiteralTooLarge, Some(b'2'))
    );
    assert_eq!(
        parse("1 + (0 - -2147483648)"),
        Ok(vec![binary(
            Operator::Plus,
            Node::Int(1),
            binary(Operator::Minus, Node::Int(0), Node::Int(i32::MIN))
        )])
    );
}

#[test]
fn a_sign_at_the_start_of_an_expression_is_no_part_of_a_literal() {
    // The `-` opens a unary expression, and its operand is the digits alone.
    assert_eq!(parse("-2147483648"), error(1, SyntaxError::LiteralTooLarge, Some(b'2')));
    assert_eq!(parse("-2147483648 + 1"), error(1, SyntaxError::LiteralTooLarge, Some(b'2')));
    assert_eq!(parse("  -2147483648"), error(3, SyntaxError::LiteralTooLarge, Some(b'2')));
    assert_eq!(parse("-2147483647"), Ok(vec![unary(Operator::Minus, Node::Int(2147483647))]));
}

#[test]
fn missing_term() {
    assert_eq!(parse("1 +"), error(3, SyntaxError::MissingTerm, None));
    assert_eq!(parse("1 + + 2"), error(4, SyntaxError::MissingTerm, Some(b'+')));
    assert_eq!(parse("+"), error(1, SyntaxError::MissingTerm, None));
    assert_eq!(parse(")"), error(0, SyntaxError::MissingTerm, Some(b')')));
    assert_eq!(parse("()"), error(1, SyntaxError::MissingTerm, Some(b')')));
    assert_eq!(parse("1 + x"), error(4, SyntaxError::MissingTerm, Some(b'x')));
    assert_eq!(parse("1 * 2"), error(2, SyntaxError::MissingOperator, Some(b'*')));
}

#[test]
fn missing_digit() {
    assert_eq!(parse("- - 1"), error(3, SyntaxError::MissingDigit, Some(b' ')));
    assert_eq!(parse("1 - -"), error(5, SyntaxError::MissingDigit, None));
    assert_eq!(parse("1 - -(2)"), error(5, SyntaxError::MissingDigit, Some(b'(')));
}

#[test]
fn missing_operator() {
    assert_eq!(parse("1"), error(1, SyntaxError::MissingOperator, None));
    assert_eq!(parse("42  "), error(4, SyntaxError::MissingOperator, None));
    assert_eq!(parse("(1)"), error(2, SyntaxError::MissingOperator, Some(b')')));
    assert_eq!(parse("(1 + 2) 3"), error(8, SyntaxError::MissingOperator, Some(b'3')));
}

#[test]
fn missing_closing_paren() {
    assert_eq!(parse("(1 + 2"), error(6, SyntaxError::MissingClosingParen, None));
    assert_eq!(parse("(1 + 2 3"), error(7, SyntaxError::MissingClosingParen, Some(b'3')));
    assert_eq!(parse("-(1 + 2"), error(7, SyntaxError::MissingClosingParen, None));
    assert_eq!(parse("((1 + 2) - 3"), error(12, SyntaxError::MissingClosingParen, None));
}

#[test]
fn trailing_garbage() {
    assert_eq!(parse("1 + 2 )"), error(6, SyntaxError::MissingTerm, Some(b')')));
    assert_eq!(parse("1 + 2;"), error(5, SyntaxError::MissingTerm, Some(b';')));
    assert_eq!(parse("1 + 2 abc"), error(6, SyntaxError::MissingTerm, Some(b'a')));
}

#[test]
fn no_partial_result() {
    // The first expression is fine; the error of the second is all that is
    // returned.
    assert_eq!(parse("1 + 2 (3"), error(8, SyntaxError::MissingOperator, None));
}

#[test]
fn text_outside_ascii_is_rejected() {
    assert_eq!(parse("1 + é"), error(4, SyntaxError::MissingTerm, Some(0xc3)));
    assert_eq!(parse("１ + 2"), error(0, SyntaxError::MissingTerm, Some(0xef)));
    assert_eq!(parse("1\u{a0}+ 2"), error(1, SyntaxError::MissingOperator, Some(0xc2)));
}

#[test]
fn other_whitespace_is_no_separator() {
    assert_eq!(parse("1\u{b}+ 2"), error(1, SyntaxError::MissingOperator, Some(0x0b)));
    assert_eq!(parse("1\u{c}+ 2"), error(1, SyntaxError::MissingOperator, Some(0x0c)));
}

#[test]
fn parse_bytes_reads_what_parse_reads() {
    assert_eq!(parse_bytes(b"(2 + 3) - 1"), parse("(2 + 3) - 1"));
    assert_eq!(parse_bytes(b"1 +"), parse("1 +"));
    assert_eq!(parse_bytes(&[0xff]), error(0, SyntaxError::MissingTerm, Some(0xff)));
}

#[test]
fn parsing_twice_gives_equal_trees() {
    for text in ["1 + 2", "-(- 5)", "1 + ((2 + 3) - (2 + 3))", "1 + 2 3 - 4", "", "1 +", "(1 + 2"] {
        assert_eq!(parse(text), parse(text));
    }
}

#[test]
fn trees_compare_by_structure() {
    let a = binary(Operator::Plus, Node::Int(1), unary(Operator::Minus, Node::Int(2)));
    let b = binary(Operator::Plus, Node::Int(1), unary(Operator::Minus, Node::Int(2)));
    assert_eq!(a, b);
    assert_eq!(a.clone(), a);
    assert_ne!(a, binary(Operator::Minus, Node::Int(1), unary(Operator::Minus, Node::Int(2))));
    assert_ne!(a, binary(Operator::Plus, Node::Int(1), unary(Operator::Plus, Node::Int(2))));
    assert_ne!(a, binary(Operator::Plus, Node::Int(1), unary(Operator::Minus, Node::Int(3))));
    assert_ne!(a, binary(Operator::Plus, unary(Operator::Minus, Node::Int(2)), Node::Int(1)));
    assert_ne!(Node::Int(1), unary(Operator::Plus, Node::Int(1)));
}

#[test]
fn deep_nesting() {
    let mut text = String::new();
    for _ in 0..200 {
        text.push_str("1 + (");
    }
    text.push_str("1 + 1");
    for _ in 0..200 {
        text.push(')');
    }
    let trees = parse(&text).unwrap();
    assert_eq!(trees.len(), 1);
    assert_eq!(Eval::new().eval(&trees[0]), 202);
}
