use calc_language::parser::parse;
use calc_language::{Compile, Eval, Interpreter, Node, Operator, ParseError, SyntaxError};

fn leaf(n: i32) -> Box<Node> {
    Box::new(Node::Int(n))
}

#[test]
fn operators_as_text() {
    assert_eq!(Operator::Plus.to_string(), "+");
    assert_eq!(Operator::Minus.to_string(), "-");
}

#[test]
fn literals_as_text() {
    assert_eq!(Node::Int(0).to_string(), "0");
    assert_eq!(Node::Int(7).to_string(), "7");
    assert_eq!(Node::Int(10).to_string(), "10");
    assert_eq!(Node::Int(-10).to_string(), "-10");
    assert_eq!(Node::Int(1234567890).to_string(), "1234567890");
    assert_eq!(Node::Int(i32::MAX).to_string(), "2147483647");
    assert_eq!(Node::Int(i32::MIN).to_string(), "-2147483648");
}

#[test]
fn unary_as_text() {
    assert_eq!(Node::UnaryExpr { op: Operator::Minus, child: leaf(5) }.to_string(), "-5");
    assert_eq!(Node::UnaryExpr { op: Operator::Plus, child: leaf(5) }.to_string(), "+5");
    assert_eq!(Node::UnaryExpr { op: Operator::Minus, child: leaf(-5) }.to_string(), "--5");
}

#[test]
fn binary_as_text() {
    assert_eq!(
        Node::BinaryExpr { op: Operator::Plus, lhs: leaf(1), rhs: leaf(2) }.to_string(),
        "1 + 2"
    );
    assert_eq!(
        Node::BinaryExpr { op: Operator::Minus, lhs: leaf(-1), rhs: leaf(-2) }.to_string(),
        "-1 - -2"
    );
}

#[test]
fn nested_as_text_has_no_parentheses() {
    let inner = Node::BinaryExpr { op: Operator::Minus, lhs: leaf(2), rhs: leaf(1) };
    let tree = Node::BinaryExpr { op: Operator::Plus, lhs: leaf(2), rhs: Box::new(inner) };
    assert_eq!(tree.to_string(), "2 + 2 - 1");
    let negated = Node::UnaryExpr { op: Operator::Minus, child: Box::new(tree) };
    assert_eq!(negated.to_string(), "-2 + 2 - 1");
}

#[test]
fn rendering_of_parsed_single_operator_parses_to_the_same_tree() {
    for text in ["1 + 2", "7 - 5", "3+-4", "0 - 0", "-5", "+5", "--5", "2147483647 - -2147483647"] {
        let trees = parse(text).unwrap();
        assert_eq!(trees.len(), 1);
        let again = parse(&trees[0].to_string()).unwrap();
        assert_eq!(again, trees);
    }
}

#[test]
fn rendering_round_trip_keeps_the_value() {
    let evaluator = Eval::new();
    let operands = [0, 1, -1, 9, 10, -10, 123456, i32::MAX, -i32::MAX, i32::MIN];
    for op in [Operator::Plus, Operator::Minus] {
        for a in operands {
            let unary = Node::UnaryExpr { op, child: leaf(a) };
            assert_eq!(Interpreter::from_source(&unary.to_string()), Ok(evaluator.eval(&unary)));
            assert_eq!(parse(&unary.to_string()), Ok(vec![unary]));
            if a == i32::MIN {
                continue;
            }
            for b in operands {
                let tree = Node::BinaryExpr { op, lhs: leaf(a), rhs: leaf(b) };
                assert_eq!(Interpreter::from_source(&tree.to_string()), Ok(evaluator.eval(&tree)));
                if a >= 0 {
                    assert_eq!(parse(&tree.to_string()), Ok(vec![tree]));
                }
            }
        }
    }
}

#[test]
fn rendering_of_a_negative_left_operand_is_read_as_two_expressions() {
    let tree = Node::BinaryExpr { op: Operator::Plus, lhs: leaf(-1), rhs: leaf(2) };
    assert_eq!(
        parse(&tree.to_string()),
        Ok(vec![
            Node::UnaryExpr { op: Operator::Minus, child: leaf(1) },
            Node::UnaryExpr { op: Operator::Plus, child: leaf(2) },
        ])
    );
}

#[test]
fn rendering_of_the_least_integer_is_a_literal() {
    let tree = Node::UnaryExpr { op: Operator::Plus, child: leaf(i32::MIN) };
    assert_eq!(tree.to_string(), "+-2147483648");
    assert_eq!(parse(&tree.to_string()), Ok(vec![tree]));
    let right = Node::BinaryExpr { op: Operator::Minus, lhs: leaf(1), rhs: leaf(i32::MIN) };
    assert_eq!(right.to_string(), "1 - -2147483648");
    assert_eq!(parse(&right.to_string()), Ok(vec![right]));
}

#[test]
fn rendering_of_the_least_integer_as_left_operand_is_no_program() {
    let tree = Node::BinaryExpr { op: Operator::Plus, lhs: leaf(i32::MIN), rhs: leaf(1) };
    assert_eq!(tree.to_string(), "-2147483648 + 1");
    assert_eq!(
        parse(&tree.to_string()),
        Err(ParseError { position: 1, kind: SyntaxError::LiteralTooLarge, found: Some(b'2') })
    );
}

#[test]
fn error_messages() {
    assert_eq!(parse("1 +").unwrap_err().to_string(), "expected an integer or '(' at byte 3");
    assert_eq!(parse("1 - -").unwrap_err().to_string(), "expected a digit after '-' at byte 5");
    assert_eq!(parse("1").unwrap_err().to_string(), "expected '+' or '-' at byte 1");
    assert_eq!(parse("(1 + 2").unwrap_err().to_string(), "expected ')' at byte 6");
    assert_eq!(
        parse("          1 + 2147483648").unwrap_err().to_string(),
        "integer literal does not fit in 32 bits at byte 14"
    );
    assert_eq!(SyntaxError::MissingOperator.describe(), "expected '+' or '-'");
}
