use calc_language::{Compile, Eval, Interpreter, Node, Operator, ParseError, SyntaxError};

fn leaf(n: i32) -> Box<Node> {
    Box::new(Node::Int(n))
}

#[test]
fn basics() {
    assert_eq!(Interpreter::from_source("1 + 2").unwrap(), 3);
    assert_eq!(Interpreter::from_source("2 + (2 - 1)").unwrap() as i32, 3);
    assert_eq!(Interpreter::from_source("(2 + 3) - 1").unwrap() as i32, 4);
    assert_eq!(
        Interpreter::from_source("1 + ((2 + 3) - (2 + 3))").unwrap() as i32,
        1
    );
}

#[test]
fn eval_literal_is_its_value() {
    let evaluator = Eval::new();
    assert_eq!(evaluator.eval(&Node::Int(0)), 0);
    assert_eq!(evaluator.eval(&Node::Int(42)), 42);
    assert_eq!(evaluator.eval(&Node::Int(-7)), -7);
    assert_eq!(evaluator.eval(&Node::Int(i32::MAX)), i32::MAX);
    assert_eq!(evaluator.eval(&Node::Int(i32::MIN)), i32::MIN);
}

#[test]
fn eval_unary() {
    let evaluator = Eval::new();
    let plus = Node::UnaryExpr { op: Operator::Plus, child: leaf(5) };
    let minus = Node::UnaryExpr { op: Operator::Minus, child: leaf(5) };
    assert_eq!(evaluator.eval(&plus), 5);
    assert_eq!(evaluator.eval(&minus), -5);
}

#[test]
fn eval_binary_keeps_operand_order() {
    let evaluator = Eval::new();
    let sum = Node::BinaryExpr { op: Operator::Plus, lhs: leaf(2), rhs: leaf(9) };
    let left = Node::BinaryExpr { op: Operator::Minus, lhs: leaf(2), rhs: leaf(9) };
    let right = Node::BinaryExpr { op: Operator::Minus, lhs: leaf(9), rhs: leaf(2) };
    assert_eq!(evaluator.eval(&sum), 11);
    assert_eq!(evaluator.eval(&left), -7);
    assert_eq!(evaluator.eval(&right), 7);
}

#[test]
fn eval_nested() {
    let evaluator = Eval::new();
    let inner = Node::BinaryExpr { op: Operator::Minus, lhs: leaf(10), rhs: leaf(4) };
    let negated = Node::UnaryExpr { op: Operator::Minus, child: Box::new(inner) };
    let tree = Node::BinaryExpr { op: Operator::Plus, lhs: leaf(1), rhs: Box::new(negated) };
    assert_eq!(evaluator.eval(&tree), -5);
}

#[test]
fn eval_wraps_on_overflow() {
    let evaluator = Eval::new();
    let over = Node::BinaryExpr { op: Operator::Plus, lhs: leaf(i32::MAX), rhs: leaf(1) };
    let under = Node::BinaryExpr { op: Operator::Minus, lhs: leaf(i32::MIN), rhs: leaf(1) };
    let negated = Node::UnaryExpr { op: Operator::Minus, child: leaf(i32::MIN) };
    assert_eq!(evaluator.eval(&over), i32::MIN);
    assert_eq!(evaluator.eval(&under), i32::MAX);
    assert_eq!(evaluator.eval(&negated), i32::MIN);
}

#[test]
fn eval_wraps_the_true_value_not_each_step() {
    // (MAX + 1) - 1 is MAX in unbounded arithmetic, and stays MAX.
    let evaluator = Eval::new();
    let over = Node::BinaryExpr { op: Operator::Plus, lhs: leaf(i32::MAX), rhs: leaf(1) };
    let back = Node::BinaryExpr { op: Operator::Minus, lhs: Box::new(over), rhs: leaf(1) };
    assert_eq!(evaluator.eval(&back), i32::MAX);
}

#[test]
fn from_ast_sums_the_trees() {
    assert_eq!(Interpreter::from_ast(vec![]), 0);
    assert_eq!(Interpreter::from_ast(vec![Node::Int(4)]), 4);
    let trees = vec![
        Node::Int(4),
        Node::UnaryExpr { op: Operator::Minus, child: leaf(10) },
        Node::BinaryExpr { op: Operator::Plus, lhs: leaf(1), rhs: leaf(2) },
    ];
    assert_eq!(Interpreter::from_ast(trees), -3);
}

#[test]
fn from_ast_wraps_the_sum() {
    let trees = vec![Node::Int(i32::MAX), Node::Int(i32::MAX), Node::Int(2)];
    assert_eq!(Interpreter::from_ast(trees), 0);
}

#[test]
fn from_source_of_an_empty_text_is_zero() {
    assert_eq!(Interpreter::from_source(""), Ok(0));
    assert_eq!(Interpreter::from_source(" \t\r\n"), Ok(0));
}

#[test]
fn from_source_sums_top_level_expressions() {
    assert_eq!(Interpreter::from_source("1 + 2 3 - 10 -4"), Ok(-8));
    assert_eq!(Interpreter::from_source("1 - 2 - 3"), Ok(-4));
    assert_eq!(Interpreter::from_source("1 + 2\n3 + 4\n"), Ok(10));
}

#[test]
fn from_source_single_operator() {
    assert_eq!(Interpreter::from_source("7 + 5"), Ok(12));
    assert_eq!(Interpreter::from_source("7 - 5"), Ok(2));
    assert_eq!(Interpreter::from_source("5 - 7"), Ok(-2));
    assert_eq!(Interpreter::from_source("7 + -5"), Ok(2));
    assert_eq!(Interpreter::from_source("7 - -5"), Ok(12));
    assert_eq!(Interpreter::from_source("-7 + 5"), Ok(-2));
    assert_eq!(Interpreter::from_source("-7 - 5"), Ok(-12));
    assert_eq!(Interpreter::from_source("-7 - -5"), Ok(-2));
    assert_eq!(Interpreter::from_source("7+5"), Ok(12));
    assert_eq!(Interpreter::from_source("7-5"), Ok(2));
    assert_eq!(Interpreter::from_source("007 \t+\n 05"), Ok(12));
}

#[test]
fn from_source_single_operator_wraps() {
    assert_eq!(Interpreter::from_source("2147483647 + 1"), Ok(i32::MIN));
    assert_eq!(Interpreter::from_source("-2147483647 - 2"), Ok(i32::MAX));
}

#[test]
fn from_source_least_integer() {
    assert_eq!(Interpreter::from_source("0 + -2147483648"), Ok(i32::MIN));
    assert_eq!(Interpreter::from_source("+-2147483648"), Ok(i32::MIN));
    assert_eq!(Interpreter::from_source("--2147483648"), Ok(i32::MIN));
    assert_eq!(Interpreter::from_source("1 - -2147483648"), Ok(-2147483647));
    assert_eq!(Interpreter::from_source("-(- -2147483648)"), Ok(i32::MIN));
    assert_eq!(
        Interpreter::from_source("-2147483648 + 1"),
        Err(ParseError { position: 1, kind: SyntaxError::LiteralTooLarge, found: Some(b'2') })
    );
}

#[test]
fn from_source_signed_literal_alone() {
    assert_eq!(Interpreter::from_source("-5"), Ok(-5));
    assert_eq!(Interpreter::from_source("-0"), Ok(0));
    assert_eq!(Interpreter::from_source("-2147483647"), Ok(-2147483647));
}

#[test]
fn from_source_double_negation() {
    assert_eq!(Interpreter::from_source("-(- 5)"), Ok(5));
    assert_eq!(Interpreter::from_source("-(- -5)"), Ok(-5));
    assert_eq!(Interpreter::from_source("-(-0)"), Ok(0));
    assert_eq!(Interpreter::from_source("- ( - 2147483647 )"), Ok(2147483647));
}

#[test]
fn from_source_nesting() {
    assert_eq!(Interpreter::from_source("(2 + 3) - 1"), Ok(4));
    assert_eq!(Interpreter::from_source("2 + (2 - 1)"), Ok(3));
    assert_eq!(Interpreter::from_source("1 + ((2 + 3) - (2 + 3))"), Ok(1));
    assert_eq!(Interpreter::from_source("(10 - 4) - (3 - 1)"), Ok(4));
    assert_eq!(Interpreter::from_source("10 - (4 - (3 - 1))"), Ok(8));
}

#[test]
fn from_source_hands_the_parse_error_on() {
    assert_eq!(
        Interpreter::from_source("1 +"),
        Err(ParseError { position: 3, kind: SyntaxError::MissingTerm, found: None })
    );
    assert_eq!(
        Interpreter::from_source("(1 + 2"),
        Err(ParseError { position: 6, kind: SyntaxError::MissingClosingParen, found: None })
    );
    assert_eq!(
        Interpreter::from_source("1 + + 2"),
        Err(ParseError { position: 4, kind: SyntaxError::MissingTerm, found: Some(b'+') })
    );
}

#[test]
fn whitespace_around_a_program_changes_nothing() {
    assert_eq!(Interpreter::from_source(" 1 + 2\n"), Ok(3));
    assert_eq!(Interpreter::from_source("\t-7 - 5  "), Ok(-12));
    assert_eq!(Interpreter::from_source("  -5\r\n"), Ok(-5));
    assert_eq!(Interpreter::from_source("\n - ( - 5 ) \n"), Ok(5));
    assert_eq!(Interpreter::from_source(" 1 + ((2 + 3) - (2 + 3)) "), Ok(1));
}

#[test]
fn unsigned_literal_alone_is_no_program() {
    assert_eq!(
        Interpreter::from_source("5"),
        Err(ParseError { position: 1, kind: SyntaxError::MissingOperator, found: None })
    );
    assert_eq!(
        Interpreter::from_source("2147483647"),
        Err(ParseError { position: 10, kind: SyntaxError::MissingOperator, found: None })
    );
}

#[test]
fn only_digits_that_touch_are_one_literal() {
    // `+1` and `2 - 3` are two expressions. Without the blank the digits are
    // one literal, and the text is `+12` and `-3`. After a parenthesis no blank
    // is needed.
    assert_eq!(Interpreter::from_source("+1 2 - 3"), Ok(0));
    assert_eq!(Interpreter::from_source("+12 - 3"), Ok(9));
    assert_eq!(Interpreter::from_source("+(1 + 0)2 - 3"), Ok(0));
}
