//! Texts of one operator, literals by themselves, and double negation: what
//! each is read as, and what it evaluates to.
use vstd::prelude::*;

use crate::ascii::{CLOSE, MINUS, OPEN};
use crate::ast::{Node, Operator};
use crate::compiler::interpreter::{lemma_wrapped_small, value, wrapped};
use crate::grammar::{
    binary_at, expr_at, is_digit, literal_at, program, sign_at, term_at, unary_at, Mismatch,
    SyntaxError,
};
use crate::theorems::reading::{
    interpretation, is_blank, is_literal, lemma_blank_read, lemma_digits_run, lemma_first_byte,
    lemma_literal_read, lemma_literal_start, lemma_spaces_run, lemma_three_parts,
    lemma_total_of_one, lemma_total_of_two, literal_value,
};
use crate::theorems::spelling::{
    lemma_binary_of_literals, lemma_group_of_spelling, lemma_unary_of_literal,
    lemma_unary_of_spelling, theorem_one_expression_is_read, theorem_two_expressions_are_read,
    Spelling,
};

verus! {

/// The text `a op b` for two literals, with any whitespace around its
/// tokens.
pub open spec fn single_operator_text(
    w0: Seq<u8>,
    a: Seq<u8>,
    w1: Seq<u8>,
    op: Operator,
    w2: Seq<u8>,
    b: Seq<u8>,
    w3: Seq<u8>,
) -> Seq<u8> {
    w0 + a + w1 + seq![op.symbol()] + w2 + b + w3
}

/// What one operator makes of two integers, in unbounded arithmetic.
pub open spec fn applied(op: Operator, x: int, y: int) -> int {
    match op {
        Operator::Plus => x + y,
        Operator::Minus => x - y,
    }
}

/// `a op b` where `a` has no sign: one binary expression.
pub proof fn lemma_single_operator_unsigned(
    w0: Seq<u8>,
    a: Seq<u8>,
    w1: Seq<u8>,
    op: Operator,
    w2: Seq<u8>,
    b: Seq<u8>,
    w3: Seq<u8>,
)
    requires
        is_literal(a),
        a[0] != MINUS,
        is_literal(b),
        is_blank(w0),
        is_blank(w1),
        is_blank(w2),
        is_blank(w3),
    ensures
        program(single_operator_text(w0, a, w1, op, w2, b, w3)) == Ok::<_, Mismatch>(
            seq![
                Node::BinaryExpr {
                    op,
                    lhs: Box::new(Node::Int(literal_value(a) as i32)),
                    rhs: Box::new(Node::Int(literal_value(b) as i32)),
                },
            ],
        ),
{
    let sp = Spelling::Binary {
        lhs: Box::new(Spelling::Literal { token: a }),
        before: w1,
        op,
        after: w2,
        rhs: Box::new(Spelling::Literal { token: b }),
    };
    lemma_binary_of_literals(a, w1, op, w2, b);
    assert(single_operator_text(w0, a, w1, op, w2, b, w3) =~= w0 + sp.text() + w3);
    theorem_one_expression_is_read(w0, sp, w3);
}

/// `a op b` where `a` starts with `-`: two unary expressions, `-|a|` and
/// `op b`. The digits of `a` are the operand of its `-`, so they have to be
/// a literal by themselves: `a` is not the least integer.
#[verifier::rlimit(30)]
pub proof fn lemma_single_operator_signed(
    w0: Seq<u8>,
    a: Seq<u8>,
    w1: Seq<u8>,
    op: Operator,
    w2: Seq<u8>,
    b: Seq<u8>,
    w3: Seq<u8>,
)
    requires
        is_literal(a),
        a[0] == MINUS,
        literal_value(a) > i32::MIN,
        is_literal(b),
        is_blank(w0),
        is_blank(w1),
        is_blank(w2),
        is_blank(w3),
    ensures
        program(single_operator_text(w0, a, w1, op, w2, b, w3)) == Ok::<_, Mismatch>(
            seq![
                Node::UnaryExpr {
                    op: Operator::Minus,
                    child: Box::new(Node::Int(-literal_value(a) as i32)),
                },
                Node::UnaryExpr { op, child: Box::new(Node::Int(literal_value(b) as i32)) },
            ],
        ),
{
    let none = Seq::<u8>::empty();
    let digits = a.skip(1);
    lemma_literal_start(a);
    let first = Spelling::Unary {
        op: Operator::Minus,
        gap: none,
        operand: Box::new(Spelling::Literal { token: digits }),
    };
    let second = Spelling::Unary {
        op,
        gap: w2,
        operand: Box::new(Spelling::Literal { token: b }),
    };
    lemma_unary_of_literal(Operator::Minus, none, digits);
    lemma_unary_of_literal(op, w2, b);
    assert(first.text() =~= a);
    assert(second.text()[0] == op.symbol());
    assert(single_operator_text(w0, a, w1, op, w2, b, w3) =~= w0 + a + w1 + second.text()
        + w3);
    theorem_two_expressions_are_read(w0, first, w1, second, w3);
}

/// `a op b` is a program for all literals `a` above `i32::MIN` and all
/// literals `b`, whatever whitespace stands around its tokens, and it
/// evaluates to the wrapped sum or difference of the two.
///
/// Where `a` has no sign the text is one binary expression
/// (`lemma_single_operator_unsigned`). Where `a` starts with `-` a unary
/// expression is read first, so the text is two expressions
/// (`lemma_single_operator_signed`); their sum is the same integer. For the
/// same reason a text that starts with the least integer is no program
/// (`lemma_least_integer_first`).
pub proof fn theorem_single_operator(
    w0: Seq<u8>,
    a: Seq<u8>,
    w1: Seq<u8>,
    op: Operator,
    w2: Seq<u8>,
    b: Seq<u8>,
    w3: Seq<u8>,
)
    requires
        is_literal(a),
        literal_value(a) > i32::MIN,
        is_literal(b),
        is_blank(w0),
        is_blank(w1),
        is_blank(w2),
        is_blank(w3),
    ensures
        interpretation(single_operator_text(w0, a, w1, op, w2, b, w3)) == Ok::<_, Mismatch>(
            wrapped(applied(op, literal_value(a), literal_value(b))),
        ),
{
    let vb = Node::Int(literal_value(b) as i32);
    lemma_literal_range(a);
    lemma_literal_range(b);
    reveal_with_fuel(value, 2);
    if a[0] == MINUS {
        lemma_single_operator_signed(w0, a, w1, op, w2, b, w3);
        let first = Node::UnaryExpr {
            op: Operator::Minus,
            child: Box::new(Node::Int(-literal_value(a) as i32)),
        };
        let second = Node::UnaryExpr { op, child: Box::new(vb) };
        lemma_total_of_two(first, second);
        assert(value(first) == literal_value(a));
        assert(value(second) == applied(op, 0, literal_value(b)));
    } else {
        lemma_single_operator_unsigned(w0, a, w1, op, w2, b, w3);
        let va = Node::Int(literal_value(a) as i32);
        let tree = Node::BinaryExpr { op, lhs: Box::new(va), rhs: Box::new(vb) };
        lemma_total_of_one(tree);
        assert(value(tree) == applied(op, literal_value(a), literal_value(b)));
    }
}

/// A literal denotes an integer from `i32::MIN` to `i32::MAX`.
pub proof fn lemma_literal_range(t: Seq<u8>)
    requires
        is_literal(t),
    ensures
        i32::MIN <= literal_value(t) <= i32::MAX,
{
    lemma_literal_start(t);
}

/// A literal with a sign, other than the least integer, is a program by
/// itself, whatever whitespace stands around it: the negation of its digits,
/// which evaluates to the integer that the literal denotes.
pub proof fn theorem_signed_literal(w0: Seq<u8>, t: Seq<u8>, w1: Seq<u8>)
    requires
        is_literal(t),
        t[0] == MINUS,
        literal_value(t) > i32::MIN,
        is_blank(w0),
        is_blank(w1),
    ensures
        program(w0 + t + w1) == Ok::<_, Mismatch>(
            seq![
                Node::UnaryExpr {
                    op: Operator::Minus,
                    child: Box::new(Node::Int(-literal_value(t) as i32)),
                },
            ],
        ),
        interpretation(w0 + t + w1) == Ok::<_, Mismatch>(literal_value(t) as i32),
{
    let none = Seq::<u8>::empty();
    let digits = t.skip(1);
    lemma_literal_start(t);
    lemma_literal_range(t);
    let sp = Spelling::Unary {
        op: Operator::Minus,
        gap: none,
        operand: Box::new(Spelling::Literal { token: digits }),
    };
    let tree = Node::UnaryExpr {
        op: Operator::Minus,
        child: Box::new(Node::Int(-literal_value(t) as i32)),
    };
    lemma_unary_of_literal(Operator::Minus, none, digits);
    assert(sp.text() =~= t);
    theorem_one_expression_is_read(w0, sp, w1);
    lemma_total_of_one(tree);
    assert(value(tree) == literal_value(t)) by {
        reveal_with_fuel(value, 2);
    }
    lemma_wrapped_small(literal_value(t));
}

/// A literal without a sign is no program by itself: an expression has an
/// operator, and none follows the literal.
pub proof fn lemma_unsigned_literal_alone(t: Seq<u8>)
    requires
        is_literal(t),
        t[0] != MINUS,
    ensures
        program(t) == Err::<Seq<Node>, _>((t.len() as int, SyntaxError::MissingOperator)),
{
    lemma_literal_start(t);
    assert(t.subrange(0, t.len() as int) == t);
    lemma_literal_read(t, 0, t);
    lemma_spaces_run(t, 0, 0);
    lemma_spaces_run(t, t.len() as int, 0);
    assert(!sign_at(t, 0));
    assert(!sign_at(t, t.len() as int));
    assert(binary_at(t, 0) == Err::<(Node, nat), _>(
        (t.len() as int, SyntaxError::MissingOperator),
    ));
    assert(expr_at(t, 0) == binary_at(t, 0));
}

/// Where the least integer stands at the start of an expression, the `-` is
/// a sign of its own, and the digits behind it denote more than `i32::MAX`.
pub proof fn lemma_least_integer_at(s: Seq<u8>, i: int, t: Seq<u8>)
    requires
        0 <= i,
        i + t.len() <= s.len(),
        s.subrange(i, i + t.len()) == t,
        is_literal(t),
        literal_value(t) == i32::MIN,
        i + t.len() < s.len() ==> !is_digit(s[i + t.len()]),
    ensures
        expr_at(s, i) == Err::<(Node, nat), _>((i + 1, SyntaxError::LiteralTooLarge)),
{
    let digits = t.skip(1);
    lemma_literal_start(t);
    lemma_first_byte(s, i, t);
    assert(s.subrange(i + 1, i + t.len()) =~= digits);
    assert forall|j: int| i + 1 <= j < i + t.len() implies is_digit(#[trigger] s[j]) by {
        assert(s[j] == digits[j - i - 1]);
    }
    lemma_digits_run(s, i + 1, digits.len());
    lemma_spaces_run(s, i + 1, 0);
    assert(sign_at(s, i));
    assert(term_at(s, i + 1) == literal_at(s, i + 1));
    assert(unary_at(s, i) == literal_at(s, i + 1));
    assert(expr_at(s, i) == unary_at(s, i));
}

/// A text that starts with the least integer is no program, whatever
/// follows it.
pub proof fn lemma_least_integer_first(w0: Seq<u8>, t: Seq<u8>, rest: Seq<u8>)
    requires
        is_literal(t),
        literal_value(t) == i32::MIN,
        is_blank(w0),
        rest.len() > 0 ==> !is_digit(rest[0]),
    ensures
        program(w0 + t + rest) == Err::<Seq<Node>, _>(
            (w0.len() as int + 1, SyntaxError::LiteralTooLarge),
        ),
{
    let s = w0 + t + rest;
    let at = w0.len() as int;
    lemma_literal_start(t);
    assert(s.subrange(0, s.len() as int) =~= s);
    lemma_three_parts(s, 0, w0, t, rest);
    lemma_first_byte(s, at, t);
    if rest.len() > 0 {
        lemma_first_byte(s, at + t.len(), rest);
    }
    lemma_blank_read(s, 0, w0);
    lemma_least_integer_at(s, at, t);
}

/// Negating twice gives back what a tree denotes.
pub proof fn lemma_double_negation(tree: Node)
    ensures
        value(
            Node::UnaryExpr {
                op: Operator::Minus,
                child: Box::new(Node::UnaryExpr { op: Operator::Minus, child: Box::new(tree) }),
            },
        ) == value(tree),
{
    reveal_with_fuel(value, 3);
}

/// The text `-(-t)` for a literal `t`, with any whitespace around its
/// tokens.
pub open spec fn double_negation_text(
    w0: Seq<u8>,
    w1: Seq<u8>,
    w2: Seq<u8>,
    w3: Seq<u8>,
    t: Seq<u8>,
    w4: Seq<u8>,
    w5: Seq<u8>,
) -> Seq<u8> {
    w0 + seq![MINUS] + w1 + seq![OPEN] + w2 + seq![MINUS] + w3 + t + w4 + seq![CLOSE] + w5
}

/// `-(-t)` is a program for every literal `t`, whatever whitespace stands
/// around its tokens: the negation of the negation of `t`, which evaluates
/// to the integer that `t` denotes.
pub proof fn theorem_double_negation(
    w0: Seq<u8>,
    w1: Seq<u8>,
    w2: Seq<u8>,
    w3: Seq<u8>,
    t: Seq<u8>,
    w4: Seq<u8>,
    w5: Seq<u8>,
)
    requires
        is_literal(t),
        is_blank(w0),
        is_blank(w1),
        is_blank(w2),
        is_blank(w3),
        is_blank(w4),
        is_blank(w5),
    ensures
        program(double_negation_text(w0, w1, w2, w3, t, w4, w5)) == Ok::<_, Mismatch>(
            seq![
                Node::UnaryExpr {
                    op: Operator::Minus,
                    child: Box::new(
                        Node::UnaryExpr {
                            op: Operator::Minus,
                            child: Box::new(Node::Int(literal_value(t) as i32)),
                        },
                    ),
                },
            ],
        ),
        interpretation(double_negation_text(w0, w1, w2, w3, t, w4, w5)) == Ok::<_, Mismatch>(
            literal_value(t) as i32,
        ),
{
    let leaf = Node::Int(literal_value(t) as i32);
    let inner = Node::UnaryExpr { op: Operator::Minus, child: Box::new(leaf) };
    let outer = Node::UnaryExpr { op: Operator::Minus, child: Box::new(inner) };
    let negation = Spelling::Unary {
        op: Operator::Minus,
        gap: w3,
        operand: Box::new(Spelling::Literal { token: t }),
    };
    let group = Spelling::Group { before: w2, inner: Box::new(negation), after: w4 };
    let sp = Spelling::Unary { op: Operator::Minus, gap: w1, operand: Box::new(group) };
    lemma_unary_of_literal(Operator::Minus, w3, t);
    lemma_group_of_spelling(w2, negation, w4);
    lemma_unary_of_spelling(Operator::Minus, w1, group);
    assert(double_negation_text(w0, w1, w2, w3, t, w4, w5) =~= w0 + sp.text() + w5);
    theorem_one_expression_is_read(w0, sp, w5);
    lemma_literal_range(t);
    lemma_total_of_one(outer);
    lemma_double_negation(leaf);
    lemma_wrapped_small(literal_value(t));
}

} // verus!
