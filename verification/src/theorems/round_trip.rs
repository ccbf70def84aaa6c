//! From trees to text and back.
use vstd::prelude::*;

use crate::ascii::{BLANK, CLOSE, MINUS, OPEN};
use crate::ast::{decimal_digits, integer_text, lemma_decimal_digits_are_digits, Node, Operator};
use crate::compiler::interpreter::{value, wrapped};
use crate::grammar::{decimal, is_digit, is_expression, is_term, program, Mismatch};
use crate::theorems::expressions::{
    applied, lemma_single_operator_unsigned, single_operator_text, theorem_single_operator,
};
use crate::theorems::reading::{
    interpretation, is_blank, is_literal, lemma_literal_start, lemma_total_of_one,
    literal_digits, literal_value,
};
use crate::theorems::spelling::{lemma_unary_of_literal, theorem_one_expression_is_read, Spelling};

verus! {

/// The decimal digits of a number denote the number.
pub proof fn lemma_decimal_of_digits(n: nat)
    ensures
        decimal(decimal_digits(n)) == n,
    decreases n,
{
    let d = decimal_digits(n);
    if n < 10 {
        assert(d.drop_last() =~= Seq::<u8>::empty());
        assert(decimal(d.drop_last()) == 0);
    } else {
        lemma_decimal_of_digits(n / 10);
        assert(d.drop_last() =~= decimal_digits(n / 10));
    }
}

/// Every 32-bit integer is rendered as a literal of the grammar that
/// denotes it.
pub proof fn lemma_integer_text_is_literal(n: int)
    requires
        i32::MIN <= n <= i32::MAX,
    ensures
        is_literal(integer_text(n)),
        literal_value(integer_text(n)) == n,
{
    let t = integer_text(n);
    let m: nat = if n < 0 { (-n) as nat } else { n as nat };
    let d = decimal_digits(m);
    lemma_decimal_digits_are_digits(m);
    lemma_decimal_of_digits(m);
    assert(is_digit(d[0]));
    if n < 0 {
        assert(t[0] == MINUS);
        assert(t.skip(1) =~= d);
    } else {
        assert(t == d);
    }
    assert(literal_digits(t) == d);
}

/// A tree of one operator over literals whose rendering is a program: the
/// left operand of a binary expression is not `i32::MIN`. Rendered at the
/// start of an expression, the least integer is a sign and digits that
/// denote too much (`lemma_least_integer_first`).
pub open spec fn is_single_operator(tree: Node) -> bool {
    match tree {
        Node::Int(_) => false,
        Node::UnaryExpr { op, child } => *child is Int,
        Node::BinaryExpr { op, lhs, rhs } => {
            &&& *lhs matches Node::Int(a) && a > i32::MIN
            &&& *rhs is Int
        },
    }
}

/// Whether a tree is a binary expression whose left operand is negative.
pub open spec fn has_negative_left(tree: Node) -> bool {
    tree matches Node::BinaryExpr { lhs, .. } && *lhs matches Node::Int(a) && a < 0
}

/// How a tree of one operator is rendered, and what it denotes.
pub proof fn lemma_single_operator_rendered(tree: Node)
    requires
        is_single_operator(tree),
    ensures
        match tree {
            Node::Int(_) => true,
            Node::UnaryExpr { op, child } => tree.rendered() == seq![op.symbol()] + integer_text(
                child->Int_0 as int,
            ),
            Node::BinaryExpr { op, lhs, rhs } => tree.rendered() == single_operator_text(
                Seq::empty(),
                integer_text(lhs->Int_0 as int),
                seq![BLANK],
                op,
                seq![BLANK],
                integer_text(rhs->Int_0 as int),
                Seq::empty(),
            ) && value(tree) == applied(op, lhs->Int_0 as int, rhs->Int_0 as int),
        },
{
    reveal_with_fuel(Node::rendered, 2);
    reveal_with_fuel(value, 2);
    match tree {
        Node::Int(_) => {},
        Node::UnaryExpr { op, child } => {},
        Node::BinaryExpr { op, lhs, rhs } => {
            let ta = integer_text(lhs->Int_0 as int);
            let tb = integer_text(rhs->Int_0 as int);
            assert(ta + seq![BLANK, op.symbol(), BLANK] + tb =~= single_operator_text(
                Seq::empty(),
                ta,
                seq![BLANK],
                op,
                seq![BLANK],
                tb,
                Seq::empty(),
            ));
        },
    }
}

/// A sign directly before the rendering of an integer is read back as the
/// unary expression.
pub proof fn lemma_unary_round_trip(op: Operator, n: i32)
    ensures
        program(seq![op.symbol()] + integer_text(n as int)) == Ok::<_, Mismatch>(
            seq![Node::UnaryExpr { op, child: Box::new(Node::Int(n)) }],
        ),
{
    let none = Seq::<u8>::empty();
    let token = integer_text(n as int);
    let sp = Spelling::Unary { op, gap: none, operand: Box::new(Spelling::Literal { token }) };
    lemma_integer_text_is_literal(n as int);
    lemma_unary_of_literal(op, none, token);
    assert(sp.text() =~= seq![op.symbol()] + token);
    assert(none + sp.text() + none =~= sp.text());
    theorem_one_expression_is_read(none, sp, none);
}

/// The rendering of a tree of one operator is a program that evaluates to
/// what the tree evaluates to.
///
/// It is read back as the tree itself, but for a binary expression with a
/// negative left operand: `-1 + 2` is read as the two expressions `-1` and
/// `+2`, which sum to the same integer.
pub proof fn theorem_rendering_round_trip(tree: Node)
    requires
        is_single_operator(tree),
    ensures
        interpretation(tree.rendered()) == Ok::<_, Mismatch>(wrapped(value(tree))),
        !has_negative_left(tree) ==> program(tree.rendered()) == Ok::<_, Mismatch>(seq![tree]),
{
    let none = Seq::<u8>::empty();
    let blank = seq![BLANK];
    lemma_single_operator_rendered(tree);
    match tree {
        Node::Int(_) => {},
        Node::UnaryExpr { op, child } => {
            lemma_unary_round_trip(op, child->Int_0);
            lemma_total_of_one(tree);
        },
        Node::BinaryExpr { op, lhs, rhs } => {
            let a = lhs->Int_0;
            let ta = integer_text(a as int);
            let tb = integer_text(rhs->Int_0 as int);
            lemma_integer_text_is_literal(a as int);
            lemma_integer_text_is_literal(rhs->Int_0 as int);
            assert(is_blank(blank) && is_blank(none));
            theorem_single_operator(none, ta, blank, op, blank, tb, none);
            if a >= 0 {
                lemma_decimal_digits_are_digits(a as nat);
                assert(ta[0] != MINUS);
                lemma_single_operator_unsigned(none, ta, blank, op, blank, tb, none);
            }
        },
    }
}

/// A tree written as a term: a literal in decimal, anything else in
/// parentheses.
pub open spec fn term_text(tree: Node) -> Seq<u8>
    decreases tree, 1int,
{
    match tree {
        Node::Int(n) => integer_text(n as int),
        _ => seq![OPEN] + expr_text(tree) + seq![CLOSE],
    }
}

/// A tree written as an expression, with every operand that is no literal in
/// parentheses: a sign directly before its operand, or two operands with the
/// sign between them, set off by one blank on each side.
pub open spec fn expr_text(tree: Node) -> Seq<u8>
    decreases tree, 0int,
{
    match tree {
        Node::Int(n) => integer_text(n as int),
        Node::UnaryExpr { op, child } => seq![op.symbol()] + term_text(*child),
        Node::BinaryExpr { op, lhs, rhs } => term_text(*lhs) + seq![BLANK, op.symbol(), BLANK]
            + term_text(*rhs),
    }
}

/// The text of a term starts with `-`, a digit or `(`, and with `-` only
/// where the term is a negative literal.
pub proof fn lemma_term_text_start(tree: Node)
    requires
        is_term(tree),
    ensures
        term_text(tree).len() >= 1,
        term_text(tree)[0] == MINUS || is_digit(term_text(tree)[0]) || term_text(tree)[0] == OPEN,
        term_text(tree)[0] == MINUS ==> (tree matches Node::Int(n) && n < 0),
{
    match tree {
        Node::Int(n) => {
            lemma_integer_text_is_literal(n as int);
            lemma_literal_start(integer_text(n as int));
            if n >= 0 {
                lemma_decimal_digits_are_digits(n as nat);
            }
        },
        _ => {},
    }
}

/// A tree as a term, spelled as `term_text` writes it.
pub open spec fn term_spelling(tree: Node) -> Spelling
    decreases tree, 1int,
{
    match tree {
        Node::Int(n) => Spelling::Literal { token: integer_text(n as int) },
        _ => Spelling::Group {
            before: Seq::empty(),
            inner: Box::new(expression_spelling(tree)),
            after: Seq::empty(),
        },
    }
}

/// A tree as an expression, spelled as `expr_text` writes it.
pub open spec fn expression_spelling(tree: Node) -> Spelling
    decreases tree, 0int,
{
    match tree {
        Node::Int(n) => Spelling::Literal { token: integer_text(n as int) },
        Node::UnaryExpr { op, child } => Spelling::Unary {
            op,
            gap: Seq::empty(),
            operand: Box::new(term_spelling(*child)),
        },
        Node::BinaryExpr { op, lhs, rhs } => Spelling::Binary {
            lhs: Box::new(term_spelling(*lhs)),
            before: seq![BLANK],
            op,
            after: seq![BLANK],
            rhs: Box::new(term_spelling(*rhs)),
        },
    }
}

/// `term_text` is a spelling of the term.
pub proof fn lemma_term_spelling(tree: Node)
    requires
        is_term(tree),
    ensures
        term_spelling(tree).is_term(),
        term_spelling(tree).tree() == tree,
        term_spelling(tree).text() == term_text(tree),
    decreases tree, 1int,
{
    match tree {
        Node::Int(n) => {
            lemma_integer_text_is_literal(n as int);
        },
        _ => {
            lemma_expression_spelling(tree);
            let inner = expression_spelling(tree);
            let none = Seq::<u8>::empty();
            assert(seq![OPEN] + none + inner.text() + none + seq![CLOSE] =~= seq![OPEN]
                + expr_text(tree) + seq![CLOSE]);
        },
    }
}

/// `expr_text` is a spelling of the expression.
pub proof fn lemma_expression_spelling(tree: Node)
    requires
        is_expression(tree),
    ensures
        expression_spelling(tree).is_expression(),
        expression_spelling(tree).tree() == tree,
        expression_spelling(tree).text() == expr_text(tree),
    decreases tree, 0int,
{
    let none = Seq::<u8>::empty();
    match tree {
        Node::Int(_) => {},
        Node::UnaryExpr { op, child } => {
            lemma_term_spelling(*child);
            assert(seq![op.symbol()] + none + term_text(*child) =~= seq![op.symbol()]
                + term_text(*child));
        },
        Node::BinaryExpr { op, lhs, rhs } => {
            lemma_term_spelling(*lhs);
            lemma_term_spelling(*rhs);
            lemma_term_text_start(*lhs);
            assert(is_blank(seq![BLANK]));
            assert(term_text(*lhs) + seq![BLANK] + seq![op.symbol()] + seq![BLANK] + term_text(
                *rhs,
            ) =~= term_text(*lhs) + seq![BLANK, op.symbol(), BLANK] + term_text(*rhs));
        },
    }
}

/// Every expression is the parse of its text: the grammar reads each tree
/// that it can give (`lemma_program_of_expressions`) back from the tree
/// written out with its parentheses.
pub proof fn theorem_expression_round_trip(tree: Node)
    requires
        is_expression(tree),
    ensures
        program(expr_text(tree)) == Ok::<_, Mismatch>(seq![tree]),
        interpretation(expr_text(tree)) == Ok::<_, Mismatch>(wrapped(value(tree))),
{
    let none = Seq::<u8>::empty();
    let sp = expression_spelling(tree);
    lemma_expression_spelling(tree);
    assert(none + sp.text() + none =~= expr_text(tree));
    theorem_one_expression_is_read(none, sp, none);
    lemma_total_of_one(tree);
}

} // verus!
