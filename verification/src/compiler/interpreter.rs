//! Evaluation: what a tree denotes, and the evaluator that computes it.
//!
//! Integers are 32 bits wide and arithmetic wraps in two's complement, so a
//! sum, a difference or a negation that leaves the range of `i32` comes back
//! reduced modulo 2^32, and evaluation never fails.
use vstd::prelude::*;

use crate::Compile;
use crate::ast::{Node, Operator};

verus! {

/// The integer that a tree denotes, in unbounded arithmetic.
pub open spec fn value(node: Node) -> int
    decreases node,
{
    match node {
        Node::Int(n) => n as int,
        Node::UnaryExpr { op, child } => match op {
            Operator::Plus => value(*child),
            Operator::Minus => -value(*child),
        },
        Node::BinaryExpr { op, lhs, rhs } => match op {
            Operator::Plus => value(*lhs) + value(*rhs),
            Operator::Minus => value(*lhs) - value(*rhs),
        },
    }
}

/// The sum of the integers that the trees of a program denote.
pub open spec fn total(trees: Seq<Node>) -> int
    decreases trees.len(),
{
    if trees.len() == 0 {
        0
    } else {
        total(trees.drop_last()) + value(trees.last())
    }
}

/// The 32-bit signed integer that is congruent to `v` modulo 2^32.
///
/// Arithmetic in this language wraps: every result is reduced to 32 bits in
/// two's complement, so evaluation is total and never fails.
#[verifier::opaque]
pub open spec fn wrapped(v: int) -> i32 {
    let low = v % 0x1_0000_0000;
    if low > i32::MAX {
        (low - 0x1_0000_0000) as i32
    } else {
        low as i32
    }
}

/// `wrapped` leaves an integer that fits in 32 bits as it is.
pub proof fn lemma_wrapped_small(v: int)
    requires
        i32::MIN <= v <= i32::MAX,
    ensures
        wrapped(v) == v,
{
    reveal(wrapped);
}

/// Wrapping the sum of two wrapped integers is wrapping the sum of the integers.
pub proof fn lemma_wrapped_add(a: int, b: int)
    ensures
        wrapped(wrapped(a) + wrapped(b)) == wrapped(a + b),
{
    reveal(wrapped);
}

/// Wrapping the difference of two wrapped integers is wrapping the difference
/// of the integers.
pub proof fn lemma_wrapped_sub(a: int, b: int)
    ensures
        wrapped(wrapped(a) - wrapped(b)) == wrapped(a - b),
{
    reveal(wrapped);
}

/// What `wrapping_add` computes on 32-bit integers.
pub proof fn lemma_wrapping_add(a: i32, b: i32)
    ensures
        vstd::wrapping::i32_specs::wrapping_add(a, b) == wrapped(a + b),
{
    reveal(wrapped);
}

/// What `wrapping_sub` computes on 32-bit integers.
pub proof fn lemma_wrapping_sub(a: i32, b: i32)
    ensures
        vstd::wrapping::i32_specs::wrapping_sub(a, b) == wrapped(a - b),
{
    reveal(wrapped);
}

/// Tree-walking evaluator.
pub struct Eval;

impl Eval {
    /// The evaluator; it holds no state.
    pub fn new() -> (evaluator: Self) {
        Eval
    }

    /// Reduces a tree to the integer that it denotes, wrapped to 32 bits.
    ///
    /// Each step wraps, and the result is the wrapping of the exact value all
    /// the same: an intermediate overflow that a later step undoes leaves no
    /// trace.
    pub fn eval(&self, node: &Node) -> (result: i32)
        ensures
            result == wrapped(value(*node)),
        decreases *node,
    {
        match node {
            Node::Int(n) => {
                proof {
                    lemma_wrapped_small(*n as int);
                }
                *n
            },
            Node::UnaryExpr { op, child } => {
                let inner = self.eval(child);
                proof {
                    lemma_wrapped_small(0);
                    lemma_wrapped_sub(0, value(**child));
                    lemma_wrapping_sub(0, inner);
                }
                match op {
                    Operator::Plus => inner,
                    Operator::Minus => 0i32.wrapping_sub(inner),
                }
            },
            Node::BinaryExpr { op, lhs, rhs } => {
                let lhs_ret = self.eval(lhs);
                let rhs_ret = self.eval(rhs);
                proof {
                    lemma_wrapped_add(value(**lhs), value(**rhs));
                    lemma_wrapped_sub(value(**lhs), value(**rhs));
                    lemma_wrapping_add(lhs_ret, rhs_ret);
                    lemma_wrapping_sub(lhs_ret, rhs_ret);
                }
                match op {
                    Operator::Plus => lhs_ret.wrapping_add(rhs_ret),
                    Operator::Minus => lhs_ret.wrapping_sub(rhs_ret),
                }
            },
        }
    }
}

/// Evaluates a program: the wrapped sum of what its trees denote.
pub struct Interpreter;

impl Compile for Interpreter {
    type Output = i32;

    open spec fn compiled(ast: Seq<Node>) -> i32 {
        wrapped(total(ast))
    }

    /// Evaluates each tree by itself and sums the results, wrapping.
    fn from_ast(ast: Vec<Node>) -> (result: i32) {
        let mut ret: i32 = 0;
        let evaluator = Eval::new();
        let mut i: usize = 0;
        proof {
            lemma_wrapped_small(0);
        }
        while i < ast.len()
            invariant
                i <= ast.len(),
                ret == wrapped(total(ast@.take(i as int))),
            decreases ast.len() - i,
        {
            let one = evaluator.eval(&ast[i]);
            proof {
                assert(ast@.take(i + 1).drop_last() == ast@.take(i as int));
                lemma_wrapped_add(total(ast@.take(i as int)), value(ast@[i as int]));
                lemma_wrapping_add(ret, one);
            }
            ret = ret.wrapping_add(one);
            i += 1;
        }
        proof {
            assert(ast@.take(i as int) == ast@);
        }
        ret
    }
}

} // verus!
