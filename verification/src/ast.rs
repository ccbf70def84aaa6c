//! The trees of the language, their equality, and their text.
use vstd::prelude::*;
use vstd::std_specs::cmp::PartialEqSpecImpl;
use vstd::string::*;
use vstd::utf8::encode_utf8;

use crate::ascii::{chars_of, lemma_ascii_round_trip, BLANK, MINUS, NINE, PLUS, ZERO};

verus! {

/// One of the two signs of the language.
#[derive(Debug, Clone, Copy, PartialEq, Eq, Structural)]
pub enum Operator {
    Plus,
    Minus,
}

/// An expression tree. A node owns its operands, so a tree is finite and
/// shares nothing.
#[derive(Debug)]
pub enum Node {
    /// An integer literal.
    Int(i32),
    /// A sign before one operand: `Minus` negates it, `Plus` leaves it as it is.
    UnaryExpr { op: Operator, child: Box<Node> },
    /// Two operands with a sign between them. Their order matters for `Minus`.
    BinaryExpr { op: Operator, lhs: Box<Node>, rhs: Box<Node> },
}

impl Clone for Node {
    fn clone(&self) -> (copy: Node)
        ensures
            copy == *self,
        decreases *self,
    {
        match self {
            Node::Int(value) => Node::Int(*value),
            Node::UnaryExpr { op, child } => Node::UnaryExpr {
                op: *op,
                child: Box::new((**child).clone()),
            },
            Node::BinaryExpr { op, lhs, rhs } => Node::BinaryExpr {
                op: *op,
                lhs: Box::new((**lhs).clone()),
                rhs: Box::new((**rhs).clone()),
            },
        }
    }
}

/// Two trees are equal where they have the same shape, operators and
/// literals.
impl PartialEq for Node {
    fn eq(&self, other: &Node) -> (r: bool)
        decreases *self,
    {
        match (self, other) {
            (Node::Int(a), Node::Int(b)) => *a == *b,
            (
                Node::UnaryExpr { op: op_a, child: child_a },
                Node::UnaryExpr { op: op_b, child: child_b },
            ) => *op_a == *op_b && (**child_a).eq(&**child_b),
            (
                Node::BinaryExpr { op: op_a, lhs: lhs_a, rhs: rhs_a },
                Node::BinaryExpr { op: op_b, lhs: lhs_b, rhs: rhs_b },
            ) => *op_a == *op_b && (**lhs_a).eq(&**lhs_b) && (**rhs_a).eq(&**rhs_b),
            _ => false,
        }
    }
}

impl PartialEqSpecImpl for Node {
    open spec fn obeys_eq_spec() -> bool {
        true
    }

    open spec fn eq_spec(&self, other: &Node) -> bool {
        *self == *other
    }
}

impl Eq for Node {}

/// The decimal digits of a number, most significant first, without leading
/// zeros.
pub open spec fn decimal_digits(n: nat) -> Seq<u8>
    decreases n,
{
    if n < 10 {
        seq![(ZERO + n) as u8]
    } else {
        decimal_digits(n / 10).push((ZERO + n % 10) as u8)
    }
}

/// An integer in decimal, with a leading `-` where it is negative.
pub open spec fn integer_text(n: int) -> Seq<u8> {
    if n < 0 {
        seq![MINUS] + decimal_digits((-n) as nat)
    } else {
        decimal_digits(n as nat)
    }
}

impl Operator {
    /// The byte that spells the operator.
    pub open spec fn symbol(self) -> u8 {
        match self {
            Operator::Plus => PLUS,
            Operator::Minus => MINUS,
        }
    }

    /// The operator as text: `+` or `-`.
    pub fn to_string(&self) -> (text: String)
        ensures
            text@ == chars_of(seq![self.symbol()]),
            encode_utf8(text@) == seq![self.symbol()],
    {
        let text = String::from_str(symbol_str(*self));
        proof {
            lemma_ascii_round_trip(seq![self.symbol()]);
        }
        text
    }
}

impl Node {
    /// The tree as text: a literal in decimal, a unary expression as its sign
    /// directly before its operand, a binary expression as its operands with
    /// the sign between them, set off by one blank on each side. No
    /// parentheses are written.
    pub open spec fn rendered(self) -> Seq<u8>
        decreases self,
    {
        match self {
            Node::Int(n) => integer_text(n as int),
            Node::UnaryExpr { op, child } => seq![op.symbol()] + child.rendered(),
            Node::BinaryExpr { op, lhs, rhs } => lhs.rendered() + seq![BLANK, op.symbol(), BLANK]
                + rhs.rendered(),
        }
    }

    /// Renders the tree as text.
    pub fn to_string(&self) -> (text: String)
        ensures
            text@ == chars_of(self.rendered()),
            encode_utf8(text@) == self.rendered(),
        decreases *self,
    {
        let text = match self {
            Node::Int(n) => integer_string(*n),
            Node::UnaryExpr { op, child } => {
                let mut text = String::from_str(symbol_str(*op));
                let operand = child.to_string();
                text.append(operand.as_str());
                proof {
                    assert(text@ == chars_of(self.rendered()));
                }
                text
            },
            Node::BinaryExpr { op, lhs, rhs } => {
                let mut text = lhs.to_string();
                let right = rhs.to_string();
                text.append(" ");
                text.append(symbol_str(*op));
                text.append(" ");
                text.append(right.as_str());
                proof {
                    reveal_strlit(" ");
                    assert(text@ == chars_of(self.rendered()));
                }
                text
            },
        };
        proof {
            lemma_rendered_is_ascii(*self);
            lemma_ascii_round_trip(self.rendered());
        }
        text
    }
}

/// The decimal digits of a number are digits, and there is at least one.
pub proof fn lemma_decimal_digits_are_digits(n: nat)
    ensures
        decimal_digits(n).len() >= 1,
        forall|i: int|
            0 <= i < decimal_digits(n).len() ==> ZERO <= #[trigger] decimal_digits(n)[i] <= NINE,
    decreases n,
{
    if n >= 10 {
        lemma_decimal_digits_are_digits(n / 10);
    }
}

/// A rendered tree is plain ASCII.
pub proof fn lemma_rendered_is_ascii(node: Node)
    ensures
        forall|i: int| 0 <= i < node.rendered().len() ==> #[trigger] node.rendered()[i] < 128,
    decreases node,
{
    match node {
        Node::Int(n) => {
            let digits = decimal_digits(if n < 0 { (-n) as nat } else { n as nat });
            lemma_decimal_digits_are_digits(if n < 0 { (-n) as nat } else { n as nat });
            assert forall|i: int| 0 <= i < node.rendered().len() implies #[trigger] node.rendered()[i]
                < 128 by {
                if n < 0 && i > 0 {
                    assert(node.rendered()[i] == digits[i - 1]);
                } else if n >= 0 {
                    assert(node.rendered()[i] == digits[i]);
                }
            }
        },
        Node::UnaryExpr { op, child } => {
            lemma_rendered_is_ascii(*child);
            assert forall|i: int| 0 <= i < node.rendered().len() implies #[trigger] node.rendered()[i]
                < 128 by {
                if i > 0 {
                    assert(node.rendered()[i] == child.rendered()[i - 1]);
                }
            }
        },
        Node::BinaryExpr { op, lhs, rhs } => {
            lemma_rendered_is_ascii(*lhs);
            lemma_rendered_is_ascii(*rhs);
            let left = lhs.rendered();
            assert forall|i: int| 0 <= i < node.rendered().len() implies #[trigger] node.rendered()[i]
                < 128 by {
                if i < left.len() {
                    assert(node.rendered()[i] == left[i]);
                } else if i >= left.len() + 3 {
                    assert(node.rendered()[i] == rhs.rendered()[i - left.len() - 3]);
                }
            }
        },
    }
}

fn symbol_str(op: Operator) -> (text: &'static str)
    ensures
        text@ == chars_of(seq![op.symbol()]),
{
    proof {
        reveal_strlit("+");
        reveal_strlit("-");
    }
    let text = match op {
        Operator::Plus => "+",
        Operator::Minus => "-",
    };
    assert(text@ =~= chars_of(seq![op.symbol()]));
    text
}

fn digit_str(d: u64) -> (text: &'static str)
    requires
        d < 10,
    ensures
        text@ == chars_of(seq![(ZERO + d) as u8]),
{
    proof {
        reveal_strlit("0");
        reveal_strlit("1");
        reveal_strlit("2");
        reveal_strlit("3");
        reveal_strlit("4");
        reveal_strlit("5");
        reveal_strlit("6");
        reveal_strlit("7");
        reveal_strlit("8");
        reveal_strlit("9");
    }
    let text = match d {
        0 => "0",
        1 => "1",
        2 => "2",
        3 => "3",
        4 => "4",
        5 => "5",
        6 => "6",
        7 => "7",
        8 => "8",
        _ => "9",
    };
    assert(text@ =~= chars_of(seq![(ZERO + d) as u8]));
    text
}

/// A number in decimal.
pub fn decimal_string(n: u64) -> (text: String)
    ensures
        text@ == chars_of(decimal_digits(n as nat)),
    decreases n,
{
    if n < 10 {
        String::from_str(digit_str(n))
    } else {
        let mut text = decimal_string(n / 10);
        text.append(digit_str(n % 10));
        assert(text@ =~= chars_of(decimal_digits(n as nat)));
        text
    }
}

fn integer_string(n: i32) -> (text: String)
    ensures
        text@ == chars_of(integer_text(n as int)),
{
    if n < 0 {
        let magnitude: u64 = (-(n as i64)) as u64;
        let mut text = String::from_str("-");
        let digits = decimal_string(magnitude);
        text.append(digits.as_str());
        proof {
            reveal_strlit("-");
            assert(text@ =~= chars_of(integer_text(n as int)));
        }
        text
    } else {
        decimal_string(n as u64)
    }
}

} // verus!
