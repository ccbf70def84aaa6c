//! The language, stated as functions on the bytes of a text.
//!
//! ```text
//! Program    := Expr* end-of-input
//! Expr       := UnaryExpr | BinaryExpr
//! UnaryExpr  := Sign Term
//! BinaryExpr := Term Sign Term
//! Term       := Int | "(" Expr ")"
//! Sign       := "+" | "-"
//! Int        := "-"? digit+
//! ```
//!
//! Whitespace may stand before and after every token, and none inside an
//! `Int`. A choice takes its first alternative that can be read. A binary
//! expression has exactly one operator: longer chains take parentheses, and
//! what follows the second operand at top level starts the next expression.
//!
//! The `-` of an `Int` is part of the literal, so the literals reach from
//! `i32::MIN` to `i32::MAX`. At the start of an expression a sign always
//! opens a unary expression; the digits behind it are then a literal of
//! their own, without a sign.
//!
//! Each `.._at` function reads one production at a byte offset and gives the
//! tree with the number of bytes that it took, or the mismatch: the offset
//! at which the text stops fitting the grammar, and what was missing there.
//! The first mismatch is the mismatch of the whole text.
use vstd::prelude::*;

use crate::ascii::{BLANK, CARRIAGE_RETURN, CLOSE, LINE_FEED, MINUS, NINE, OPEN, PLUS, TAB, ZERO};
use crate::ast::{Node, Operator};

verus! {

/// Why a text is not a program.
#[derive(Debug, Clone, Copy, PartialEq, Eq, Structural)]
pub enum SyntaxError {
    /// A term was due: an integer literal or an opening parenthesis.
    MissingTerm,
    /// A `-` opens an integer literal, and no digit follows it.
    MissingDigit,
    /// A `+` or `-` was due after the left operand of a binary expression.
    MissingOperator,
    /// A `)` was due after a parenthesized expression.
    MissingClosingParen,
    /// An integer literal denotes an integer below `i32::MIN` or above
    /// `i32::MAX`.
    LiteralTooLarge,
}

impl SyntaxError {
    /// What was missing, in words.
    pub open spec fn description(self) -> Seq<char> {
        match self {
            SyntaxError::MissingTerm => "expected an integer or '('"@,
            SyntaxError::MissingDigit => "expected a digit after '-'"@,
            SyntaxError::MissingOperator => "expected '+' or '-'"@,
            SyntaxError::MissingClosingParen => "expected ')'"@,
            SyntaxError::LiteralTooLarge => "integer literal does not fit in 32 bits"@,
        }
    }

    /// What was missing, in words.
    pub fn describe(&self) -> (text: &'static str)
        ensures
            text@ == self.description(),
    {
        match self {
            SyntaxError::MissingTerm => "expected an integer or '('",
            SyntaxError::MissingDigit => "expected a digit after '-'",
            SyntaxError::MissingOperator => "expected '+' or '-'",
            SyntaxError::MissingClosingParen => "expected ')'",
            SyntaxError::LiteralTooLarge => "integer literal does not fit in 32 bits",
        }
    }
}

/// Where a text stops being a program, as a byte offset, and why.
pub type Mismatch = (int, SyntaxError);

/// A tree read from a text and the number of bytes it took, or the mismatch.
pub type Match = Result<(Node, nat), Mismatch>;

/// Blank, tab, line feed and carriage return separate tokens.
pub open spec fn is_space(b: u8) -> bool {
    b == BLANK || b == TAB || b == LINE_FEED || b == CARRIAGE_RETURN
}

/// The decimal digits `0` to `9`.
pub open spec fn is_digit(b: u8) -> bool {
    ZERO <= b <= NINE
}

/// The operator that a byte spells, if any.
pub open spec fn sign_of(b: u8) -> Option<Operator> {
    if b == PLUS {
        Some(Operator::Plus)
    } else if b == MINUS {
        Some(Operator::Minus)
    } else {
        None
    }
}

/// Whether the byte at `i` spells an operator.
pub open spec fn sign_at(s: Seq<u8>, i: int) -> bool {
    0 <= i < s.len() && sign_of(s[i]) is Some
}

/// The length of the longest run of whitespace in `s` that starts at `i`.
pub open spec fn spaces(s: Seq<u8>, i: int) -> nat
    decreases s.len() - i,
{
    if 0 <= i < s.len() && is_space(s[i]) {
        1 + spaces(s, i + 1)
    } else {
        0
    }
}

/// The length of the longest run of decimal digits in `s` that starts at `i`.
pub open spec fn digits(s: Seq<u8>, i: int) -> nat
    decreases s.len() - i,
{
    if 0 <= i < s.len() && is_digit(s[i]) {
        1 + digits(s, i + 1)
    } else {
        0
    }
}

/// The number that a string of decimal digits denotes.
pub open spec fn decimal(d: Seq<u8>) -> nat
    decreases d.len(),
{
    if d.len() == 0 {
        0
    } else {
        10 * decimal(d.drop_last()) + (d.last() - ZERO) as nat
    }
}

/// The largest number that the digits of a literal may denote: `i32::MAX`
/// without a sign, and one more behind a `-`, which gives `i32::MIN`.
pub open spec fn largest_digits(negative: bool) -> nat {
    if negative {
        2147483648
    } else {
        2147483647
    }
}

/// `Int := "-"? digit+`, read as one token: no whitespace inside.
///
/// The sign belongs to the literal, so the literals reach from `i32::MIN` to
/// `i32::MAX`, and a literal outside that range is a mismatch at its start.
pub open spec fn literal_at(s: Seq<u8>, i: int) -> Match {
    let sign: nat = if 0 <= i < s.len() && s[i] == MINUS { 1 } else { 0 };
    let n = digits(s, i + sign);
    let magnitude = decimal(s.subrange(i + sign, i + sign + n));
    if n == 0 {
        if sign == 1 {
            Err((i + 1, SyntaxError::MissingDigit))
        } else {
            Err((i, SyntaxError::MissingTerm))
        }
    } else if magnitude > largest_digits(sign == 1) {
        Err((i, SyntaxError::LiteralTooLarge))
    } else if sign == 1 {
        Ok((Node::Int((-magnitude) as i32), 1 + n))
    } else {
        Ok((Node::Int(magnitude as i32), n))
    }
}

/// `Term := Int | "(" Expr ")"`.
pub open spec fn term_at(s: Seq<u8>, i: int) -> Match
    decreases s.len() - i, 0int,
{
    if 0 <= i < s.len() && s[i] == OPEN {
        let gap = spaces(s, i + 1);
        proof {
            lemma_spaces_stay_inside(s, i + 1);
        }
        match expr_at(s, i + 1 + gap) {
            Err(e) => Err(e),
            Ok((tree, n)) => {
                let close = i + 1 + gap + n + spaces(s, i + 1 + gap + n);
                if 0 <= close < s.len() && s[close] == CLOSE {
                    Ok((tree, 1 + gap + n + spaces(s, i + 1 + gap + n) + 1))
                } else {
                    Err((close, SyntaxError::MissingClosingParen))
                }
            },
        }
    } else {
        literal_at(s, i)
    }
}

/// `UnaryExpr := Sign Term`, where a sign stands at `i`.
pub open spec fn unary_at(s: Seq<u8>, i: int) -> Match
    recommends
        sign_at(s, i),
    decreases s.len() - i, 1int,
{
    if sign_at(s, i) {
        let gap = spaces(s, i + 1);
        proof {
            lemma_spaces_stay_inside(s, i + 1);
        }
        match term_at(s, i + 1 + gap) {
            Err(e) => Err(e),
            Ok((child, n)) => Ok(
                (Node::UnaryExpr { op: sign_of(s[i]).unwrap(), child: Box::new(child) }, 1 + gap + n),
            ),
        }
    } else {
        Err((i, SyntaxError::MissingOperator))
    }
}

/// `BinaryExpr := Term Sign Term`: exactly one operator.
pub open spec fn binary_at(s: Seq<u8>, i: int) -> Match
    decreases s.len() - i, 1int,
{
    match term_at(s, i) {
        Err(e) => Err(e),
        Ok((lhs, n)) => {
            let gap = spaces(s, i + n);
            let at = i + n + gap;
            if sign_at(s, at) {
                let gap2 = spaces(s, at + 1);
                proof {
                    lemma_spaces_stay_inside(s, at + 1);
                }
                match term_at(s, at + 1 + gap2) {
                    Err(e) => Err(e),
                    Ok((rhs, m)) => Ok(
                        (
                            Node::BinaryExpr {
                                op: sign_of(s[at]).unwrap(),
                                lhs: Box::new(lhs),
                                rhs: Box::new(rhs),
                            },
                            n + gap + 1 + gap2 + m,
                        ),
                    ),
                }
            } else {
                Err((at, SyntaxError::MissingOperator))
            }
        },
    }
}

/// `Expr := UnaryExpr | BinaryExpr`.
///
/// The choice is ordered, and a unary expression is tried first. Where a sign
/// stands at `i` and no unary expression can be read, no binary expression can
/// be read either (`lemma_choice_is_ordered`), so the first byte decides.
pub open spec fn expr_at(s: Seq<u8>, i: int) -> Match
    decreases s.len() - i, 2int,
{
    if sign_at(s, i) {
        unary_at(s, i)
    } else {
        binary_at(s, i)
    }
}

/// `Expr* end-of-input`, read from `i` on: the trees in the order of the text.
pub open spec fn program_at(s: Seq<u8>, i: int) -> Result<Seq<Node>, Mismatch>
    decreases s.len() - i,
{
    let start = i + spaces(s, i);
    if start >= s.len() {
        Ok(Seq::empty())
    } else {
        match expr_at(s, start) {
            Err(e) => Err(e),
            Ok((tree, n)) => {
                proof {
                    lemma_expr_advances(s, start);
                }
                match program_at(s, start + n) {
                    Err(e) => Err(e),
                    Ok(rest) => Ok(seq![tree] + rest),
                }
            },
        }
    }
}

/// `Program := Expr* end-of-input`: what a whole text reads as.
pub open spec fn program(s: Seq<u8>) -> Result<Seq<Node>, Mismatch> {
    program_at(s, 0)
}

/// A run of whitespace ends inside the text, at a byte that is no whitespace.
pub proof fn lemma_spaces_stay_inside(s: Seq<u8>, i: int)
    requires
        0 <= i <= s.len(),
    ensures
        i + spaces(s, i) <= s.len(),
        i + spaces(s, i) < s.len() ==> !is_space(s[i + spaces(s, i)]),
        forall|k: int| i <= k < i + spaces(s, i) ==> is_space(#[trigger] s[k]),
    decreases s.len() - i,
{
    if i < s.len() && is_space(s[i]) {
        lemma_spaces_stay_inside(s, i + 1);
    }
}

/// Whitespace before a program does not change what it reads as.
pub proof fn lemma_program_skips_spaces(s: Seq<u8>, i: int)
    requires
        0 <= i <= s.len(),
    ensures
        program_at(s, i + spaces(s, i)) == program_at(s, i),
{
    lemma_spaces_stay_inside(s, i);
    let start = i + spaces(s, i);
    assert(spaces(s, start) == 0);
}

/// A run of digits ends inside the text, at a byte that is no digit.
pub proof fn lemma_digits_stay_inside(s: Seq<u8>, i: int)
    requires
        0 <= i <= s.len(),
    ensures
        i + digits(s, i) <= s.len(),
        i + digits(s, i) < s.len() ==> !is_digit(s[i + digits(s, i)]),
        forall|k: int| i <= k < i + digits(s, i) ==> is_digit(#[trigger] s[k]),
    decreases s.len() - i,
{
    if i < s.len() && is_digit(s[i]) {
        lemma_digits_stay_inside(s, i + 1);
    }
}

/// A term takes at least one byte and ends inside the text; a mismatch lies
/// between the start of the term and the end of the text.
pub proof fn lemma_term_advances(s: Seq<u8>, i: int)
    requires
        0 <= i <= s.len(),
    ensures
        match term_at(s, i) {
            Ok((_, n)) => 1 <= n && i + n <= s.len(),
            Err((at, _)) => i <= at <= s.len(),
        },
    decreases s.len() - i, 0int,
{
    if i < s.len() && s[i] == OPEN {
        lemma_spaces_stay_inside(s, i + 1);
        let inner = i + 1 + spaces(s, i + 1);
        lemma_expr_advances(s, inner);
        if let Ok((_, n)) = expr_at(s, inner) {
            lemma_spaces_stay_inside(s, inner + n);
        }
    } else {
        let sign: nat = if i < s.len() && s[i] == MINUS { 1 } else { 0 };
        lemma_digits_stay_inside(s, i + sign);
    }
}

/// An expression takes at least one byte and ends inside the text; a mismatch
/// lies between the start of the expression and the end of the text.
pub proof fn lemma_expr_advances(s: Seq<u8>, i: int)
    requires
        0 <= i <= s.len(),
    ensures
        match expr_at(s, i) {
            Ok((_, n)) => 1 <= n && i + n <= s.len(),
            Err((at, _)) => i <= at <= s.len(),
        },
    decreases s.len() - i, 1int,
{
    if sign_at(s, i) {
        lemma_spaces_stay_inside(s, i + 1);
        lemma_term_advances(s, i + 1 + spaces(s, i + 1));
    } else {
        lemma_term_advances(s, i);
        if let Ok((_, n)) = term_at(s, i) {
            lemma_spaces_stay_inside(s, i + n);
            let at = i + n + spaces(s, i + n);
            if sign_at(s, at) {
                lemma_spaces_stay_inside(s, at + 1);
                lemma_term_advances(s, at + 1 + spaces(s, at + 1));
            }
        }
    }
}

/// The choice between the two kinds of expression is ordered, and the first
/// byte decides it: a sign opens a unary expression.
///
/// Where a sign stands at `i` and no unary expression can be read there, no
/// binary expression can be read there either, with one exception: the text
/// starts with `-2147483648`. Those bytes are a literal, the least integer,
/// but at the start of an expression they are a `-` and its operand, whose
/// digits denote more than `i32::MAX`. The text is refused there, and is not
/// read a second time as the left operand of a binary expression.
pub proof fn lemma_choice_is_ordered(s: Seq<u8>, i: int)
    requires
        sign_at(s, i),
        unary_at(s, i) is Err,
    ensures
        binary_at(s, i) is Err || (term_at(s, i) matches Ok((tree, _)) && tree == Node::Int(
            i32::MIN,
        )),
{
    if s[i] == MINUS && digits(s, i + 1) > 0 {
        assert(is_digit(s[i + 1]));
        assert(spaces(s, i + 1) == 0);
        assert(term_at(s, i + 1) == literal_at(s, i + 1));
        assert(term_at(s, i) == literal_at(s, i));
    } else {
        assert(term_at(s, i) == literal_at(s, i));
        if s[i] != MINUS {
            assert(digits(s, i) == 0);
        }
    }
}

/// Whether a tree can be read as a term: a literal, or an expression (in
/// parentheses).
pub open spec fn is_term(tree: Node) -> bool
    decreases tree, 1int,
{
    match tree {
        Node::Int(_) => true,
        _ => is_expression(tree),
    }
}

/// Whether a tree can be read as an expression: an operator over terms,
/// where the left operand of a binary expression is no negative literal (a
/// sign at the start of an expression always opens a unary expression).
pub open spec fn is_expression(tree: Node) -> bool
    decreases tree, 0int,
{
    match tree {
        Node::Int(_) => false,
        Node::UnaryExpr { op, child } => is_term(*child),
        Node::BinaryExpr { op, lhs, rhs } => {
            &&& is_term(*lhs)
            &&& is_term(*rhs)
            &&& !(*lhs matches Node::Int(n) && n < 0)
        },
    }
}

/// What was read as a term is one, and it is a negative literal only where
/// a `-` stands at its start.
pub proof fn lemma_term_is_term(s: Seq<u8>, i: int)
    requires
        0 <= i <= s.len(),
    ensures
        term_at(s, i) matches Ok((tree, _)) ==> {
            &&& is_term(tree)
            &&& (tree matches Node::Int(n) && n < 0) ==> s[i] == MINUS
        },
    decreases s.len() - i, 0int,
{
    if i < s.len() && s[i] == OPEN {
        lemma_spaces_stay_inside(s, i + 1);
        lemma_expr_is_expression(s, i + 1 + spaces(s, i + 1));
    }
}

/// What was read as an expression is one.
pub proof fn lemma_expr_is_expression(s: Seq<u8>, i: int)
    requires
        0 <= i <= s.len(),
    ensures
        expr_at(s, i) matches Ok((tree, _)) ==> is_expression(tree),
    decreases s.len() - i, 1int,
{
    if sign_at(s, i) {
        lemma_spaces_stay_inside(s, i + 1);
        lemma_term_is_term(s, i + 1 + spaces(s, i + 1));
    } else {
        lemma_term_is_term(s, i);
        lemma_term_advances(s, i);
        if let Ok((_, n)) = term_at(s, i) {
            lemma_spaces_stay_inside(s, i + n);
            let at = i + n + spaces(s, i + n);
            if sign_at(s, at) {
                lemma_spaces_stay_inside(s, at + 1);
                lemma_term_is_term(s, at + 1 + spaces(s, at + 1));
            }
        }
    }
}

/// Every tree of a program is an expression.
pub proof fn lemma_program_of_expressions(s: Seq<u8>, i: int)
    requires
        0 <= i <= s.len(),
    ensures
        program_at(s, i) matches Ok(ast) ==> forall|k: int|
            0 <= k < ast.len() ==> is_expression(#[trigger] ast[k]),
    decreases s.len() - i,
{
    lemma_spaces_stay_inside(s, i);
    let start = i + spaces(s, i);
    if start < s.len() {
        lemma_expr_is_expression(s, start);
        lemma_expr_advances(s, start);
        if let Ok((tree, n)) = expr_at(s, start) {
            lemma_program_of_expressions(s, start + n);
            if let Ok(rest) = program_at(s, start + n) {
                let ast = seq![tree] + rest;
                assert forall|k: int| 0 <= k < ast.len() implies is_expression(
                    #[trigger] ast[k],
                ) by {
                    if k > 0 {
                        assert(ast[k] == rest[k - 1]);
                    }
                }
            }
        }
    }
}

} // verus!
