//! The parser: a recursive descent over the bytes of a text that returns
//! what the grammar says of the text, trees or mismatch.
//!
//! An operator reaches the tree builders already decoded, so a symbol other
//! than `+` or `-` cannot arrive there, and the parser has no internal
//! error: every failure is a `SyntaxError` of the text.
use vstd::prelude::*;
use vstd::string::*;

use crate::ascii::{
    chars_of, BLANK, CARRIAGE_RETURN, CLOSE, LINE_FEED, MINUS, NINE, OPEN, PLUS, TAB, ZERO,
};
use crate::ast::{decimal_digits, decimal_string, Node, Operator};
use crate::grammar::{
    binary_at, decimal, digits, expr_at, is_digit, is_expression, is_space, largest_digits,
    lemma_digits_stay_inside, lemma_program_of_expressions, lemma_program_skips_spaces,
    lemma_spaces_stay_inside, literal_at, program, program_at, sign_of, spaces, term_at,
    unary_at, Mismatch, SyntaxError,
};

verus! {

/// A text that is not a program: the byte offset of the mismatch, what was
/// missing there, and the byte that stands there instead (none at the end of
/// the text).
///
/// Nothing is recovered: the first mismatch ends the parse, and no tree of
/// the text is handed out.
#[derive(Debug, Clone, Copy, PartialEq, Eq, Structural)]
pub struct ParseError {
    pub position: usize,
    pub kind: SyntaxError,
    pub found: Option<u8>,
}

impl View for ParseError {
    type V = Mismatch;

    open spec fn view(&self) -> Mismatch {
        (self.position as int, self.kind)
    }
}

/// The byte of a text at an offset, if the text reaches that far.
pub open spec fn byte_at(text: Seq<u8>, i: int) -> Option<u8> {
    if 0 <= i < text.len() {
        Some(text[i])
    } else {
        None
    }
}

impl ParseError {
    /// Whether the error tells of the mismatch `m` of `text`.
    pub open spec fn reports(self, text: Seq<u8>, m: Mismatch) -> bool {
        self@ == m && self.found == byte_at(text, m.0)
    }

    /// The error as a message: what was missing, and at which byte.
    pub open spec fn message(self) -> Seq<char> {
        self.kind.description() + " at byte "@ + chars_of(decimal_digits(self.position as nat))
    }

    /// Renders the error as a message for the author of the text.
    pub fn to_string(&self) -> (text: String)
        ensures
            text@ == self.message(),
    {
        let mut text = String::from_str(self.kind.describe());
        let offset = decimal_string(self.position as u64);
        text.append(" at byte ");
        text.append(offset.as_str());
        text
    }
}

/// The error for a mismatch of kind `kind` at `position`.
fn mismatch(s: &[u8], position: usize, kind: SyntaxError) -> (e: ParseError)
    requires
        position <= s.len(),
    ensures
        e.reports(s@, (position as int, kind)),
{
    let found = if position < s.len() { Some(s[position]) } else { None };
    ParseError { position, kind, found }
}

/// The number denoted by a prefix of a digit string is at most the number
/// denoted by the whole string.
proof fn lemma_decimal_prefix(d: Seq<u8>, k: int)
    requires
        0 <= k <= d.len(),
    ensures
        decimal(d.take(k)) <= decimal(d),
    decreases d.len(),
{
    if k < d.len() {
        assert(d.drop_last().take(k) == d.take(k));
        lemma_decimal_prefix(d.drop_last(), k);
    } else {
        assert(d.take(k) == d);
    }
}

fn space_byte(b: u8) -> (yes: bool)
    ensures
        yes == is_space(b),
{
    b == BLANK || b == TAB || b == LINE_FEED || b == CARRIAGE_RETURN
}

fn digit_byte(b: u8) -> (yes: bool)
    ensures
        yes == is_digit(b),
{
    ZERO <= b && b <= NINE
}

fn sign_byte(b: u8) -> (op: Option<Operator>)
    ensures
        op == sign_of(b),
{
    if b == PLUS {
        Some(Operator::Plus)
    } else if b == MINUS {
        Some(Operator::Minus)
    } else {
        None
    }
}

/// The offset of the first byte at or after `i` that is no whitespace.
fn skip_spaces(s: &[u8], i: usize) -> (j: usize)
    requires
        i <= s.len(),
    ensures
        j == i + spaces(s@, i as int),
        j <= s.len(),
{
    let mut j = i;
    while j < s.len() && space_byte(s[j])
        invariant
            i <= j <= s.len(),
            spaces(s@, i as int) == (j - i) + spaces(s@, j as int),
        decreases s.len() - j,
    {
        j += 1;
    }
    j
}

/// Reads an integer literal at `i`. The digits are summed up as far as they
/// fit: the first digit that takes them past the largest number that they
/// may denote ends the parse.
fn parse_literal(s: &[u8], i: usize) -> (found: Result<(Node, usize), ParseError>)
    requires
        i <= s.len(),
    ensures
        match found {
            Ok((node, end)) => i < end <= s.len() && literal_at(s@, i as int) == Ok::<_, Mismatch>(
                (node, (end - i) as nat),
            ),
            Err(e) => literal_at(s@, i as int) matches Err(m) && e.reports(s@, m),
        },
{
    let negative = i < s.len() && s[i] == MINUS;
    let start = if negative { i + 1 } else { i };
    let ghost n = digits(s@, start as int);
    proof {
        lemma_digits_stay_inside(s@, start as int);
    }
    let ghost all = s@.subrange(start as int, start + n);
    let limit: i64 = if negative { 2147483648 } else { 2147483647 };
    let mut j = start;
    let mut magnitude: i64 = 0;
    while j < s.len() && digit_byte(s[j])
        invariant
            start == i + (if i < s.len() && s[i as int] == MINUS { 1int } else { 0int }),
            limit == largest_digits(i < s.len() && s[i as int] == MINUS),
            magnitude <= limit,
            start <= j <= s.len(),
            n == digits(s@, start as int),
            n == (j - start) + digits(s@, j as int),
            all == s@.subrange(start as int, start + n),
            start + n <= s.len(),
            0 <= magnitude,
            magnitude == decimal(s@.subrange(start as int, j as int)),
        decreases s.len() - j,
    {
        let digit: i64 = (s[j] - ZERO) as i64;
        let next: i64 = magnitude * 10 + digit;
        proof {
            let upto = s@.subrange(start as int, j + 1);
            assert(upto.drop_last() == s@.subrange(start as int, j as int));
            assert(decimal(upto) == next);
            assert(digits(s@, j as int) >= 1);
            assert(all.take(j + 1 - start) == upto);
            lemma_decimal_prefix(all, j + 1 - start);
            assert(decimal(all) >= next);
        }
        if next > limit {
            return Err(mismatch(s, i, SyntaxError::LiteralTooLarge));
        }
        magnitude = next;
        j += 1;
    }
    if j == start {
        if negative {
            Err(mismatch(s, start, SyntaxError::MissingDigit))
        } else {
            Err(mismatch(s, i, SyntaxError::MissingTerm))
        }
    } else if negative {
        Ok((Node::Int((-magnitude) as i32), j))
    } else {
        Ok((Node::Int(magnitude as i32), j))
    }
}

/// Reads a term at `i`: a parenthesized expression or a literal.
fn build_ast_from_term(s: &[u8], i: usize) -> (found: Result<(Node, usize), ParseError>)
    requires
        i <= s.len(),
    ensures
        match found {
            Ok((node, end)) => i < end <= s.len() && term_at(s@, i as int) == Ok::<_, Mismatch>(
                (node, (end - i) as nat),
            ),
            Err(e) => term_at(s@, i as int) matches Err(m) && e.reports(s@, m),
        },
    decreases s.len() - i, 0int,
{
    if i < s.len() && s[i] == OPEN {
        let inner = skip_spaces(s, i + 1);
        match build_ast_from_expr(s, inner) {
            Err(e) => Err(e),
            Ok((tree, after)) => {
                let close = skip_spaces(s, after);
                if close < s.len() && s[close] == CLOSE {
                    Ok((tree, close + 1))
                } else {
                    Err(mismatch(s, close, SyntaxError::MissingClosingParen))
                }
            },
        }
    } else {
        parse_literal(s, i)
    }
}

/// Reads the operand of the sign `op` that stands at `i`.
fn parse_unary_expr(s: &[u8], i: usize, op: Operator) -> (found: Result<(Node, usize), ParseError>)
    requires
        i < s.len(),
        sign_of(s[i as int]) == Some(op),
    ensures
        match found {
            Ok((node, end)) => i < end <= s.len() && unary_at(s@, i as int) == Ok::<_, Mismatch>(
                (node, (end - i) as nat),
            ),
            Err(e) => unary_at(s@, i as int) matches Err(m) && e.reports(s@, m),
        },
    decreases s.len() - i, 1int,
{
    let start = skip_spaces(s, i + 1);
    match build_ast_from_term(s, start) {
        Err(e) => Err(e),
        Ok((child, end)) => Ok((Node::UnaryExpr { op, child: Box::new(child) }, end)),
    }
}

/// Reads a left operand at `i`, then the sign, then the right operand.
fn parse_binary_expr(s: &[u8], i: usize) -> (found: Result<(Node, usize), ParseError>)
    requires
        i <= s.len(),
    ensures
        match found {
            Ok((node, end)) => i < end <= s.len() && binary_at(s@, i as int) == Ok::<_, Mismatch>(
                (node, (end - i) as nat),
            ),
            Err(e) => binary_at(s@, i as int) matches Err(m) && e.reports(s@, m),
        },
    decreases s.len() - i, 1int,
{
    match build_ast_from_term(s, i) {
        Err(e) => Err(e),
        Ok((lhs, after)) => {
            let at = skip_spaces(s, after);
            let sign = if at < s.len() { sign_byte(s[at]) } else { None };
            match sign {
                None => Err(mismatch(s, at, SyntaxError::MissingOperator)),
                Some(op) => {
                    let start = skip_spaces(s, at + 1);
                    match build_ast_from_term(s, start) {
                        Err(e) => Err(e),
                        Ok((rhs, end)) => Ok(
                            (Node::BinaryExpr { op, lhs: Box::new(lhs), rhs: Box::new(rhs) }, end),
                        ),
                    }
                },
            }
        },
    }
}

/// Reads an expression at `i`: unary where a sign stands there, else binary.
fn build_ast_from_expr(s: &[u8], i: usize) -> (found: Result<(Node, usize), ParseError>)
    requires
        i <= s.len(),
    ensures
        match found {
            Ok((node, end)) => i < end <= s.len() && expr_at(s@, i as int) == Ok::<_, Mismatch>(
                (node, (end - i) as nat),
            ),
            Err(e) => expr_at(s@, i as int) matches Err(m) && e.reports(s@, m),
        },
    decreases s.len() - i, 2int,
{
    let sign = if i < s.len() { sign_byte(s[i]) } else { None };
    match sign {
        Some(op) => parse_unary_expr(s, i, op),
        None => parse_binary_expr(s, i),
    }
}

/// Whether `parsed` is what the grammar makes of `text`: the trees of the
/// program that the text is, or the mismatch that keeps it from being one.
pub open spec fn parsed_as(text: Seq<u8>, parsed: Result<Vec<Node>, ParseError>) -> bool {
    match parsed {
        Ok(ast) => program(text) == Ok::<_, Mismatch>(ast@),
        Err(e) => program(text) matches Err(m) && e.reports(text, m),
    }
}

/// Parses the bytes of a source text into the trees of its top-level
/// expressions, or reports the first mismatch with the grammar.
pub fn parse_bytes(s: &[u8]) -> (parsed: Result<Vec<Node>, ParseError>)
    ensures
        parsed_as(s@, parsed),
        parsed matches Ok(ast) ==> forall|k: int|
            0 <= k < ast@.len() ==> is_expression(#[trigger] ast@[k]),
{
    proof {
        lemma_program_of_expressions(s@, 0);
    }
    let mut ast: Vec<Node> = Vec::new();
    let mut i: usize = skip_spaces(s, 0);
    proof {
        lemma_spaces_stay_inside(s@, 0);
        lemma_program_skips_spaces(s@, 0);
        if let Ok(rest) = program_at(s@, i as int) {
            assert(ast@ + rest == rest);
        }
    }
    while i < s.len()
        invariant
            i <= s.len(),
            i < s.len() ==> !is_space(s[i as int]),
            match program_at(s@, i as int) {
                Ok(rest) => program(s@) == Ok::<_, Mismatch>(ast@ + rest),
                Err(m) => program(s@) == Err::<Seq<Node>, _>(m),
            },
        decreases s.len() - i,
    {
        match build_ast_from_expr(s, i) {
            Err(e) => {
                return Err(e);
            },
            Ok((tree, end)) => {
                proof {
                    let rest = program_at(s@, end as int);
                    if let Ok(more) = rest {
                        assert(ast@ + (seq![tree] + more) == ast@.push(tree) + more);
                    }
                }
                ast.push(tree);
                i = skip_spaces(s, end);
                proof {
                    lemma_spaces_stay_inside(s@, end as int);
                    lemma_program_skips_spaces(s@, end as int);
                }
            },
        }
    }
    Ok(ast)
}

/// Parses a source text into the trees of its top-level expressions, in the
/// order of the text, or reports the first mismatch with the grammar.
///
/// The text is read as its UTF-8 bytes, so the position of an error counts
/// bytes, and a character outside ASCII is a mismatch wherever it stands.
pub fn parse(source: &str) -> (parsed: Result<Vec<Node>, ParseError>)
    ensures
        parsed_as(source.spec_bytes(), parsed),
        parsed matches Ok(ast) ==> forall|k: int|
            0 <= k < ast@.len() ==> is_expression(#[trigger] ast@[k]),
{
    parse_bytes(source.as_bytes())
}

/// Parsing is a function of the text: any two results for one text are the
/// same trees in the same order, or the same error.
pub proof fn theorem_parse_is_deterministic(
    text: Seq<u8>,
    first: Result<Vec<Node>, ParseError>,
    second: Result<Vec<Node>, ParseError>,
)
    requires
        parsed_as(text, first),
        parsed_as(text, second),
    ensures
        match (first, second) {
            (Ok(a), Ok(b)) => a@ == b@,
            (Err(e), Err(f)) => e == f,
            _ => false,
        },
{
}

} // verus!
