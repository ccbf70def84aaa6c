//! Reading a text whose parts are known: whitespace, literals, and terms with
//! a sign or parentheses around them, each at its offset.
use vstd::prelude::*;

use crate::ascii::{CLOSE, MINUS, OPEN};
use crate::ast::{Node, Operator};
use crate::compiler::interpreter::{total, value, wrapped};
use crate::grammar::{
    binary_at, decimal, digits, expr_at, is_digit, is_space, largest_digits,
    lemma_spaces_stay_inside,
    literal_at, program, program_at, sign_at, sign_of, spaces, term_at, unary_at, Mismatch,
};

verus! {

/// What a text evaluates to: the wrapped sum of what its trees denote, or the
/// mismatch that keeps it from being a program.
pub open spec fn interpretation(text: Seq<u8>) -> Result<i32, Mismatch> {
    match program(text) {
        Ok(ast) => Ok(wrapped(total(ast))),
        Err(e) => Err(e),
    }
}

/// Whitespace only.
pub open spec fn is_blank(w: Seq<u8>) -> bool {
    forall|k: int| 0 <= k < w.len() ==> is_space(#[trigger] w[k])
}

/// The part of a literal's spelling behind its sign.
pub open spec fn literal_digits(t: Seq<u8>) -> Seq<u8> {
    if t.len() > 0 && t[0] == MINUS {
        t.skip(1)
    } else {
        t
    }
}

/// A spelling of an integer literal that the grammar accepts: an optional
/// `-`, then at least one digit, the whole denoting an integer from
/// `i32::MIN` to `i32::MAX`.
pub open spec fn is_literal(t: Seq<u8>) -> bool {
    let d = literal_digits(t);
    &&& d.len() >= 1
    &&& forall|k: int| 0 <= k < d.len() ==> is_digit(#[trigger] d[k])
    &&& decimal(d) <= largest_digits(t.len() > 0 && t[0] == MINUS)
}

/// The integer that a literal's spelling denotes.
pub open spec fn literal_value(t: Seq<u8>) -> int {
    if t.len() > 0 && t[0] == MINUS {
        -decimal(t.skip(1))
    } else {
        decimal(t) as int
    }
}

/// A stretch of whitespace that ends at a byte which is none, or at the end
/// of the text, is the whole run.
pub proof fn lemma_spaces_run(s: Seq<u8>, i: int, k: nat)
    requires
        0 <= i,
        i + k <= s.len(),
        forall|j: int| i <= j < i + k ==> is_space(#[trigger] s[j]),
        i + k < s.len() ==> !is_space(s[i + k]),
    ensures
        spaces(s, i) == k,
    decreases k,
{
    if k > 0 {
        lemma_spaces_run(s, i + 1, (k - 1) as nat);
    }
}

/// A stretch of digits that ends at a byte which is none, or at the end of
/// the text, is the whole run.
pub proof fn lemma_digits_run(s: Seq<u8>, i: int, k: nat)
    requires
        0 <= i,
        i + k <= s.len(),
        forall|j: int| i <= j < i + k ==> is_digit(#[trigger] s[j]),
        i + k < s.len() ==> !is_digit(s[i + k]),
    ensures
        digits(s, i) == k,
    decreases k,
{
    if k > 0 {
        lemma_digits_run(s, i + 1, (k - 1) as nat);
    }
}

/// Where the spelling `t` of a literal stands at `i` and no digit follows
/// it, the literal is read there, and as a term too.
pub proof fn lemma_literal_read(s: Seq<u8>, i: int, t: Seq<u8>)
    requires
        0 <= i,
        i + t.len() <= s.len(),
        s.subrange(i, i + t.len()) == t,
        is_literal(t),
        i + t.len() < s.len() ==> !is_digit(s[i + t.len()]),
    ensures
        literal_at(s, i) == Ok::<_, Mismatch>((Node::Int(literal_value(t) as i32), t.len())),
        term_at(s, i) == literal_at(s, i),
        i32::MIN <= literal_value(t) <= i32::MAX,
{
    let d = literal_digits(t);
    let sign: nat = if t[0] == MINUS { 1 } else { 0 };
    assert(s[i] == t[0]);
    assert forall|j: int| i + sign <= j < i + sign + d.len() implies is_digit(#[trigger] s[j]) by {
        assert(s[j] == t[j - i]);
        assert(t[j - i] == d[j - i - sign]);
    }
    lemma_digits_run(s, i + sign, d.len());
    assert(s.subrange(i + sign, i + sign + d.len()) == d);
    if sign == 0 {
        assert(is_digit(d[0]));
    }
}

/// One tree sums to what it denotes.
pub proof fn lemma_total_of_one(tree: Node)
    ensures
        total(seq![tree]) == value(tree),
{
    assert(seq![tree].drop_last() == Seq::<Node>::empty());
    assert(total(Seq::<Node>::empty()) == 0);
}

/// Two trees sum to what they denote together.
pub proof fn lemma_total_of_two(first: Node, second: Node)
    ensures
        total(seq![first, second]) == value(first) + value(second),
{
    assert(seq![first, second].drop_last() == seq![first]);
    lemma_total_of_one(first);
}

/// Where the whitespace `w` stands at `i` and no whitespace follows it, it is
/// the run of whitespace at `i`.
pub proof fn lemma_blank_read(s: Seq<u8>, i: int, w: Seq<u8>)
    requires
        0 <= i,
        i + w.len() <= s.len(),
        s.subrange(i, i + w.len()) == w,
        is_blank(w),
        i + w.len() < s.len() ==> !is_space(s[i + w.len()]),
    ensures
        spaces(s, i) == w.len(),
{
    assert forall|j: int| i <= j < i + w.len() implies is_space(#[trigger] s[j]) by {
        assert(s[j] == w[j - i]);
    }
    lemma_spaces_run(s, i, w.len());
}

/// A literal starts with `-` or a digit, ends in a digit, and denotes an
/// integer of 32 bits. Behind a `-` stand the digits of its negation, which
/// are a literal themselves unless the literal denotes `i32::MIN`.
pub proof fn lemma_literal_start(t: Seq<u8>)
    requires
        is_literal(t),
    ensures
        t.len() >= 1,
        t[0] == MINUS || is_digit(t[0]),
        is_digit(t.last()),
        i32::MIN <= literal_value(t) <= i32::MAX,
        t[0] == MINUS ==> t.len() >= 2 && is_digit(t[1]) && literal_value(t) <= 0,
        t[0] != MINUS ==> literal_value(t) >= 0,
        (t[0] == MINUS && literal_value(t) > i32::MIN) ==> is_literal(t.skip(1)) && literal_value(
            t.skip(1),
        ) == -literal_value(t),
{
    assert(is_digit(literal_digits(t).last()));
    assert(t.last() == literal_digits(t).last());
    let d = literal_digits(t);
    assert(is_digit(d[0]));
    if t[0] == MINUS {
        assert(d[0] == t[1]);
        assert(literal_digits(d) == d);
    }
}

/// Whitespace, then an expression, then the rest of a program.
pub proof fn lemma_program_step(s: Seq<u8>, i: int, w: Seq<u8>, tree: Node, n: nat, rest: Seq<Node>)
    requires
        0 <= i,
        i + w.len() < s.len(),
        s.subrange(i, i + w.len()) == w,
        is_blank(w),
        expr_at(s, i + w.len()) == Ok::<_, Mismatch>((tree, n)),
        program_at(s, i + w.len() + n) == Ok::<_, Mismatch>(rest),
    ensures
        program_at(s, i) == Ok::<_, Mismatch>(seq![tree] + rest),
{
    let start = i + w.len();
    if is_space(s[start]) {
        assert(!sign_at(s, start));
        assert(term_at(s, start) == literal_at(s, start));
        assert(digits(s, start) == 0);
        assert(false);
    }
    lemma_blank_read(s, i, w);
}

/// Where five texts in a row stand at `i`, each of them stands at its offset.
pub proof fn lemma_five_parts(
    s: Seq<u8>,
    i: int,
    a: Seq<u8>,
    b: Seq<u8>,
    c: Seq<u8>,
    d: Seq<u8>,
    e: Seq<u8>,
)
    requires
        0 <= i,
        i + a.len() + b.len() + c.len() + d.len() + e.len() <= s.len(),
        s.subrange(i, i + a.len() + b.len() + c.len() + d.len() + e.len()) == a + b + c + d + e,
    ensures
        s.subrange(i, i + a.len()) == a,
        s.subrange(i + a.len(), i + a.len() + b.len()) == b,
        s.subrange(i + a.len() + b.len(), i + a.len() + b.len() + c.len()) == c,
        s.subrange(
            i + a.len() + b.len() + c.len(),
            i + a.len() + b.len() + c.len() + d.len(),
        ) == d,
        s.subrange(
            i + a.len() + b.len() + c.len() + d.len(),
            i + a.len() + b.len() + c.len() + d.len() + e.len(),
        ) == e,
{
    let whole = a + b + c + d + e;
    let end = i + whole.len();
    let i1 = a.len() as int;
    let i2 = i1 + b.len();
    let i3 = i2 + c.len();
    let i4 = i3 + d.len();
    assert(s.subrange(i, i + i1) =~= s.subrange(i, end).subrange(0, i1));
    assert(s.subrange(i + i1, i + i2) =~= s.subrange(i, end).subrange(i1, i2));
    assert(s.subrange(i + i2, i + i3) =~= s.subrange(i, end).subrange(i2, i3));
    assert(s.subrange(i + i3, i + i4) =~= s.subrange(i, end).subrange(i3, i4));
    assert(s.subrange(i + i4, end) =~= s.subrange(i, end).subrange(i4, whole.len() as int));
    assert(whole.subrange(0, i1) =~= a);
    assert(whole.subrange(i1, i2) =~= b);
    assert(whole.subrange(i2, i3) =~= c);
    assert(whole.subrange(i3, i4) =~= d);
    assert(whole.subrange(i4, whole.len() as int) =~= e);
}

/// Where three texts in a row stand at `i`, each of them stands at its
/// offset.
pub proof fn lemma_three_parts(s: Seq<u8>, i: int, a: Seq<u8>, b: Seq<u8>, c: Seq<u8>)
    requires
        0 <= i,
        i + a.len() + b.len() + c.len() <= s.len(),
        s.subrange(i, i + a.len() + b.len() + c.len()) == a + b + c,
    ensures
        s.subrange(i, i + a.len()) == a,
        s.subrange(i + a.len(), i + a.len() + b.len()) == b,
        s.subrange(i + a.len() + b.len(), i + a.len() + b.len() + c.len()) == c,
{
    let none = Seq::<u8>::empty();
    assert(a + b + c =~= a + b + c + none + none);
    lemma_five_parts(s, i, a, b, c, none, none);
}

/// The first and the last byte of a text that stands at `i`.
pub proof fn lemma_first_byte(s: Seq<u8>, i: int, text: Seq<u8>)
    requires
        0 <= i,
        i + text.len() <= s.len(),
        s.subrange(i, i + text.len()) == text,
        text.len() > 0,
    ensures
        s[i] == text[0],
        s[i + text.len() - 1] == text.last(),
{
    assert(s[i] == s.subrange(i, i + text.len())[0]);
    assert(s[i + text.len() - 1] == s.subrange(i, i + text.len())[text.len() - 1]);
}

/// A run of whitespace of `s`, as a text of its own, is blank.
pub proof fn lemma_spaces_are_blank(s: Seq<u8>, i: int)
    requires
        0 <= i <= s.len(),
    ensures
        is_blank(s.subrange(i, i + spaces(s, i))),
{
    lemma_spaces_stay_inside(s, i);
    let w = s.subrange(i, i + spaces(s, i));
    assert forall|k: int| 0 <= k < w.len() implies is_space(#[trigger] w[k]) by {
        assert(w[k] == s[i + k]);
    }
}

/// An expression between parentheses is a term.
pub proof fn lemma_group_of_expression(s: Seq<u8>, i: int, g: nat, tree: Node, n: nat, h: nat)
    requires
        0 <= i,
        i + 1 + g + n + h < s.len(),
        s[i] == OPEN,
        spaces(s, i + 1) == g,
        expr_at(s, i + 1 + g) == Ok::<_, Mismatch>((tree, n)),
        spaces(s, i + 1 + g + n) == h,
        s[i + 1 + g + n + h] == CLOSE,
    ensures
        term_at(s, i) == Ok::<_, Mismatch>((tree, 1 + g + n + h + 1)),
{
}

/// A sign, whitespace and a term are a unary expression.
pub proof fn lemma_unary_of_operand(s: Seq<u8>, i: int, op: Operator, g: nat, child: Node, n: nat)
    requires
        0 <= i < s.len(),
        s[i] == op.symbol(),
        spaces(s, i + 1) == g,
        term_at(s, i + 1 + g) == Ok::<_, Mismatch>((child, n)),
    ensures
        expr_at(s, i) == Ok::<_, Mismatch>(
            (Node::UnaryExpr { op, child: Box::new(child) }, 1 + g + n),
        ),
{
    assert(sign_of(s[i]) == Some(op));
    assert(sign_at(s, i));
    assert(expr_at(s, i) == unary_at(s, i));
}

/// A term that starts with no sign, whitespace, a sign, whitespace and a
/// term are a binary expression.
pub proof fn lemma_binary_of_operands(
    s: Seq<u8>,
    i: int,
    lhs: Node,
    n: nat,
    g: nat,
    op: Operator,
    h: nat,
    rhs: Node,
    m: nat,
)
    requires
        0 <= i < s.len(),
        i + n + g < s.len(),
        sign_of(s[i]) is None,
        term_at(s, i) == Ok::<_, Mismatch>((lhs, n)),
        spaces(s, i + n) == g,
        s[i + n + g] == op.symbol(),
        spaces(s, i + n + g + 1) == h,
        term_at(s, i + n + g + 1 + h) == Ok::<_, Mismatch>((rhs, m)),
    ensures
        expr_at(s, i) == Ok::<_, Mismatch>(
            (Node::BinaryExpr { op, lhs: Box::new(lhs), rhs: Box::new(rhs) }, n + g + 1 + h + m),
        ),
{
    assert(sign_of(s[i + n + g]) == Some(op));
    assert(!sign_at(s, i));
    assert(sign_at(s, i + n + g));
    assert(expr_at(s, i) == binary_at(s, i));
}

} // verus!
