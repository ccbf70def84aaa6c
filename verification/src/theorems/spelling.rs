//! The grammar as a relation between texts and trees: the ways to write a
//! tree, and the proof that the parser reads every one of them, and nothing
//! else.
use vstd::prelude::*;

use crate::ascii::{CLOSE, MINUS, OPEN};
use crate::ast::{Node, Operator};
use crate::grammar::{
    binary_at, expr_at, is_digit, is_space, lemma_digits_stay_inside, lemma_expr_advances,
    lemma_spaces_stay_inside, lemma_term_advances, literal_at, program, program_at, sign_at,
    sign_of, spaces, term_at, unary_at, Mismatch,
};
use crate::theorems::reading::{
    is_blank, is_literal, lemma_binary_of_operands, lemma_blank_read, lemma_first_byte,
    lemma_five_parts, lemma_group_of_expression, lemma_literal_read, lemma_literal_start,
    lemma_program_step, lemma_spaces_are_blank, lemma_three_parts, lemma_unary_of_operand,
    literal_digits, literal_value,
};

verus! {

/// One way to write a tree: the spelling of each literal and the whitespace
/// between the tokens.
pub enum Spelling {
    /// An integer literal, as the bytes of its token.
    Literal { token: Seq<u8> },
    /// `(`, whitespace, an expression, whitespace, `)`.
    Group { before: Seq<u8>, inner: Box<Spelling>, after: Seq<u8> },
    /// A sign, whitespace, a term.
    Unary { op: Operator, gap: Seq<u8>, operand: Box<Spelling> },
    /// A term, whitespace, a sign, whitespace, a term.
    Binary { lhs: Box<Spelling>, before: Seq<u8>, op: Operator, after: Seq<u8>, rhs: Box<Spelling> },
}

impl Spelling {
    /// The bytes of the spelling.
    pub open spec fn text(self) -> Seq<u8>
        decreases self,
    {
        match self {
            Spelling::Literal { token } => token,
            Spelling::Group { before, inner, after } => seq![OPEN] + before + inner.text() + after
                + seq![CLOSE],
            Spelling::Unary { op, gap, operand } => seq![op.symbol()] + gap + operand.text(),
            Spelling::Binary { lhs, before, op, after, rhs } => lhs.text() + before + seq![
                op.symbol(),
            ] + after + rhs.text(),
        }
    }

    /// The tree that is spelled. Parentheses leave no node.
    pub open spec fn tree(self) -> Node
        decreases self,
    {
        match self {
            Spelling::Literal { token } => Node::Int(literal_value(token) as i32),
            Spelling::Group { before, inner, after } => inner.tree(),
            Spelling::Unary { op, gap, operand } => Node::UnaryExpr {
                op,
                child: Box::new(operand.tree()),
            },
            Spelling::Binary { lhs, before, op, after, rhs } => Node::BinaryExpr {
                op,
                lhs: Box::new(lhs.tree()),
                rhs: Box::new(rhs.tree()),
            },
        }
    }

    /// `Term := Int | "(" Expr ")"`.
    pub open spec fn is_term(self) -> bool
        decreases self,
    {
        match self {
            Spelling::Literal { token } => is_literal(token),
            Spelling::Group { before, inner, after } => {
                &&& is_blank(before)
                &&& is_blank(after)
                &&& inner.is_expression()
            },
            _ => false,
        }
    }

    /// `Expr := UnaryExpr | BinaryExpr`, where the left operand of a binary
    /// expression does not start with `-`: such a text is a unary expression.
    pub open spec fn is_expression(self) -> bool
        decreases self,
    {
        match self {
            Spelling::Unary { op, gap, operand } => is_blank(gap) && operand.is_term(),
            Spelling::Binary { lhs, before, op, after, rhs } => {
                &&& is_blank(before)
                &&& is_blank(after)
                &&& lhs.is_term()
                &&& rhs.is_term()
                &&& lhs.text()[0] != MINUS
            },
            _ => false,
        }
    }
}

/// Whether `text` stands in `s` at `i` as whole tokens: where it ends in a
/// digit, no digit follows it.
pub open spec fn stands_at(s: Seq<u8>, i: int, text: Seq<u8>) -> bool {
    &&& 0 <= i
    &&& i + text.len() <= s.len()
    &&& s.subrange(i, i + text.len()) == text
    &&& (text.len() > 0 && is_digit(text.last()) && i + text.len() < s.len()) ==> !is_digit(
        s[i + text.len()],
    )
}

/// A term starts with `-`, a digit or `(`, and ends in a digit or `)`.
pub proof fn lemma_term_ends(sp: Spelling)
    requires
        sp.is_term(),
    ensures
        sp.text().len() >= 1,
        sp.text()[0] == MINUS || is_digit(sp.text()[0]) || sp.text()[0] == OPEN,
        is_digit(sp.text().last()) || sp.text().last() == CLOSE,
{
    match sp {
        Spelling::Literal { token } => {
            lemma_literal_start(token);
            if token[0] == MINUS {
                assert(token.last() == token.skip(1).last());
            }
        },
        _ => {},
    }
}

/// An expression starts with a sign, a digit or `(`, with a sign just where
/// it is unary, and ends as its last term ends.
pub proof fn lemma_expression_ends(sp: Spelling)
    requires
        sp.is_expression(),
    ensures
        sp.text().len() >= 2,
        sign_of(sp.text()[0]) is Some || is_digit(sp.text()[0]) || sp.text()[0] == OPEN,
        sign_of(sp.text()[0]) is Some <==> sp is Unary,
        is_digit(sp.text().last()) || sp.text().last() == CLOSE,
{
    match sp {
        Spelling::Unary { op, gap, operand } => {
            lemma_term_ends(*operand);
            assert(sp.text()[0] == op.symbol());
            assert(sp.text().last() == operand.text().last());
        },
        Spelling::Binary { lhs, before, op, after, rhs } => {
            lemma_term_ends(*lhs);
            lemma_term_ends(*rhs);
            assert(sp.text()[0] == lhs.text()[0]);
            assert(sp.text().last() == rhs.text().last());
        },
        _ => {},
    }
}

/// Every spelling of a term is read as the term.
pub proof fn lemma_term_is_read(s: Seq<u8>, i: int, sp: Spelling)
    requires
        sp.is_term(),
        stands_at(s, i, sp.text()),
    ensures
        term_at(s, i) == Ok::<_, Mismatch>((sp.tree(), sp.text().len())),
    decreases sp, 1int,
{
    lemma_term_ends(sp);
    match sp {
        Spelling::Literal { token } => {
            lemma_literal_read(s, i, token);
        },
        Spelling::Group { before, inner, after } => {
            let body = inner.text();
            let at = i + 1 + before.len();
            lemma_expression_ends(*inner);
            lemma_five_parts(s, i, seq![OPEN], before, body, after, seq![CLOSE]);
            lemma_first_byte(s, i, seq![OPEN]);
            lemma_first_byte(s, at, body);
            lemma_first_byte(s, at + body.len() + after.len(), seq![CLOSE]);
            if after.len() > 0 {
                lemma_first_byte(s, at + body.len(), after);
            }
            lemma_blank_read(s, i + 1, before);
            lemma_expression_is_read(s, at, *inner);
            lemma_blank_read(s, at + body.len(), after);
            lemma_group_of_expression(s, i, before.len(), inner.tree(), body.len(), after.len());
        },
        _ => {},
    }
}

/// Every spelling of an expression is read as the expression.
pub proof fn lemma_expression_is_read(s: Seq<u8>, i: int, sp: Spelling)
    requires
        sp.is_expression(),
        stands_at(s, i, sp.text()),
    ensures
        expr_at(s, i) == Ok::<_, Mismatch>((sp.tree(), sp.text().len())),
    decreases sp, 0int,
{
    let none = Seq::<u8>::empty();
    lemma_expression_ends(sp);
    match sp {
        Spelling::Unary { op, gap, operand } => {
            let body = operand.text();
            let at = i + 1 + gap.len();
            lemma_term_ends(*operand);
            assert(sp.text() =~= seq![op.symbol()] + gap + body + none + none);
            assert(sp.text().last() == body.last());
            lemma_five_parts(s, i, seq![op.symbol()], gap, body, none, none);
            lemma_first_byte(s, i, seq![op.symbol()]);
            lemma_first_byte(s, at, body);
            lemma_blank_read(s, i + 1, gap);
            lemma_term_is_read(s, at, *operand);
            lemma_unary_of_operand(s, i, op, gap.len(), operand.tree(), body.len());
        },
        Spelling::Binary { lhs, before, op, after, rhs } => {
            let left = lhs.text();
            let right = rhs.text();
            let mid = i + left.len() + before.len();
            let at = mid + 1 + after.len();
            lemma_term_ends(*lhs);
            lemma_term_ends(*rhs);
            assert(sp.text().last() == right.last());
            lemma_five_parts(s, i, left, before, seq![op.symbol()], after, right);
            lemma_first_byte(s, i, left);
            lemma_first_byte(s, mid, seq![op.symbol()]);
            lemma_first_byte(s, at, right);
            if before.len() > 0 {
                lemma_first_byte(s, i + left.len(), before);
            }
            lemma_term_is_read(s, i, *lhs);
            lemma_blank_read(s, i + left.len(), before);
            lemma_blank_read(s, mid + 1, after);
            lemma_term_is_read(s, at, *rhs);
            lemma_binary_of_operands(
                s,
                i,
                lhs.tree(),
                left.len(),
                before.len(),
                op,
                after.len(),
                rhs.tree(),
                right.len(),
            );
        },
        _ => {},
    }
}

/// Whether `sp` spells the term `tree` in the `n` bytes of `s` from `i` on.
pub open spec fn spells_term(sp: Spelling, s: Seq<u8>, i: int, tree: Node, n: nat) -> bool {
    &&& sp.is_term()
    &&& sp.tree() == tree
    &&& sp.text().len() == n
    &&& stands_at(s, i, sp.text())
}

/// Whether `sp` spells the expression `tree` in the `n` bytes of `s` from `i`
/// on.
pub open spec fn spells_expression(sp: Spelling, s: Seq<u8>, i: int, tree: Node, n: nat) -> bool {
    &&& sp.is_expression()
    &&& sp.tree() == tree
    &&& sp.text().len() == n
    &&& stands_at(s, i, sp.text())
}

/// Parentheses around a spelled expression spell a term.
pub proof fn lemma_group_is_spelled(s: Seq<u8>, i: int, inner: Spelling, tree: Node, m: nat)
    requires
        0 <= i < s.len(),
        s[i] == OPEN,
        spells_expression(inner, s, i + 1 + spaces(s, i + 1), tree, m),
        term_at(s, i) is Ok,
    ensures
        term_at(s, i) matches Ok((read, n)) && read == tree && spells_term(
            Spelling::Group {
                before: s.subrange(i + 1, i + 1 + spaces(s, i + 1)),
                inner: Box::new(inner),
                after: s.subrange(
                    i + 1 + spaces(s, i + 1) + m,
                    i + 1 + spaces(s, i + 1) + m + spaces(s, i + 1 + spaces(s, i + 1) + m),
                ),
            },
            s,
            i,
            tree,
            n,
        ),
{
    let at = i + 1 + spaces(s, i + 1);
    lemma_expression_is_read(s, at, inner);
    lemma_spaces_are_blank(s, i + 1);
    lemma_spaces_are_blank(s, at + m);
    let close = at + m + spaces(s, at + m);
    let n = term_at(s, i)->Ok_0.1;
    let sp = Spelling::Group {
        before: s.subrange(i + 1, at),
        inner: Box::new(inner),
        after: s.subrange(at + m, close),
    };
    assert(sp.text() =~= s.subrange(i, i + n));
    assert(sp.text().last() == CLOSE);
}

/// A sign before a spelled term spells a unary expression.
pub proof fn lemma_unary_is_spelled(s: Seq<u8>, i: int, operand: Spelling, child: Node, m: nat)
    requires
        sign_at(s, i),
        spells_term(operand, s, i + 1 + spaces(s, i + 1), child, m),
    ensures
        expr_at(s, i) matches Ok((read, n)) && read == (Node::UnaryExpr {
            op: sign_of(s[i])->Some_0,
            child: Box::new(child),
        }) && spells_expression(
            Spelling::Unary {
                op: sign_of(s[i])->Some_0,
                gap: s.subrange(i + 1, i + 1 + spaces(s, i + 1)),
                operand: Box::new(operand),
            },
            s,
            i,
            read,
            n,
        ),
{
    let at = i + 1 + spaces(s, i + 1);
    let op = sign_of(s[i])->Some_0;
    lemma_term_is_read(s, at, operand);
    lemma_spaces_are_blank(s, i + 1);
    lemma_term_ends(operand);
    let sp = Spelling::Unary { op, gap: s.subrange(i + 1, at), operand: Box::new(operand) };
    assert(expr_at(s, i) == unary_at(s, i));
    assert(sp.text() =~= s.subrange(i, at + m));
    assert(sp.text().last() == operand.text().last());
}

/// Two spelled terms with a sign between them spell a binary expression.
pub proof fn lemma_binary_is_spelled(
    s: Seq<u8>,
    i: int,
    lhs: Spelling,
    left: Node,
    m: nat,
    rhs: Spelling,
    right: Node,
    k: nat,
)
    requires
        0 <= i < s.len(),
        !sign_at(s, i),
        spells_term(lhs, s, i, left, m),
        sign_at(s, i + m + spaces(s, i + m)),
        spells_term(
            rhs,
            s,
            i + m + spaces(s, i + m) + 1 + spaces(s, i + m + spaces(s, i + m) + 1),
            right,
            k,
        ),
    ensures
        expr_at(s, i) matches Ok((read, n)) && read == (Node::BinaryExpr {
            op: sign_of(s[i + m + spaces(s, i + m)])->Some_0,
            lhs: Box::new(left),
            rhs: Box::new(right),
        }) && spells_expression(
            Spelling::Binary {
                lhs: Box::new(lhs),
                before: s.subrange(i + m, i + m + spaces(s, i + m)),
                op: sign_of(s[i + m + spaces(s, i + m)])->Some_0,
                after: s.subrange(
                    i + m + spaces(s, i + m) + 1,
                    i + m + spaces(s, i + m) + 1 + spaces(s, i + m + spaces(s, i + m) + 1),
                ),
                rhs: Box::new(rhs),
            },
            s,
            i,
            read,
            n,
        ),
{
    let mid = i + m + spaces(s, i + m);
    let at = mid + 1 + spaces(s, mid + 1);
    let op = sign_of(s[mid])->Some_0;
    lemma_term_is_read(s, i, lhs);
    lemma_term_is_read(s, at, rhs);
    lemma_spaces_are_blank(s, i + m);
    lemma_spaces_are_blank(s, mid + 1);
    lemma_term_ends(lhs);
    lemma_term_ends(rhs);
    lemma_first_byte(s, i, lhs.text());
    let sp = Spelling::Binary {
        lhs: Box::new(lhs),
        before: s.subrange(i + m, mid),
        op,
        after: s.subrange(mid + 1, at),
        rhs: Box::new(rhs),
    };
    assert(expr_at(s, i) == binary_at(s, i));
    assert(sp.text() =~= s.subrange(i, at + k));
    assert(sp.text().last() == rhs.text().last());
}

/// A literal that is read is spelled by its own bytes.
pub proof fn lemma_literal_is_spelled(s: Seq<u8>, i: int)
    requires
        0 <= i <= s.len(),
    ensures
        literal_at(s, i) matches Ok((tree, n)) ==> spells_term(
            Spelling::Literal { token: s.subrange(i, i + n) },
            s,
            i,
            tree,
            n,
        ),
{
    if let Ok((tree, n)) = literal_at(s, i) {
        let sign: nat = if i < s.len() && s[i] == MINUS { 1 } else { 0 };
        lemma_digits_stay_inside(s, i + sign);
        let token = s.subrange(i, i + n);
        let d = s.subrange(i + sign, i + n);
        assert(literal_digits(token) =~= d);
        assert forall|k: int| 0 <= k < d.len() implies is_digit(#[trigger] d[k]) by {
            assert(d[k] == s[i + sign + k]);
        }
        if sign == 1 {
            assert(token.skip(1) =~= d);
        }
        assert(is_literal(token));
        assert(token.last() == d.last());
    }
}

/// What is read as a term is a spelling of it.
pub proof fn lemma_term_is_spelled(s: Seq<u8>, i: int)
    requires
        0 <= i <= s.len(),
    ensures
        term_at(s, i) matches Ok((tree, n)) ==> exists|sp: Spelling|
            spells_term(sp, s, i, tree, n),
    decreases s.len() - i, 0int,
{
    if let Ok((tree, n)) = term_at(s, i) {
        if s[i] == OPEN {
            lemma_spaces_stay_inside(s, i + 1);
            let at = i + 1 + spaces(s, i + 1);
            lemma_expr_is_spelled(s, at);
            let m = expr_at(s, at)->Ok_0.1;
            let inner = choose|sp: Spelling| spells_expression(sp, s, at, tree, m);
            lemma_group_is_spelled(s, i, inner, tree, m);
        } else {
            lemma_literal_is_spelled(s, i);
        }
    }
}

/// What is read as an expression is a spelling of it.
pub proof fn lemma_expr_is_spelled(s: Seq<u8>, i: int)
    requires
        0 <= i <= s.len(),
    ensures
        expr_at(s, i) matches Ok((tree, n)) ==> exists|sp: Spelling|
            spells_expression(sp, s, i, tree, n),
    decreases s.len() - i, 1int,
{
    if let Ok((tree, n)) = expr_at(s, i) {
        if sign_at(s, i) {
            lemma_spaces_stay_inside(s, i + 1);
            let at = i + 1 + spaces(s, i + 1);
            lemma_term_is_spelled(s, at);
            let (child, m) = term_at(s, at)->Ok_0;
            let operand = choose|sp: Spelling| spells_term(sp, s, at, child, m);
            lemma_unary_is_spelled(s, i, operand, child, m);
        } else {
            lemma_term_is_spelled(s, i);
            lemma_term_advances(s, i);
            let (left, m) = term_at(s, i)->Ok_0;
            let lhs = choose|sp: Spelling| spells_term(sp, s, i, left, m);
            lemma_spaces_stay_inside(s, i + m);
            let mid = i + m + spaces(s, i + m);
            lemma_spaces_stay_inside(s, mid + 1);
            let at = mid + 1 + spaces(s, mid + 1);
            lemma_term_is_spelled(s, at);
            let (right, k) = term_at(s, at)->Ok_0;
            let rhs = choose|sp: Spelling| spells_term(sp, s, at, right, k);
            lemma_binary_is_spelled(s, i, lhs, left, m, rhs, right, k);
        }
    }
}

/// The text of a program: each expression behind the whitespace that goes
/// before it, and the whitespace at the end.
pub open spec fn program_text(items: Seq<(Seq<u8>, Spelling)>, tail: Seq<u8>) -> Seq<u8>
    decreases items.len(),
{
    if items.len() == 0 {
        tail
    } else {
        items[0].0 + items[0].1.text() + program_text(items.drop_first(), tail)
    }
}

/// The trees of a program that is spelled out.
pub open spec fn program_trees(items: Seq<(Seq<u8>, Spelling)>) -> Seq<Node> {
    Seq::new(items.len(), |k: int| items[k].1.tree())
}

/// `Program := Expr* end-of-input`, with whitespace before every expression
/// and at the end. An expression that ends in a digit is not followed
/// directly by a digit: the two would be one literal.
pub open spec fn is_program(items: Seq<(Seq<u8>, Spelling)>, tail: Seq<u8>) -> bool
    decreases items.len(),
{
    if items.len() == 0 {
        is_blank(tail)
    } else {
        let rest = program_text(items.drop_first(), tail);
        &&& is_blank(items[0].0)
        &&& items[0].1.is_expression()
        &&& (is_digit(items[0].1.text().last()) && rest.len() > 0) ==> !is_digit(rest[0])
        &&& is_program(items.drop_first(), tail)
    }
}

/// Whether `items` and `tail` spell the trees `ast` in `s` from `i` to its
/// end.
pub open spec fn spells_program(
    items: Seq<(Seq<u8>, Spelling)>,
    tail: Seq<u8>,
    s: Seq<u8>,
    i: int,
    ast: Seq<Node>,
) -> bool {
    &&& is_program(items, tail)
    &&& program_text(items, tail) == s.subrange(i, s.len() as int)
    &&& program_trees(items) == ast
}

/// The trees of a program are the tree of its first expression and the
/// trees of the rest.
pub proof fn lemma_program_trees_step(items: Seq<(Seq<u8>, Spelling)>)
    requires
        items.len() > 0,
    ensures
        program_trees(items) == seq![items[0].1.tree()] + program_trees(items.drop_first()),
{
    assert(program_trees(items) =~= seq![items[0].1.tree()] + program_trees(
        items.drop_first(),
    ));
}

/// Every spelling of a program is read as its trees, from any offset.
pub proof fn lemma_program_is_read(
    s: Seq<u8>,
    i: int,
    items: Seq<(Seq<u8>, Spelling)>,
    tail: Seq<u8>,
)
    requires
        0 <= i <= s.len(),
        is_program(items, tail),
        program_text(items, tail) == s.subrange(i, s.len() as int),
    ensures
        program_at(s, i) == Ok::<_, Mismatch>(program_trees(items)),
    decreases items.len(),
{
    if items.len() == 0 {
        lemma_blank_read(s, i, tail);
        assert(program_trees(items) =~= Seq::<Node>::empty());
    } else {
        let gap = items[0].0;
        let sp = items[0].1;
        let text = sp.text();
        let rest = program_text(items.drop_first(), tail);
        let at = i + gap.len();
        let next = at + text.len();
        lemma_expression_ends(sp);
        assert(s.len() - i == gap.len() + text.len() + rest.len()) by {
            assert(s.subrange(i, s.len() as int).len() == (gap + text + rest).len());
        }
        lemma_three_parts(s, i, gap, text, rest);
        if rest.len() > 0 {
            lemma_first_byte(s, next, rest);
        }
        lemma_expression_is_read(s, at, sp);
        lemma_program_is_read(s, next, items.drop_first(), tail);
        lemma_program_step(s, i, gap, sp.tree(), text.len(), program_trees(items.drop_first()));
        lemma_program_trees_step(items);
    }
}

/// What is read as a program, from any offset, is a spelling of its trees.
pub proof fn lemma_program_is_spelled(s: Seq<u8>, i: int)
    requires
        0 <= i <= s.len(),
    ensures
        program_at(s, i) matches Ok(ast) ==> exists|
            items: Seq<(Seq<u8>, Spelling)>,
            tail: Seq<u8>,
        | spells_program(items, tail, s, i, ast),
    decreases s.len() - i,
{
    if let Ok(ast) = program_at(s, i) {
        let end = s.len() as int;
        lemma_spaces_stay_inside(s, i);
        lemma_spaces_are_blank(s, i);
        let at = i + spaces(s, i);
        let gap = s.subrange(i, at);
        if at >= s.len() {
            let items = Seq::<(Seq<u8>, Spelling)>::empty();
            assert(program_trees(items) =~= ast);
            assert(spells_program(items, gap, s, i, ast));
        } else {
            lemma_expr_is_spelled(s, at);
            lemma_expr_advances(s, at);
            let (tree, n) = expr_at(s, at)->Ok_0;
            let sp = choose|sp: Spelling| spells_expression(sp, s, at, tree, n);
            let next = at + n;
            lemma_program_is_spelled(s, next);
            let later = program_at(s, next)->Ok_0;
            let (more, tail) = choose|more: Seq<(Seq<u8>, Spelling)>, tail: Seq<u8>|
                spells_program(more, tail, s, next, later);
            let items = seq![(gap, sp)] + more;
            let rest = program_text(more, tail);
            assert(items.drop_first() =~= more);
            assert(program_text(items, tail) =~= s.subrange(i, end)) by {
                assert(gap + sp.text() + rest =~= s.subrange(i, end));
            }
            assert(rest.len() > 0 ==> rest[0] == s[at + n]);
            assert(program_trees(items) =~= seq![tree] + later);
            assert(spells_program(items, tail, s, i, ast));
        }
    }
}

/// Every spelling of a program is read as its trees.
pub proof fn theorem_every_spelling_is_read(items: Seq<(Seq<u8>, Spelling)>, tail: Seq<u8>)
    requires
        is_program(items, tail),
    ensures
        program(program_text(items, tail)) == Ok::<_, Mismatch>(program_trees(items)),
{
    let s = program_text(items, tail);
    assert(s.subrange(0, s.len() as int) =~= s);
    lemma_program_is_read(s, 0, items, tail);
}

/// Only the spellings of a program are read as it: a text that is a program
/// is made of expressions and whitespace as `is_program` says, and its trees
/// are theirs.
pub proof fn theorem_only_spellings_are_read(s: Seq<u8>)
    ensures
        program(s) matches Ok(ast) ==> exists|items: Seq<(Seq<u8>, Spelling)>, tail: Seq<u8>|
            is_program(items, tail) && program_text(items, tail) == s && program_trees(items)
                == ast,
{
    if let Ok(ast) = program(s) {
        lemma_program_is_spelled(s, 0);
        let start: int = 0;
        let (items, tail) = choose|items: Seq<(Seq<u8>, Spelling)>, tail: Seq<u8>|
            spells_program(items, tail, s, start, ast);
        assert(s.subrange(0, s.len() as int) =~= s);
        assert(is_program(items, tail) && program_text(items, tail) == s && program_trees(items)
            == ast);
    }
}

/// Whitespace alone spells the empty program.
pub proof fn lemma_program_of_none(tail: Seq<u8>)
    requires
        is_blank(tail),
    ensures
        is_program(Seq::empty(), tail),
        program_text(Seq::empty(), tail) == tail,
        program_trees(Seq::empty()) == Seq::<Node>::empty(),
{
    assert(program_trees(Seq::empty()) =~= Seq::<Node>::empty());
}

/// An expression before a program spells a program, unless the expression
/// ends in a digit and a digit follows it directly.
pub proof fn lemma_program_of_more(
    gap: Seq<u8>,
    sp: Spelling,
    items: Seq<(Seq<u8>, Spelling)>,
    tail: Seq<u8>,
)
    requires
        is_blank(gap),
        sp.is_expression(),
        is_program(items, tail),
        (is_digit(sp.text().last()) && program_text(items, tail).len() > 0) ==> !is_digit(
            program_text(items, tail)[0],
        ),
    ensures
        is_program(seq![(gap, sp)] + items, tail),
        program_text(seq![(gap, sp)] + items, tail) == gap + sp.text() + program_text(
            items,
            tail,
        ),
        program_trees(seq![(gap, sp)] + items) == seq![sp.tree()] + program_trees(items),
{
    let all = seq![(gap, sp)] + items;
    assert(all.drop_first() =~= items);
    assert(all[0] == (gap, sp));
    lemma_program_trees_step(all);
}

/// One expression with whitespace around it is a program of one tree.
pub proof fn theorem_one_expression_is_read(gap: Seq<u8>, sp: Spelling, tail: Seq<u8>)
    requires
        is_blank(gap),
        sp.is_expression(),
        is_blank(tail),
    ensures
        program(gap + sp.text() + tail) == Ok::<_, Mismatch>(seq![sp.tree()]),
{
    let none = Seq::<(Seq<u8>, Spelling)>::empty();
    lemma_program_of_none(tail);
    if tail.len() > 0 {
        assert(is_space(tail[0]));
    }
    lemma_program_of_more(gap, sp, none, tail);
    assert(seq![sp.tree()] + Seq::<Node>::empty() =~= seq![sp.tree()]);
    theorem_every_spelling_is_read(seq![(gap, sp)] + none, tail);
}

/// Two expressions with whitespace around them are a program of two trees,
/// unless the first ends in a digit and the second follows it directly with
/// a digit.
#[verifier::rlimit(30)]
pub proof fn theorem_two_expressions_are_read(
    gap: Seq<u8>,
    first: Spelling,
    between: Seq<u8>,
    second: Spelling,
    tail: Seq<u8>,
)
    requires
        is_blank(gap),
        first.is_expression(),
        is_blank(between),
        second.is_expression(),
        is_blank(tail),
        !(between.len() == 0 && is_digit(first.text().last()) && is_digit(second.text()[0])),
    ensures
        program(gap + first.text() + between + second.text() + tail) == Ok::<_, Mismatch>(
            seq![first.tree(), second.tree()],
        ),
{
    let none = Seq::<(Seq<u8>, Spelling)>::empty();
    let later = seq![(between, second)] + none;
    lemma_expression_ends(second);
    lemma_program_of_none(tail);
    if tail.len() > 0 {
        assert(is_space(tail[0]));
    }
    lemma_program_of_more(between, second, none, tail);
    let rest = program_text(later, tail);
    assert(rest == between + second.text() + tail);
    assert(is_digit(first.text().last()) ==> !is_digit(rest[0])) by {
        if between.len() > 0 {
            assert(rest[0] == between[0]);
            assert(is_space(between[0]));
        } else {
            assert(rest[0] == second.text()[0]);
        }
    }
    lemma_program_of_more(gap, first, later, tail);
    assert(gap + first.text() + rest =~= gap + first.text() + between + second.text() + tail);
    assert(seq![first.tree()] + (seq![second.tree()] + Seq::<Node>::empty()) =~= seq![
        first.tree(),
        second.tree(),
    ]);
    theorem_every_spelling_is_read(seq![(gap, first)] + later, tail);
}

/// A sign, whitespace and a literal spell a unary expression.
pub proof fn lemma_unary_of_literal(op: Operator, gap: Seq<u8>, token: Seq<u8>)
    requires
        is_blank(gap),
        is_literal(token),
    ensures
        ({
            let sp = Spelling::Unary {
                op,
                gap,
                operand: Box::new(Spelling::Literal { token }),
            };
            &&& sp.is_expression()
            &&& sp.text() == seq![op.symbol()] + gap + token
            &&& sp.tree() == Node::UnaryExpr {
                op,
                child: Box::new(Node::Int(literal_value(token) as i32)),
            }
        }),
{
    reveal_with_fuel(Spelling::is_term, 2);
    reveal_with_fuel(Spelling::text, 2);
    reveal_with_fuel(Spelling::tree, 2);
}

/// A literal without a sign, whitespace, a sign, whitespace and a literal
/// spell a binary expression.
pub proof fn lemma_binary_of_literals(
    a: Seq<u8>,
    before: Seq<u8>,
    op: Operator,
    after: Seq<u8>,
    b: Seq<u8>,
)
    requires
        is_literal(a),
        a[0] != MINUS,
        is_blank(before),
        is_blank(after),
        is_literal(b),
    ensures
        ({
            let sp = Spelling::Binary {
                lhs: Box::new(Spelling::Literal { token: a }),
                before,
                op,
                after,
                rhs: Box::new(Spelling::Literal { token: b }),
            };
            &&& sp.is_expression()
            &&& sp.text() == a + before + seq![op.symbol()] + after + b
            &&& sp.tree() == Node::BinaryExpr {
                op,
                lhs: Box::new(Node::Int(literal_value(a) as i32)),
                rhs: Box::new(Node::Int(literal_value(b) as i32)),
            }
        }),
{
    reveal_with_fuel(Spelling::is_term, 2);
    reveal_with_fuel(Spelling::text, 2);
    reveal_with_fuel(Spelling::tree, 2);
}

/// An expression between parentheses, with whitespace inside them, spells a
/// term.
pub proof fn lemma_group_of_spelling(before: Seq<u8>, inner: Spelling, after: Seq<u8>)
    requires
        is_blank(before),
        inner.is_expression(),
        is_blank(after),
    ensures
        ({
            let sp = Spelling::Group { before, inner: Box::new(inner), after };
            &&& sp.is_term()
            &&& sp.text() == seq![OPEN] + before + inner.text() + after + seq![CLOSE]
            &&& sp.tree() == inner.tree()
        }),
{
}

/// A sign, whitespace and a term spell a unary expression.
pub proof fn lemma_unary_of_spelling(op: Operator, gap: Seq<u8>, operand: Spelling)
    requires
        is_blank(gap),
        operand.is_term(),
    ensures
        ({
            let sp = Spelling::Unary { op, gap, operand: Box::new(operand) };
            &&& sp.is_expression()
            &&& sp.text() == seq![op.symbol()] + gap + operand.text()
            &&& sp.tree() == Node::UnaryExpr { op, child: Box::new(operand.tree()) }
        }),
{
}

} // verus!
