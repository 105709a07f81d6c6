//! The five shape evaluators: one candidate each, worth a text if it hits
//! the target.

use crate::expr::{leaf, node, shaped, Expr, Shape};
use crate::rational::{apply_op, lemma_sized_combine, sized, Rational, TARGET};
use crate::render::{is_operator, push_close, push_open, push_operand, push_operator};
use vstd::prelude::*;

verus! {

/// What evaluating the candidate `e` gives: its text if it hits the
/// target, nothing otherwise.
pub open spec fn outcome(e: Expr) -> Option<Seq<char>> {
    if e.hits_target() {
        Some(e.text())
    } else {
        None
    }
}

/// The optional string `r` is the outcome of the candidate `e`.
pub open spec fn is_outcome(r: Option<String>, e: Expr) -> bool {
    match r {
        Some(s) => outcome(e) == Some(s@),
        None => outcome(e) is None,
    }
}

/// The optional fraction `r` is the value of `e`, and small enough for an
/// expression of `k` operands.
spec fn holds_value(r: Option<Rational>, e: Expr, k: nat) -> bool {
    match r {
        Some(v) => e.value() == Some(v@) && sized(v@, k),
        None => e.value() is None,
    }
}

fn operand(perm: &[i32], i: usize) -> (r: Option<Rational>)
    requires
        i < perm@.len(),
    ensures
        holds_value(r, leaf(perm@, i as int), 1),
{
    Some(Rational::from_int(perm[i]))
}

/// Applies `op` to two sub-results, each of which may have been rejected
/// already: a rejection on either side rejects the whole.
fn combine(
    x: Option<Rational>,
    y: Option<Rational>,
    op: char,
    Ghost(left): Ghost<Expr>,
    Ghost(right): Ghost<Expr>,
    Ghost(i): Ghost<nat>,
    Ghost(j): Ghost<nat>,
) -> (r: Option<Rational>)
    requires
        holds_value(x, left, i),
        holds_value(y, right, j),
        1 <= i,
        1 <= j,
        i + j <= 4,
    ensures
        holds_value(r, node(left, op, right), i + j),
{
    match (x, y) {
        (Some(a), Some(b)) => {
            proof {
                lemma_sized_combine(a@, i, b@, j, op);
            }
            apply_op(a, b, op)
        },
        _ => None,
    }
}

/// Whether a final value exists and lies within EPSILON of the target.
fn reaches_target(x: Option<Rational>, Ghost(e): Ghost<Expr>) -> (b: bool)
    requires
        holds_value(x, e, 4),
    ensures
        b == e.hits_target(),
{
    match x {
        Some(v) => v.is_close_to(TARGET),
        None => false,
    }
}

/// A candidate that has a value is built from operators only.
proof fn lemma_valued_ops(left: Expr, op: char, right: Expr)
    requires
        node(left, op, right).value() is Some,
    ensures
        is_operator(op),
        left.value() is Some,
        right.value() is Some,
{
}

/// The shape `(a op1 b) op2 (c op3 d)`: its text if the candidate over the
/// four operands of `perm` hits the target.
pub fn try_struct1(perm: &[i32], op1: char, op2: char, op3: char) -> (r: Option<String>)
    requires
        perm@.len() == 4,
    ensures
        is_outcome(r, shaped(Shape::Pairs, perm@, op1, op2, op3)),
{
    let ghost a = leaf(perm@, 0);
    let ghost b = leaf(perm@, 1);
    let ghost c = leaf(perm@, 2);
    let ghost d = leaf(perm@, 3);
    let ghost e = shaped(Shape::Pairs, perm@, op1, op2, op3);
    let first = combine(
        operand(perm, 0),
        operand(perm, 1),
        op1,
        Ghost(a),
        Ghost(b),
        Ghost(1),
        Ghost(1),
    );
    let second = combine(
        operand(perm, 2),
        operand(perm, 3),
        op3,
        Ghost(c),
        Ghost(d),
        Ghost(1),
        Ghost(1),
    );
    let result = combine(
        first,
        second,
        op2,
        Ghost(node(a, op1, b)),
        Ghost(node(c, op3, d)),
        Ghost(2),
        Ghost(2),
    );
    if reaches_target(result, Ghost(e)) {
        proof {
            lemma_valued_ops(node(a, op1, b), op2, node(c, op3, d));
            lemma_valued_ops(a, op1, b);
            lemma_valued_ops(c, op3, d);
        }
        let mut s = String::new();
        push_open(&mut s);
        push_operand(&mut s, perm[0]);
        push_operator(&mut s, op1);
        push_operand(&mut s, perm[1]);
        push_close(&mut s);
        push_operator(&mut s, op2);
        push_open(&mut s);
        push_operand(&mut s, perm[2]);
        push_operator(&mut s, op3);
        push_operand(&mut s, perm[3]);
        push_close(&mut s);
        proof {
            reveal_with_fuel(Expr::text, 3);
            assert(s@ =~= e.text());
        }
        Some(s)
    } else {
        None
    }
}

/// The shape `((a op1 b) op2 c) op3 d`: its text if the candidate over the
/// four operands of `perm` hits the target.
pub fn try_struct2(perm: &[i32], op1: char, op2: char, op3: char) -> (r: Option<String>)
    requires
        perm@.len() == 4,
    ensures
        is_outcome(r, shaped(Shape::LeftChain, perm@, op1, op2, op3)),
{
    let ghost a = leaf(perm@, 0);
    let ghost b = leaf(perm@, 1);
    let ghost c = leaf(perm@, 2);
    let ghost d = leaf(perm@, 3);
    let ghost e = shaped(Shape::LeftChain, perm@, op1, op2, op3);
    let first = combine(
        operand(perm, 0),
        operand(perm, 1),
        op1,
        Ghost(a),
        Ghost(b),
        Ghost(1),
        Ghost(1),
    );
    let second = combine(
        first,
        operand(perm, 2),
        op2,
        Ghost(node(a, op1, b)),
        Ghost(c),
        Ghost(2),
        Ghost(1),
    );
    let result = combine(
        second,
        operand(perm, 3),
        op3,
        Ghost(node(node(a, op1, b), op2, c)),
        Ghost(d),
        Ghost(3),
        Ghost(1),
    );
    if reaches_target(result, Ghost(e)) {
        proof {
            lemma_valued_ops(node(node(a, op1, b), op2, c), op3, d);
            lemma_valued_ops(node(a, op1, b), op2, c);
            lemma_valued_ops(a, op1, b);
        }
        let mut s = String::new();
        push_open(&mut s);
        push_open(&mut s);
        push_operand(&mut s, perm[0]);
        push_operator(&mut s, op1);
        push_operand(&mut s, perm[1]);
        push_close(&mut s);
        push_operator(&mut s, op2);
        push_operand(&mut s, perm[2]);
        push_close(&mut s);
        push_operator(&mut s, op3);
        push_operand(&mut s, perm[3]);
        proof {
            reveal_with_fuel(Expr::text, 4);
            assert(s@ =~= e.text());
        }
        Some(s)
    } else {
        None
    }
}

/// The shape `a op1 (b op2 (c op3 d))`: its text if the candidate over the
/// four operands of `perm` hits the target.
pub fn try_struct3(perm: &[i32], op1: char, op2: char, op3: char) -> (r: Option<String>)
    requires
        perm@.len() == 4,
    ensures
        is_outcome(r, shaped(Shape::RightChain, perm@, op1, op2, op3)),
{
    let ghost a = leaf(perm@, 0);
    let ghost b = leaf(perm@, 1);
    let ghost c = leaf(perm@, 2);
    let ghost d = leaf(perm@, 3);
    let ghost e = shaped(Shape::RightChain, perm@, op1, op2, op3);
    let first = combine(
        operand(perm, 2),
        operand(perm, 3),
        op3,
        Ghost(c),
        Ghost(d),
        Ghost(1),
        Ghost(1),
    );
    let second = combine(
        operand(perm, 1),
        first,
        op2,
        Ghost(b),
        Ghost(node(c, op3, d)),
        Ghost(1),
        Ghost(2),
    );
    let result = combine(
        operand(perm, 0),
        second,
        op1,
        Ghost(a),
        Ghost(node(b, op2, node(c, op3, d))),
        Ghost(1),
        Ghost(3),
    );
    if reaches_target(result, Ghost(e)) {
        proof {
            lemma_valued_ops(a, op1, node(b, op2, node(c, op3, d)));
            lemma_valued_ops(b, op2, node(c, op3, d));
            lemma_valued_ops(c, op3, d);
        }
        let mut s = String::new();
        push_operand(&mut s, perm[0]);
        push_operator(&mut s, op1);
        push_open(&mut s);
        push_operand(&mut s, perm[1]);
        push_operator(&mut s, op2);
        push_open(&mut s);
        push_operand(&mut s, perm[2]);
        push_operator(&mut s, op3);
        push_operand(&mut s, perm[3]);
        push_close(&mut s);
        push_close(&mut s);
        proof {
            reveal_with_fuel(Expr::text, 4);
            assert(s@ =~= e.text());
        }
        Some(s)
    } else {
        None
    }
}

/// The shape `(a op1 (b op2 c)) op3 d`: its text if the candidate over the
/// four operands of `perm` hits the target.
pub fn try_struct4(perm: &[i32], op1: char, op2: char, op3: char) -> (r: Option<String>)
    requires
        perm@.len() == 4,
    ensures
        is_outcome(r, shaped(Shape::InnerLeft, perm@, op1, op2, op3)),
{
    let ghost a = leaf(perm@, 0);
    let ghost b = leaf(perm@, 1);
    let ghost c = leaf(perm@, 2);
    let ghost d = leaf(perm@, 3);
    let ghost e = shaped(Shape::InnerLeft, perm@, op1, op2, op3);
    let first = combine(
        operand(perm, 1),
        operand(perm, 2),
        op2,
        Ghost(b),
        Ghost(c),
        Ghost(1),
        Ghost(1),
    );
    let second = combine(
        operand(perm, 0),
        first,
        op1,
        Ghost(a),
        Ghost(node(b, op2, c)),
        Ghost(1),
        Ghost(2),
    );
    let result = combine(
        second,
        operand(perm, 3),
        op3,
        Ghost(node(a, op1, node(b, op2, c))),
        Ghost(d),
        Ghost(3),
        Ghost(1),
    );
    if reaches_target(result, Ghost(e)) {
        proof {
            lemma_valued_ops(node(a, op1, node(b, op2, c)), op3, d);
            lemma_valued_ops(a, op1, node(b, op2, c));
            lemma_valued_ops(b, op2, c);
        }
        let mut s = String::new();
        push_open(&mut s);
        push_operand(&mut s, perm[0]);
        push_operator(&mut s, op1);
        push_open(&mut s);
        push_operand(&mut s, perm[1]);
        push_operator(&mut s, op2);
        push_operand(&mut s, perm[2]);
        push_close(&mut s);
        push_close(&mut s);
        push_operator(&mut s, op3);
        push_operand(&mut s, perm[3]);
        proof {
            reveal_with_fuel(Expr::text, 4);
            assert(s@ =~= e.text());
        }
        Some(s)
    } else {
        None
    }
}

/// The shape `a op1 ((b op2 c) op3 d)`: its text if the candidate over the
/// four operands of `perm` hits the target.
pub fn try_struct5(perm: &[i32], op1: char, op2: char, op3: char) -> (r: Option<String>)
    requires
        perm@.len() == 4,
    ensures
        is_outcome(r, shaped(Shape::InnerRight, perm@, op1, op2, op3)),
{
    let ghost a = leaf(perm@, 0);
    let ghost b = leaf(perm@, 1);
    let ghost c = leaf(perm@, 2);
    let ghost d = leaf(perm@, 3);
    let ghost e = shaped(Shape::InnerRight, perm@, op1, op2, op3);
    let first = combine(
        operand(perm, 1),
        operand(perm, 2),
        op2,
        Ghost(b),
        Ghost(c),
        Ghost(1),
        Ghost(1),
    );
    let second = combine(
        first,
        operand(perm, 3),
        op3,
        Ghost(node(b, op2, c)),
        Ghost(d),
        Ghost(2),
        Ghost(1),
    );
    let result = combine(
        operand(perm, 0),
        second,
        op1,
        Ghost(a),
        Ghost(node(node(b, op2, c), op3, d)),
        Ghost(1),
        Ghost(3),
    );
    if reaches_target(result, Ghost(e)) {
        proof {
            lemma_valued_ops(a, op1, node(node(b, op2, c), op3, d));
            lemma_valued_ops(node(b, op2, c), op3, d);
            lemma_valued_ops(b, op2, c);
        }
        let mut s = String::new();
        push_operand(&mut s, perm[0]);
        push_operator(&mut s, op1);
        push_open(&mut s);
        push_open(&mut s);
        push_operand(&mut s, perm[1]);
        push_operator(&mut s, op2);
        push_operand(&mut s, perm[2]);
        push_close(&mut s);
        push_operator(&mut s, op3);
        push_operand(&mut s, perm[3]);
        push_close(&mut s);
        proof {
            reveal_with_fuel(Expr::text, 4);
            assert(s@ =~= e.text());
        }
        Some(s)
    } else {
        None
    }
}

} // verus!
