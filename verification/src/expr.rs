//! Expression trees: what a candidate is worth and how it is written.

use crate::rational::{applied, lemma_applied_defined, Ratio, TARGET};
use crate::render::{decimal, is_operator, spaced};
use vstd::prelude::*;

verus! {

/// An arithmetic expression over whole operands. The operator of a node is
/// any character; one that is not among `+ - * /` makes the node worthless.
pub enum Expr {
    Leaf(int),
    Node(Box<Expr>, char, Box<Expr>),
}

/// The expression `left op right`.
pub open spec fn node(left: Expr, op: char, right: Expr) -> Expr {
    Expr::Node(Box::new(left), op, Box::new(right))
}

/// The text `t` of the operand `e`, in parentheses unless `e` is a leaf.
pub open spec fn enclosed(e: Expr, t: Seq<char>) -> Seq<char> {
    if e is Leaf {
        t
    } else {
        seq!['('] + t + seq![')']
    }
}

impl Expr {
    /// The exact value, computed bottom-up with the evaluator. It is `None`
    /// as soon as the evaluator rejects any node of the tree.
    pub open spec fn value(self) -> Option<Ratio>
        decreases self,
    {
        match self {
            Expr::Leaf(n) => Some(Ratio::whole(n)),
            Expr::Node(left, op, right) => match (left.value(), right.value()) {
                (Some(a), Some(b)) => applied(a, b, op),
                _ => None,
            },
        }
    }

    /// The expression has a value, and it lies within EPSILON of the target.
    pub open spec fn hits_target(self) -> bool {
        self.value() matches Some(v) && v.close_to(TARGET as int)
    }

    /// The infix text: operands in decimal, every operator between two
    /// spaces, every inner node in parentheses and the outermost one bare.
    pub open spec fn text(self) -> Seq<char>
        decreases self,
    {
        match self {
            Expr::Leaf(n) => decimal(n),
            Expr::Node(left, op, right) => enclosed(*left, left.text()) + spaced(op) + enclosed(
                *right,
                right.text(),
            ),
        }
    }

    /// Every operator in the tree is one of `+ - * /`.
    pub open spec fn well_formed(self) -> bool
        decreases self,
    {
        match self {
            Expr::Leaf(_) => true,
            Expr::Node(left, op, right) => {
                &&& is_operator(op)
                &&& left.well_formed()
                &&& right.well_formed()
            },
        }
    }

    /// Every division in the tree has a divisor with a value that lies
    /// further than EPSILON from zero.
    pub open spec fn divisions_guarded(self) -> bool
        decreases self,
    {
        match self {
            Expr::Leaf(_) => true,
            Expr::Node(left, op, right) => {
                &&& left.divisions_guarded()
                &&& right.divisions_guarded()
                &&& op == '/' ==> (right.value() matches Some(b) && !b.negligible())
            },
        }
    }
}

/// The value of an expression is a fraction with a denominator other than
/// zero.
pub proof fn lemma_value_defined(e: Expr)
    ensures
        e.value() matches Some(v) ==> v.defined(),
    decreases e,
{
    match e {
        Expr::Leaf(_) => {},
        Expr::Node(left, op, right) => {
            lemma_value_defined(*left);
            lemma_value_defined(*right);
            if left.value() is Some && right.value() is Some {
                lemma_applied_defined(left.value().unwrap(), right.value().unwrap(), op);
            }
        },
    }
}

/// An expression that has a value divides nowhere by a number within
/// EPSILON of zero: a rejected division anywhere discards the whole tree.
pub proof fn lemma_valued_is_guarded(e: Expr)
    requires
        e.value() is Some,
    ensures
        e.divisions_guarded(),
    decreases e,
{
    match e {
        Expr::Leaf(_) => {},
        Expr::Node(left, op, right) => {
            lemma_valued_is_guarded(*left);
            lemma_valued_is_guarded(*right);
        },
    }
}

/// The five ways to parenthesise four operands `a b c d` in this order.
pub enum Shape {
    /// `(a . b) . (c . d)`
    Pairs,
    /// `((a . b) . c) . d`
    LeftChain,
    /// `a . (b . (c . d))`
    RightChain,
    /// `(a . (b . c)) . d`
    InnerLeft,
    /// `a . ((b . c) . d)`
    InnerRight,
}

/// The operand at position `i` of `p` as a leaf.
pub open spec fn leaf(p: Seq<i32>, i: int) -> Expr {
    Expr::Leaf(p[i] as int)
}

/// The candidate of the given shape over the operands `p[0..4]`, with
/// `op1`, `op2`, `op3` between them from left to right.
pub open spec fn shaped(shape: Shape, p: Seq<i32>, op1: char, op2: char, op3: char) -> Expr {
    let a = leaf(p, 0);
    let b = leaf(p, 1);
    let c = leaf(p, 2);
    let d = leaf(p, 3);
    match shape {
        Shape::Pairs => node(node(a, op1, b), op2, node(c, op3, d)),
        Shape::LeftChain => node(node(node(a, op1, b), op2, c), op3, d),
        Shape::RightChain => node(a, op1, node(b, op2, node(c, op3, d))),
        Shape::InnerLeft => node(node(a, op1, node(b, op2, c)), op3, d),
        Shape::InnerRight => node(a, op1, node(node(b, op2, c), op3, d)),
    }
}

/// A candidate: four operands in a fixed order, a shape, and the three
/// operators that stand between the operands from left to right.
pub struct Candidate {
    pub operands: Seq<i32>,
    pub shape: Shape,
    pub op1: char,
    pub op2: char,
    pub op3: char,
}

impl Candidate {
    /// The expression that the candidate stands for.
    pub open spec fn expr(self) -> Expr {
        shaped(self.shape, self.operands, self.op1, self.op2, self.op3)
    }

    /// All three operators are among `+ - * /`.
    pub open spec fn has_operators(self) -> bool {
        is_operator(self.op1) && is_operator(self.op2) && is_operator(self.op3)
    }
}

/// A candidate that has a value is written with operators only.
pub proof fn lemma_valued_has_operators(c: Candidate)
    requires
        c.expr().value() is Some,
    ensures
        c.has_operators(),
{
    reveal_with_fuel(Expr::value, 4);
}

/// An expression that has a value is well formed.
pub proof fn lemma_valued_is_well_formed(e: Expr)
    requires
        e.value() is Some,
    ensures
        e.well_formed(),
    decreases e,
{
    match e {
        Expr::Leaf(_) => {},
        Expr::Node(left, op, right) => {
            lemma_valued_is_well_formed(*left);
            lemma_valued_is_well_formed(*right);
        },
    }
}

} // verus!
