//! Exact fractions and the evaluator that combines two of them.

use vstd::prelude::*;

verus! {

/// The value every solution has to reach.
pub const TARGET: i128 = 24;

/// The tolerance EPSILON is one over this number: a millionth.
pub const EPSILON_INVERSE: i128 = 1_000_000;

/// Absolute value of a mathematical integer.
pub open spec fn magnitude(x: int) -> int {
    if x < 0 {
        -x
    } else {
        x
    }
}

/// A fraction `num / den` of mathematical integers. It denotes a number
/// whenever `den` is not zero; it is never reduced to lowest terms.
pub struct Ratio {
    pub num: int,
    pub den: int,
}

impl Ratio {
    /// The fraction `n / 1`.
    pub open spec fn whole(n: int) -> Ratio {
        Ratio { num: n, den: 1 }
    }

    /// The fraction denotes a number.
    pub open spec fn defined(self) -> bool {
        self.den != 0
    }

    /// `self + other`.
    pub open spec fn plus(self, other: Ratio) -> Ratio {
        Ratio { num: self.num * other.den + other.num * self.den, den: self.den * other.den }
    }

    /// `self - other`.
    pub open spec fn minus(self, other: Ratio) -> Ratio {
        Ratio { num: self.num * other.den - other.num * self.den, den: self.den * other.den }
    }

    /// `self * other`.
    pub open spec fn times(self, other: Ratio) -> Ratio {
        Ratio { num: self.num * other.num, den: self.den * other.den }
    }

    /// `self / other`.
    pub open spec fn over(self, other: Ratio) -> Ratio {
        Ratio { num: self.num * other.den, den: self.den * other.num }
    }

    /// `|self| <= EPSILON`, that is `|num| * 1_000_000 <= |den|`.
    pub open spec fn negligible(self) -> bool {
        magnitude(self.num) * EPSILON_INVERSE <= magnitude(self.den)
    }

    /// `|self - target| <= EPSILON`.
    pub open spec fn close_to(self, target: int) -> bool {
        self.minus(Ratio::whole(target)).negligible()
    }

    /// The two fractions denote the same number.
    pub open spec fn same_value(self, other: Ratio) -> bool {
        self.num * other.den == other.num * self.den
    }

    /// Every product that combining `self` with `other` can form fits in
    /// an `i128`, whichever operator is applied.
    pub open spec fn combines_with(self, other: Ratio) -> bool {
        &&& magnitude(self.num * other.den) + magnitude(other.num * self.den) <= i128::MAX
        &&& magnitude(self.num * other.num) <= i128::MAX
        &&& magnitude(self.den * other.den) <= i128::MAX
    }
}

/// What the evaluator yields for `a op b`: the sum, difference or product,
/// the quotient unless the divisor is within EPSILON of zero, and nothing
/// for such a divisor or for a character that is no operator.
pub open spec fn applied(a: Ratio, b: Ratio, op: char) -> Option<Ratio> {
    if op == '+' {
        Some(a.plus(b))
    } else if op == '-' {
        Some(a.minus(b))
    } else if op == '*' {
        Some(a.times(b))
    } else if op == '/' && !b.negligible() {
        Some(a.over(b))
    } else {
        None
    }
}

/// What the evaluator yields for fractions with denominators other than
/// zero has a denominator other than zero.
pub proof fn lemma_applied_defined(a: Ratio, b: Ratio, op: char)
    requires
        a.defined(),
        b.defined(),
    ensures
        applied(a, b, op) matches Some(v) ==> v.defined(),
{
    assert(a.den * b.den != 0) by (nonlinear_arith)
        requires
            a.den != 0,
            b.den != 0,
    ;
    if op == '/' && !b.negligible() {
        assert(b.num != 0);
        assert(a.den * b.num != 0) by (nonlinear_arith)
            requires
                a.den != 0,
                b.num != 0,
        ;
    }
}

/// Whole numbers are added, subtracted and multiplied as integers are,
/// and the quotient of two of them is the fraction of the two.
pub proof fn lemma_whole_arithmetic(a: int, b: int)
    ensures
        Ratio::whole(a).plus(Ratio::whole(b)) == Ratio::whole(a + b),
        Ratio::whole(a).minus(Ratio::whole(b)) == Ratio::whole(a - b),
        Ratio::whole(a).times(Ratio::whole(b)) == Ratio::whole(a * b),
        Ratio::whole(a).over(Ratio::whole(b)) == (Ratio { num: a, den: b }),
{
    assert(a * 1 == a && b * 1 == b && 1 * b == b && 1 * 1 == 1) by (nonlinear_arith);
}

/// The operations go by the number a fraction denotes, not by how it is
/// written: fractions of the same value give results of the same value,
/// and are within EPSILON of zero together or not at all.
pub proof fn lemma_value_respected(a: Ratio, b: Ratio, c: Ratio, d: Ratio)
    requires
        a.defined() && b.defined() && c.defined() && d.defined(),
        a.same_value(c),
        b.same_value(d),
    ensures
        a.plus(b).same_value(c.plus(d)),
        a.minus(b).same_value(c.minus(d)),
        a.times(b).same_value(c.times(d)),
        a.over(b).same_value(c.over(d)),
        a.negligible() == c.negligible(),
{
    let (an, ad, bn, bd) = (a.num, a.den, b.num, b.den);
    let (cn, cd, dn, dd) = (c.num, c.den, d.num, d.den);
    assert((an * bd) * (cd * dd) == (cn * dd) * (ad * bd)) by (nonlinear_arith)
        requires
            an * cd == cn * ad,
    ;
    assert((bn * ad) * (cd * dd) == (dn * cd) * (ad * bd)) by (nonlinear_arith)
        requires
            bn * dd == dn * bd,
    ;
    assert((an * bd + bn * ad) * (cd * dd) == (cn * dd + dn * cd) * (ad * bd)) by (nonlinear_arith)
        requires
            (an * bd) * (cd * dd) == (cn * dd) * (ad * bd),
            (bn * ad) * (cd * dd) == (dn * cd) * (ad * bd),
    ;
    assert((an * bd - bn * ad) * (cd * dd) == (cn * dd - dn * cd) * (ad * bd)) by (nonlinear_arith)
        requires
            (an * bd) * (cd * dd) == (cn * dd) * (ad * bd),
            (bn * ad) * (cd * dd) == (dn * cd) * (ad * bd),
    ;
    assert((an * bn) * (cd * dd) == (cn * dn) * (ad * bd)) by (nonlinear_arith)
        requires
            an * cd == cn * ad,
            bn * dd == dn * bd,
    ;
    assert((an * bd) * (cd * dn) == (cn * dd) * (ad * bn)) by (nonlinear_arith)
        requires
            an * cd == cn * ad,
            bn * dd == dn * bd,
    ;
    lemma_negligible_respected(a, c);
}

proof fn lemma_negligible_respected(a: Ratio, c: Ratio)
    requires
        a.defined(),
        c.defined(),
        a.same_value(c),
    ensures
        a.negligible() == c.negligible(),
{
    let (n, d, m, e) = (magnitude(a.num), magnitude(a.den), magnitude(c.num), magnitude(c.den));
    assert(n * e == m * d) by (nonlinear_arith)
        requires
            a.num * c.den == c.num * a.den,
            n == magnitude(a.num),
            d == magnitude(a.den),
            m == magnitude(c.num),
            e == magnitude(c.den),
    ;
    let k = EPSILON_INVERSE as int;
    assert((n * k <= d) == (m * k <= e)) by (nonlinear_arith)
        requires
            n * e == m * d,
            d > 0,
            e > 0,
            n >= 0,
            m >= 0,
            k > 0,
    ;
}

/// `2^(31 * k)` for `k` up to four: the largest magnitude that a product
/// of `k` operands of 32 bits can have.
pub open spec fn cap(k: nat) -> int {
    if k == 0 {
        1
    } else if k == 1 {
        0x8000_0000
    } else if k == 2 {
        0x4000_0000_0000_0000
    } else if k == 3 {
        0x2000_0000_0000_0000_0000_0000
    } else {
        0x1000_0000_0000_0000_0000_0000_0000_0000
    }
}

/// `v` is no larger than a fraction built from `k` operands of 32 bits
/// can be: its numerator is within `cap(k)`, and its denominator is not
/// zero and within `cap(k - 1)`.
pub open spec fn sized(v: Ratio, k: nat) -> bool {
    &&& 1 <= k <= 4
    &&& magnitude(v.num) <= cap(k)
    &&& 1 <= magnitude(v.den) <= cap((k - 1) as nat)
}

proof fn lemma_product_within(x: int, y: int, bx: int, by: int)
    requires
        magnitude(x) <= bx,
        magnitude(y) <= by,
    ensures
        magnitude(x * y) <= bx * by,
        x != 0 && y != 0 ==> x * y != 0,
{
    assert(magnitude(x * y) == magnitude(x) * magnitude(y)) by (nonlinear_arith);
    assert(magnitude(x) * magnitude(y) <= bx * by) by (nonlinear_arith)
        requires
            0 <= magnitude(x) <= bx,
            0 <= magnitude(y) <= by,
    ;
    assert(x != 0 && y != 0 ==> x * y != 0) by (nonlinear_arith);
}

proof fn lemma_cap_product(i: nat, j: nat)
    requires
        i + j <= 4,
    ensures
        cap(i) * cap(j) == cap(i + j),
{
    assert(cap(0) == 1 && cap(1) * cap(1) == cap(2) && cap(1) * cap(2) == cap(3));
    assert(cap(2) * cap(1) == cap(3) && cap(1) * cap(3) == cap(4) && cap(3) * cap(1) == cap(4));
    assert(cap(2) * cap(2) == cap(4));
}

/// Fractions built from `i` and from `j` operands, `i + j` of them at most
/// four, combine without overflow, and what the evaluator yields for them
/// is a fraction built from `i + j` operands.
pub proof fn lemma_sized_combine(a: Ratio, i: nat, b: Ratio, j: nat, op: char)
    requires
        sized(a, i),
        sized(b, j),
        i + j <= 4,
    ensures
        a.combines_with(b),
        applied(a, b, op) matches Some(v) ==> sized(v, i + j),
{
    let i1 = (i - 1) as nat;
    let j1 = (j - 1) as nat;
    lemma_product_within(a.num, b.den, cap(i), cap(j1));
    lemma_product_within(b.num, a.den, cap(j), cap(i1));
    lemma_product_within(a.num, b.num, cap(i), cap(j));
    lemma_product_within(a.den, b.den, cap(i1), cap(j1));
    lemma_product_within(a.den, b.num, cap(i1), cap(j));
    lemma_cap_product(i, j1);
    lemma_cap_product(j, i1);
    lemma_cap_product(i, j);
    lemma_cap_product(i1, j1);
    lemma_cap_product(i1, j);
    assert(cap(j) * cap(i1) == cap(i1) * cap(j)) by (nonlinear_arith);
    assert(b.num * a.den == a.den * b.num) by (nonlinear_arith);
    assert(2 * cap((i + j - 1) as nat) <= cap(i + j));
    assert(cap((i + j - 2) as nat) <= cap((i + j - 1) as nat) <= cap(i + j));
}

/// An exact fraction held in machine integers.
#[derive(Clone, Copy, Debug, PartialEq, Eq, Structural)]
pub struct Rational {
    pub num: i128,
    pub den: i128,
}

impl View for Rational {
    type V = Ratio;

    open spec fn view(&self) -> Ratio {
        Ratio { num: self.num as int, den: self.den as int }
    }
}

/// Absolute value of a machine integer, widened so that the least one fits.
fn magnitude_of(x: i128) -> (m: u128)
    ensures
        m == magnitude(x as int),
{
    if x == i128::MIN {
        170141183460469231731687303715884105728u128
    } else if x < 0 {
        (-x) as u128
    } else {
        x as u128
    }
}

impl Rational {
    /// The fraction `num / den`.
    pub fn new(num: i128, den: i128) -> (r: Rational)
        requires
            den != 0,
        ensures
            r.num == num,
            r.den == den,
            r@.defined(),
    {
        Rational { num, den }
    }

    /// The whole number `n` as a fraction.
    pub fn from_int(n: i32) -> (r: Rational)
        ensures
            r@ == Ratio::whole(n as int),
    {
        Rational { num: n as i128, den: 1 }
    }

    /// Whether the fraction lies within EPSILON of zero.
    pub fn is_negligible(&self) -> (b: bool)
        ensures
            b == self@.negligible(),
    {
        let n: u128 = magnitude_of(self.num);
        let d: u128 = magnitude_of(self.den);
        let scale: u128 = EPSILON_INVERSE as u128;
        assert((n * scale <= d) <==> (n <= d / scale)) by (nonlinear_arith)
            requires
                scale > 0,
        ;
        n <= d / scale
    }

    /// Whether the fraction lies within EPSILON of the whole number `target`.
    pub fn is_close_to(&self, target: i128) -> (b: bool)
        requires
            magnitude(self@.num) + magnitude(target * self@.den) <= i128::MAX,
        ensures
            b == self@.close_to(target as int),
    {
        let diff = Rational { num: self.num - target * self.den, den: self.den };
        assert(diff@ == self@.minus(Ratio::whole(target as int))) by {
            assert(self@.num * 1 == self@.num);
            assert(self@.den * 1 == self@.den);
        }
        diff.is_negligible()
    }

    /// Whether two fractions denote the same number.
    pub fn same_value(&self, other: &Rational) -> (b: bool)
        requires
            self@.combines_with(other@),
        ensures
            b == self@.same_value(other@),
    {
        self.num * other.den == other.num * self.den
    }
}

/// The evaluator: applies the binary operator `op` to `a` and `b`.
///
/// Addition, subtraction and multiplication always yield a value. Division
/// is rejected when the divisor lies within EPSILON of zero, and so is any
/// character other than `+ - * /`.
pub fn apply_op(a: Rational, b: Rational, op: char) -> (r: Option<Rational>)
    requires
        a@.combines_with(b@),
    ensures
        match r {
            Some(v) => applied(a@, b@, op) == Some(v@),
            None => applied(a@, b@, op) is None,
        },
        a@.defined() && b@.defined() ==> (r matches Some(v) ==> v@.defined()),
{
    proof {
        if a@.defined() && b@.defined() {
            lemma_applied_defined(a@, b@, op);
        }
    }
    match op {
        '+' => Some(Rational { num: a.num * b.den + b.num * a.den, den: a.den * b.den }),
        '-' => Some(Rational { num: a.num * b.den - b.num * a.den, den: a.den * b.den }),
        '*' => Some(Rational { num: a.num * b.num, den: a.den * b.den }),
        '/' => {
            if b.is_negligible() {
                None
            } else {
                Some(Rational { num: a.num * b.den, den: a.den * b.num })
            }
        },
        _ => None,
    }
}

} // verus!
