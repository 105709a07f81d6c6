//! All 320 candidates over one fixed ordering of the operands.

use crate::candidate::{
    is_outcome, outcome, try_struct1, try_struct2, try_struct3, try_struct4, try_struct5,
};
use crate::distinct::{distinct, insert_text, lemma_distinct_members, texts};
use crate::expr::{lemma_valued_has_operators, Candidate, Expr, Shape};
use vstd::prelude::*;

verus! {

/// The four operators, in the order in which they are tried.
pub open spec fn operators() -> Seq<char> {
    seq!['+', '-', '*', '/']
}

/// The five shapes, in the order in which they are tried.
pub open spec fn shapes() -> Seq<Shape> {
    seq![Shape::Pairs, Shape::LeftChain, Shape::RightChain, Shape::InnerLeft, Shape::InnerRight]
}

/// The 320 candidates over the ordering `p`: every triple of operators in
/// every shape.
pub open spec fn candidates(p: Seq<i32>) -> Seq<Expr> {
    Seq::new(320, |k: int| numbered(p, k).expr())
}

/// The texts of those among `es` that hit the target, in their order.
pub open spec fn winners(es: Seq<Expr>) -> Seq<Seq<char>>
    decreases es.len(),
{
    if es.len() == 0 {
        Seq::empty()
    } else {
        match outcome(es.last()) {
            Some(t) => winners(es.drop_last()).push(t),
            None => winners(es.drop_last()),
        }
    }
}

/// Where `op` stands among the operators.
pub open spec fn operator_index(op: char) -> int {
    if op == '+' {
        0
    } else if op == '-' {
        1
    } else if op == '*' {
        2
    } else {
        3
    }
}

/// Where `shape` stands among the shapes.
pub open spec fn shape_index(shape: Shape) -> int {
    match shape {
        Shape::Pairs => 0,
        Shape::LeftChain => 1,
        Shape::RightChain => 2,
        Shape::InnerLeft => 3,
        Shape::InnerRight => 4,
    }
}

/// The number under which the candidate `c` is tried.
pub open spec fn number_of(c: Candidate) -> int {
    80 * operator_index(c.op1) + 20 * operator_index(c.op2) + 5 * operator_index(c.op3)
        + shape_index(c.shape)
}

/// The candidate that is tried under the number `k` over the ordering
/// `p`: the operators change like the digits of a number in base four,
/// the first one slowest, and under each triple of operators the five
/// shapes follow one another.
pub open spec fn numbered(p: Seq<i32>, k: int) -> Candidate {
    let triple = k / 5;
    let pair = triple / 4;
    Candidate {
        operands: p,
        shape: shapes()[k % 5],
        op1: operators()[pair / 4],
        op2: operators()[pair % 4],
        op3: operators()[triple % 4],
    }
}

/// The 320 candidates over an ordering are all combinations of a shape
/// with three operators, each exactly once: numbering them and looking
/// the number up undo one another.
pub proof fn lemma_numbering(p: Seq<i32>, k: int, c: Candidate)
    ensures
        0 <= k < 320 ==> numbered(p, k).has_operators() && number_of(numbered(p, k)) == k
            && numbered(p, k).expr() == candidates(p)[k],
        c.has_operators() ==> 0 <= number_of(c) < 320 && numbered(c.operands, number_of(c)) == c,
{
    if 0 <= k < 320 {
        let triple = k / 5;
        let pair = triple / 4;
        assert(0 <= triple < 64 && 0 <= pair < 16);
        assert(operator_index(operators()[pair / 4]) == pair / 4);
        assert(operator_index(operators()[pair % 4]) == pair % 4);
        assert(operator_index(operators()[triple % 4]) == triple % 4);
        assert(shape_index(shapes()[k % 5]) == k % 5);
    }
    if c.has_operators() {
        let i = operator_index(c.op1);
        let j = operator_index(c.op2);
        let l = operator_index(c.op3);
        let m = shape_index(c.shape);
        let n = number_of(c);
        let triple = 16 * i + 4 * j + l;
        let pair = 4 * i + j;
        assert(n == 5 * triple + m && n / 5 == triple && n % 5 == m);
        assert(triple == 4 * pair + l && triple / 4 == pair && triple % 4 == l);
        assert(pair / 4 == i && pair % 4 == j);
        assert(operators()[i] == c.op1);
        assert(operators()[j] == c.op2);
        assert(operators()[l] == c.op3);
        assert(shapes()[m] == c.shape);
    }
}

/// A text is among the winners exactly if it is the text of one of the
/// expressions, and that one hits the target.
pub proof fn lemma_winners_members(es: Seq<Expr>, t: Seq<char>)
    ensures
        winners(es).contains(t) <==> exists|i: int|
            0 <= i < es.len() && #[trigger] outcome(es[i]) == Some(t),
    decreases es.len(),
{
    if es.len() > 0 {
        let front = es.drop_last();
        let w = winners(es);
        lemma_winners_members(front, t);
        if w.contains(t) {
            let k = choose|k: int| 0 <= k < w.len() && w[k] == t;
            if k < winners(front).len() {
                assert(winners(front)[k] == t);
                assert(winners(front).contains(t));
                let i = choose|i: int| 0 <= i < front.len() && #[trigger] outcome(front[i]) == Some(t);
                assert(outcome(es[i]) == Some(t));
            } else {
                assert(outcome(es[es.len() - 1]) == Some(t));
            }
        }
        if exists|i: int| 0 <= i < es.len() && #[trigger] outcome(es[i]) == Some(t) {
            let i = choose|i: int| 0 <= i < es.len() && #[trigger] outcome(es[i]) == Some(t);
            if i < front.len() {
                assert(outcome(front[i]) == Some(t));
                assert(winners(front).contains(t));
                let k = choose|k: int| 0 <= k < winners(front).len() && winners(front)[k] == t;
                assert(w[k] == t);
            } else {
                assert(w[w.len() - 1] == t);
            }
        }
    }
}

/// `t` is the text of a candidate over the ordering `p` that hits the
/// target.
pub open spec fn is_found(p: Seq<i32>, t: Seq<char>) -> bool {
    exists|c: Candidate| #[trigger]
        c.has_operators() && c.operands == p && c.expr().hits_target() && c.expr().text() == t
}

/// What is found over an ordering are the texts of the candidates over it
/// that hit the target, all of them and no others, and none twice.
pub proof fn lemma_found_members(p: Seq<i32>)
    ensures
        distinct(winners(candidates(p))).no_duplicates(),
        forall|t: Seq<char>| #[trigger]
            distinct(winners(candidates(p))).contains(t) <==> is_found(p, t),
{
    let all = candidates(p);
    lemma_distinct_members(winners(all));
    assert forall|t: Seq<char>| #[trigger]
        distinct(winners(all)).contains(t) <==> is_found(p, t) by {
        lemma_winners_members(all, t);
        if distinct(winners(all)).contains(t) {
            let k = choose|k: int| 0 <= k < all.len() && #[trigger] outcome(all[k]) == Some(t);
            let c = numbered(p, k);
            lemma_numbering(p, k, c);
            assert(c.has_operators() && c.operands == p && c.expr().hits_target() && c.expr().text()
                == t);
        }
        if is_found(p, t) {
            let c = choose|c: Candidate| #[trigger]
                c.has_operators() && c.operands == p && c.expr().hits_target() && c.expr().text()
                    == t;
            lemma_numbering(p, 0, c);
            assert(outcome(all[number_of(c)]) == Some(t));
        }
    }
}

/// Records the outcome of candidate number `k`.
fn record(
    found: &mut Vec<String>,
    r: Option<String>,
    Ghost(p): Ghost<Seq<i32>>,
    Ghost(k): Ghost<int>,
)
    requires
        0 <= k < 320,
        is_outcome(r, numbered(p, k).expr()),
        texts(old(found)@) == distinct(winners(candidates(p).take(k))),
    ensures
        texts(final(found)@) == distinct(winners(candidates(p).take(k + 1))),
{
    let ghost es = candidates(p).take(k + 1);
    assert(es.drop_last() =~= candidates(p).take(k));
    assert(es.last() == numbered(p, k).expr());
    match r {
        Some(s) => {
            let ghost w = winners(candidates(p).take(k));
            assert(winners(es) == w.push(s@));
            assert(w.push(s@).drop_last() =~= w);
            insert_text(found, s);
        },
        None => {},
    }
}

/// The structure and operator enumerator: for the ordering `perm`, the
/// texts of all candidates that hit the target, each once, in the order
/// in which the candidates are tried.
pub fn find_solutions_for_permutation(perm: &[i32]) -> (found: Vec<String>)
    requires
        perm@.len() == 4,
    ensures
        texts(found@) == distinct(winners(candidates(perm@))),
        texts(found@).no_duplicates(),
        forall|t: Seq<char>| #[trigger] texts(found@).contains(t) <==> is_found(perm@, t),
{
    proof {
        lemma_found_members(perm@);
    }
    let ops: [char; 4] = ['+', '-', '*', '/'];
    let mut found: Vec<String> = Vec::new();
    assert(texts(found@) =~= Seq::empty());
    assert(candidates(perm@).take(0) =~= Seq::empty());
    let mut i: usize = 0;
    while i < 4
        invariant
            i <= 4,
            perm@.len() == 4,
            ops@ == operators(),
            texts(found@) == distinct(winners(candidates(perm@).take(80 * i))),
        decreases 4 - i,
    {
        let mut j: usize = 0;
        while j < 4
            invariant
                i < 4,
                j <= 4,
                perm@.len() == 4,
                ops@ == operators(),
                texts(found@) == distinct(winners(candidates(perm@).take(80 * i + 20 * j))),
            decreases 4 - j,
        {
            let mut l: usize = 0;
            while l < 4
                invariant
                    i < 4,
                    j < 4,
                    l <= 4,
                    perm@.len() == 4,
                    ops@ == operators(),
                    texts(found@) == distinct(
                        winners(candidates(perm@).take(80 * i + 20 * j + 5 * l)),
                    ),
                decreases 4 - l,
            {
                let op1 = ops[i];
                let op2 = ops[j];
                let op3 = ops[l];
                let ghost k = 80 * i + 20 * j + 5 * l;
                proof {
                    let triple = 16 * i + 4 * j + l;
                    let pair = 4 * i + j;
                    assert(triple / 4 == pair && triple % 4 == l);
                    assert(pair / 4 == i && pair % 4 == j);
                    assert(k / 5 == triple && k % 5 == 0);
                    assert((k + 1) / 5 == triple && (k + 1) % 5 == 1);
                    assert((k + 2) / 5 == triple && (k + 2) % 5 == 2);
                    assert((k + 3) / 5 == triple && (k + 3) % 5 == 3);
                    assert((k + 4) / 5 == triple && (k + 4) % 5 == 4);
                }
                let r = try_struct1(perm, op1, op2, op3);
                record(&mut found, r, Ghost(perm@), Ghost(k));
                let r = try_struct2(perm, op1, op2, op3);
                record(&mut found, r, Ghost(perm@), Ghost(k + 1));
                let r = try_struct3(perm, op1, op2, op3);
                record(&mut found, r, Ghost(perm@), Ghost(k + 2));
                let r = try_struct4(perm, op1, op2, op3);
                record(&mut found, r, Ghost(perm@), Ghost(k + 3));
                let r = try_struct5(perm, op1, op2, op3);
                record(&mut found, r, Ghost(perm@), Ghost(k + 4));
                l += 1;
            }
            j += 1;
        }
        i += 1;
    }
    assert(candidates(perm@).take(320) =~= candidates(perm@));
    found
}

} // verus!
