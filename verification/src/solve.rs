//! The solver: every ordering of the hand, every candidate over each.

use crate::candidate::outcome;
use crate::distinct::{absorb_texts, distinct, lemma_distinct_concat, lemma_distinct_members, texts};
use crate::enumerate::{
    candidates, find_solutions_for_permutation, lemma_numbering, lemma_winners_members, number_of,
    numbered, winners,
};
use crate::expr::{
    lemma_valued_has_operators, lemma_valued_is_guarded, lemma_valued_is_well_formed, Candidate,
    Expr,
};
use crate::reading::lemma_text_injective;
use crate::permute::{
    factorial, is_rearrangement, lemma_ordering_len, lemma_orderings_count, lemma_orderings_are_rearrangements,
    lemma_rearrangements_are_orderings, orderings, permutations, rows,
};
use vstd::prelude::*;

verus! {

/// The candidates over each of `perms` in turn.
pub open spec fn candidates_of(perms: Seq<Seq<i32>>) -> Seq<Expr>
    decreases perms.len(),
{
    if perms.len() == 0 {
        Seq::empty()
    } else {
        candidates_of(perms.drop_last()) + candidates(perms.last())
    }
}

/// Every candidate of a hand: the 320 over each of its orderings.
pub open spec fn all_candidates(hand: Seq<i32>) -> Seq<Expr> {
    candidates_of(orderings(hand))
}

/// The solutions of a hand: the texts of all its candidates that hit the
/// target, each once, in the order in which the candidates are tried.
pub open spec fn solutions(hand: Seq<i32>) -> Seq<Seq<char>> {
    distinct(winners(all_candidates(hand)))
}

/// A hand of `n` cards has `320 * n!` candidates: 7680 for four cards.
pub proof fn lemma_candidate_count(hand: Seq<i32>)
    ensures
        all_candidates(hand).len() == 320 * factorial(hand.len()),
        hand.len() == 4 ==> all_candidates(hand).len() == 7680,
{
    lemma_candidates_of_count(orderings(hand));
    lemma_orderings_count(hand);
    reveal_with_fuel(factorial, 5);
}

proof fn lemma_candidates_of_count(perms: Seq<Seq<i32>>)
    ensures
        candidates_of(perms).len() == 320 * perms.len(),
    decreases perms.len(),
{
    if perms.len() > 0 {
        lemma_candidates_of_count(perms.drop_last());
    }
}

/// The winners of two runs of candidates joined are the winners of each,
/// joined.
pub proof fn lemma_winners_concat(a: Seq<Expr>, b: Seq<Expr>)
    ensures
        winners(a + b) == winners(a) + winners(b),
    decreases b.len(),
{
    if b.len() == 0 {
        assert(a + b =~= a);
        assert(winners(a) + winners(b) =~= winners(a));
    } else {
        lemma_winners_concat(a, b.drop_last());
        assert((a + b).drop_last() =~= a + b.drop_last());
        assert((a + b).last() == b.last());
        assert(winners(a + b) =~= winners(a) + winners(b));
    }
}

/// `c` is a candidate of the hand: its operands are the hand in some
/// order, and its operators are among `+ - * /`.
pub open spec fn is_candidate_of(c: Candidate, hand: Seq<i32>) -> bool {
    is_rearrangement(c.operands, hand) && c.has_operators()
}

proof fn lemma_candidates_of_members(perms: Seq<Seq<i32>>, e: Expr)
    ensures
        candidates_of(perms).contains(e) <==> exists|j: int, k: int|
            0 <= j < perms.len() && 0 <= k < 320 && #[trigger] numbered(perms[j], k).expr() == e,
    decreases perms.len(),
{
    if perms.len() > 0 {
        let front = perms.drop_last();
        let all = candidates_of(perms);
        let block = candidates(perms.last());
        lemma_candidates_of_members(front, e);
        if all.contains(e) {
            let n = choose|n: int| 0 <= n < all.len() && all[n] == e;
            if n < candidates_of(front).len() {
                assert(candidates_of(front)[n] == e);
                assert(candidates_of(front).contains(e));
                let (j, k) = choose|j: int, k: int|
                    0 <= j < front.len() && 0 <= k < 320 && #[trigger] numbered(front[j], k).expr()
                        == e;
                assert(numbered(perms[j], k).expr() == e);
            } else {
                let k = n - candidates_of(front).len();
                assert(block[k] == e);
                assert(numbered(perms[perms.len() - 1], k).expr() == e);
            }
        }
        if exists|j: int, k: int|
            0 <= j < perms.len() && 0 <= k < 320 && #[trigger] numbered(perms[j], k).expr() == e {
            let (j, k) = choose|j: int, k: int|
                0 <= j < perms.len() && 0 <= k < 320 && #[trigger] numbered(perms[j], k).expr()
                    == e;
            if j < front.len() {
                assert(numbered(front[j], k).expr() == e);
                assert(candidates_of(front).contains(e));
                let n = choose|n: int|
                    0 <= n < candidates_of(front).len() && candidates_of(front)[n] == e;
                assert(all[n] == e);
            } else {
                assert(block[k] == e);
                assert(all[candidates_of(front).len() + k] == e);
            }
        }
    }
}

/// The candidates that are tried for a hand are its candidates, all of
/// them: every ordering of the hand with every shape and every triple of
/// operators.
pub proof fn lemma_all_candidates_members(hand: Seq<i32>, e: Expr)
    ensures
        all_candidates(hand).contains(e) <==> exists|c: Candidate| #[trigger]
            is_candidate_of(c, hand) && c.expr() == e,
{
    let perms = orderings(hand);
    lemma_candidates_of_members(perms, e);
    if all_candidates(hand).contains(e) {
        let (j, k) = choose|j: int, k: int|
            0 <= j < perms.len() && 0 <= k < 320 && #[trigger] numbered(perms[j], k).expr() == e;
        let c = numbered(perms[j], k);
        lemma_numbering(perms[j], k, c);
        assert(perms.contains(perms[j]));
        lemma_orderings_are_rearrangements(hand, perms[j]);
        assert(is_candidate_of(c, hand) && c.expr() == e);
    }
    if exists|c: Candidate| #[trigger] is_candidate_of(c, hand) && c.expr() == e {
        let c = choose|c: Candidate| #[trigger] is_candidate_of(c, hand) && c.expr() == e;
        lemma_rearrangements_are_orderings(hand, c.operands);
        let j = choose|j: int| 0 <= j < perms.len() && perms[j] == c.operands;
        lemma_numbering(c.operands, 0, c);
        assert(numbered(perms[j], number_of(c)).expr() == e);
    }
}

/// Soundness: every solution is the text of a candidate of the hand that
/// hits the target, and that candidate divides nowhere by a number within
/// EPSILON of zero.
pub proof fn lemma_solution_is_candidate(hand: Seq<i32>, t: Seq<char>) -> (c: Candidate)
    requires
        solutions(hand).contains(t),
    ensures
        is_candidate_of(c, hand),
        c.expr().text() == t,
        c.expr().hits_target(),
        c.expr().divisions_guarded(),
{
    let all = all_candidates(hand);
    lemma_distinct_members(winners(all));
    lemma_winners_members(all, t);
    let i = choose|i: int| 0 <= i < all.len() && #[trigger] outcome(all[i]) == Some(t);
    assert(all.contains(all[i]));
    lemma_all_candidates_members(hand, all[i]);
    let c = choose|c: Candidate| #[trigger] is_candidate_of(c, hand) && c.expr() == all[i];
    lemma_valued_is_guarded(c.expr());
    c
}

/// Completeness: whatever the order of the operands, the shape and the
/// operators, a candidate that hits the target has its text among the
/// solutions.
pub proof fn lemma_candidate_is_solution(hand: Seq<i32>, c: Candidate)
    requires
        is_rearrangement(c.operands, hand),
        c.expr().hits_target(),
    ensures
        solutions(hand).contains(c.expr().text()),
{
    let all = all_candidates(hand);
    lemma_valued_has_operators(c);
    assert(is_candidate_of(c, hand));
    lemma_all_candidates_members(hand, c.expr());
    let i = choose|i: int| 0 <= i < all.len() && all[i] == c.expr();
    assert(outcome(all[i]) == Some(c.expr().text()));
    lemma_winners_members(all, c.expr().text());
    lemma_distinct_members(winners(all));
}

/// Reading back: whatever well-formed expression a solution is read as,
/// that expression has a value within EPSILON of the target, and divides
/// nowhere by a number within EPSILON of zero.
pub proof fn lemma_solution_reads_back(hand: Seq<i32>, t: Seq<char>, e: Expr)
    requires
        solutions(hand).contains(t),
        e.well_formed(),
        e.text() == t,
    ensures
        e.hits_target(),
        e.divisions_guarded(),
{
    let c = lemma_solution_is_candidate(hand, t);
    lemma_valued_is_well_formed(c.expr());
    lemma_text_injective(e, c.expr());
}

/// Candidates with the same text have the same value, so that keeping one
/// text for several candidates loses nothing.
pub proof fn lemma_same_text_same_value(c: Candidate, d: Candidate)
    requires
        c.has_operators(),
        d.has_operators(),
        c.expr().text() == d.expr().text(),
    ensures
        c.expr() == d.expr(),
        c.expr().value() == d.expr().value(),
{
    reveal_with_fuel(Expr::well_formed, 4);
    lemma_text_injective(c.expr(), d.expr());
}

/// `t` is the text of a candidate of the hand that hits the target.
pub open spec fn is_solution(hand: Seq<i32>, t: Seq<char>) -> bool {
    exists|c: Candidate| #[trigger]
        is_candidate_of(c, hand) && c.expr().hits_target() && c.expr().text() == t
}

/// The solutions of a hand are the texts of its candidates that hit the
/// target: all of them and no others.
pub proof fn lemma_solutions_members(hand: Seq<i32>)
    ensures
        forall|t: Seq<char>| #[trigger] solutions(hand).contains(t) <==> is_solution(hand, t),
{
    assert forall|t: Seq<char>| #[trigger] solutions(hand).contains(t) <==> is_solution(
        hand,
        t,
    ) by {
        if solutions(hand).contains(t) {
            let c = lemma_solution_is_candidate(hand, t);
            assert(is_candidate_of(c, hand) && c.expr().hits_target() && c.expr().text() == t);
        }
        if is_solution(hand, t) {
            let c = choose|c: Candidate| #[trigger]
                is_candidate_of(c, hand) && c.expr().hits_target() && c.expr().text() == t;
            lemma_candidate_is_solution(hand, c);
        }
    }
}

/// No solution occurs twice.
pub proof fn lemma_solutions_distinct(hand: Seq<i32>)
    ensures
        solutions(hand).no_duplicates(),
{
    lemma_distinct_members(winners(all_candidates(hand)));
}

/// Solving is a function of the hand: two results for the same hand hold
/// the same texts in the same order, and so the same set of texts.
pub proof fn lemma_solving_is_deterministic(hand: Seq<i32>, first: Seq<String>, second: Seq<String>)
    requires
        texts(first) == solutions(hand),
        texts(second) == solutions(hand),
    ensures
        texts(first) == texts(second),
        texts(first).to_set() == texts(second).to_set(),
{
}

/// The order of the cards in the hand decides at most the order of the
/// solutions: two hands with the same cards have the same set of them.
pub proof fn lemma_solutions_ignore_order(hand: Seq<i32>, other: Seq<i32>)
    requires
        is_rearrangement(other, hand),
    ensures
        solutions(hand).to_set() == solutions(other).to_set(),
{
    assert forall|t: Seq<char>| solutions(hand).contains(t) <==> solutions(other).contains(t) by {
        if solutions(hand).contains(t) {
            let c = lemma_solution_is_candidate(hand, t);
            lemma_candidate_is_solution(other, c);
        }
        if solutions(other).contains(t) {
            let c = lemma_solution_is_candidate(other, t);
            lemma_candidate_is_solution(hand, c);
        }
    }
    assert(solutions(hand).to_set() =~= solutions(other).to_set());
}

/// The solver: all distinct expressions over the four cards that reach 24,
/// in the order in which the candidates are tried. A hand without a
/// solution gives the empty vector.
pub fn solve_24(cards: &[i32]) -> (result: Vec<String>)
    requires
        cards@.len() == 4,
    ensures
        texts(result@) == solutions(cards@),
        texts(result@).no_duplicates(),
        forall|t: Seq<char>| #[trigger] texts(result@).contains(t) <==> is_solution(cards@, t),
{
    proof {
        lemma_solutions_distinct(cards@);
        lemma_solutions_members(cards@);
    }
    let perms = permutations(cards);
    let mut all_solutions: Vec<String> = Vec::new();
    assert(texts(all_solutions@) =~= Seq::empty());
    assert(rows(perms@).take(0) =~= Seq::empty());
    let mut i: usize = 0;
    while i < perms.len()
        invariant
            i <= perms.len(),
            cards@.len() == 4,
            rows(perms@) == orderings(cards@),
            texts(all_solutions@) == distinct(winners(candidates_of(rows(perms@).take(i as int)))),
        decreases perms.len() - i,
    {
        proof {
            lemma_ordering_len(cards@, i as int);
        }
        let sols = find_solutions_for_permutation(perms[i].as_slice());
        proof {
            let done = rows(perms@).take(i as int);
            let next = rows(perms@).take(i + 1);
            assert(next.drop_last() =~= done);
            assert(next.last() == perms@[i as int]@);
            lemma_winners_concat(candidates_of(done), candidates(perms@[i as int]@));
            lemma_distinct_concat(winners(candidates_of(done)), winners(candidates(perms@[i as int]@)));
        }
        absorb_texts(&mut all_solutions, &sols);
        i += 1;
    }
    assert(rows(perms@).take(perms.len() as int) =~= rows(perms@));
    all_solutions
}

} // verus!
