//! Sequences without repetition: the solution set, kept in the order in
//! which its members were first found.

use vstd::prelude::*;

verus! {

/// `acc` with `x` appended unless it is already there.
pub open spec fn inserted<T>(acc: Seq<T>, x: T) -> Seq<T> {
    if acc.contains(x) {
        acc
    } else {
        acc.push(x)
    }
}

/// `acc` after inserting the members of `more` one by one, first to last.
pub open spec fn absorbed<T>(acc: Seq<T>, more: Seq<T>) -> Seq<T>
    decreases more.len(),
{
    if more.len() == 0 {
        acc
    } else {
        inserted(absorbed(acc, more.drop_last()), more.last())
    }
}

/// The members of `s`, each kept where it first occurs.
pub open spec fn distinct<T>(s: Seq<T>) -> Seq<T> {
    absorbed(Seq::empty(), s)
}

/// The texts of a vector of strings.
pub open spec fn texts(v: Seq<String>) -> Seq<Seq<char>> {
    v.map_values(|s: String| s@)
}

/// Absorbing adds nothing twice and loses nothing: the result has the
/// members of both sequences and no others, and repeats none if `acc`
/// repeats none.
pub proof fn lemma_absorbed_members<T>(acc: Seq<T>, more: Seq<T>)
    ensures
        forall|x: T|
            #[trigger] absorbed(acc, more).contains(x) <==> acc.contains(x) || more.contains(x),
        acc.no_duplicates() ==> absorbed(acc, more).no_duplicates(),
    decreases more.len(),
{
    if more.len() > 0 {
        let front = more.drop_last();
        let prev = absorbed(acc, front);
        lemma_absorbed_members(acc, front);
        assert forall|x: T| #[trigger]
            absorbed(acc, more).contains(x) <==> acc.contains(x) || more.contains(x) by {
            if more.contains(x) {
                let i = choose|i: int| 0 <= i < more.len() && more[i] == x;
                if i < more.len() - 1 {
                    assert(front[i] == x);
                }
            }
            if front.contains(x) {
                let i = choose|i: int| 0 <= i < front.len() && front[i] == x;
                assert(more[i] == x);
            }
            if absorbed(acc, more).contains(x) && !prev.contains(x) {
                let i = choose|i: int|
                    0 <= i < absorbed(acc, more).len() && absorbed(acc, more)[i] == x;
                assert(x == more.last());
                assert(more[more.len() - 1] == x);
            }
            if prev.contains(x) {
                let i = choose|i: int| 0 <= i < prev.len() && prev[i] == x;
                assert(absorbed(acc, more)[i] == x);
            }
            if x == more.last() {
                assert(more[more.len() - 1] == x);
                if !prev.contains(x) {
                    assert(absorbed(acc, more)[prev.len() as int] == x);
                }
            }
        }
    }
}

/// Absorbing two sequences one after the other is absorbing them joined.
pub proof fn lemma_absorbed_concat<T>(acc: Seq<T>, a: Seq<T>, b: Seq<T>)
    ensures
        absorbed(acc, a + b) == absorbed(absorbed(acc, a), b),
    decreases b.len(),
{
    if b.len() == 0 {
        assert(a + b =~= a);
    } else {
        lemma_absorbed_concat(acc, a, b.drop_last());
        assert((a + b).drop_last() =~= a + b.drop_last());
        assert((a + b).last() == b.last());
    }
}

/// Repetitions in what is absorbed make no difference.
pub proof fn lemma_absorbed_distinct<T>(acc: Seq<T>, more: Seq<T>)
    ensures
        absorbed(acc, distinct(more)) == absorbed(acc, more),
    decreases more.len(),
{
    if more.len() > 0 {
        let front = more.drop_last();
        let x = more.last();
        lemma_absorbed_distinct(acc, front);
        lemma_absorbed_members(Seq::<T>::empty(), front);
        lemma_absorbed_members(acc, front);
        if distinct(front).contains(x) {
            assert(front.contains(x));
            assert(absorbed(acc, front).contains(x));
        } else {
            let d = distinct(front);
            assert(d.push(x).drop_last() =~= d);
            assert(d.push(x).last() == x);
        }
    }
}

/// The members of a sequence without its repetitions are its members, and
/// none of them is repeated.
pub proof fn lemma_distinct_members<T>(s: Seq<T>)
    ensures
        distinct(s).no_duplicates(),
        forall|x: T| #[trigger] distinct(s).contains(x) <==> s.contains(x),
{
    lemma_absorbed_members(Seq::<T>::empty(), s);
}

/// Joining two sequences and dropping repetitions gives what absorbing the
/// second without its repetitions into the first without its repetitions
/// gives.
pub proof fn lemma_distinct_concat<T>(a: Seq<T>, b: Seq<T>)
    ensures
        distinct(a + b) == absorbed(distinct(a), distinct(b)),
{
    lemma_absorbed_concat(Seq::<T>::empty(), a, b);
    lemma_absorbed_distinct(distinct(a), b);
}

/// Whether `set` holds a string with the text of `s`.
fn holds_text(set: &Vec<String>, s: &String) -> (b: bool)
    ensures
        b == texts(set@).contains(s@),
{
    let mut i: usize = 0;
    while i < set.len()
        invariant
            i <= set.len(),
            forall|j: int| 0 <= j < i ==> texts(set@)[j] != s@,
        decreases set.len() - i,
    {
        if set[i] == *s {
            assert(texts(set@)[i as int] == s@);
            return true;
        }
        i += 1;
    }
    false
}

/// Adds `s` to `set` unless a string with the same text is already there.
pub fn insert_text(set: &mut Vec<String>, s: String)
    ensures
        texts(final(set)@) == inserted(texts(old(set)@), s@),
{
    if !holds_text(set, &s) {
        set.push(s);
        assert(texts(set@) =~= texts(old(set)@).push(s@));
    }
}

/// Adds every string of `more` to `set`, first to last, unless a string
/// with the same text is already there.
pub fn absorb_texts(set: &mut Vec<String>, more: &Vec<String>)
    ensures
        texts(final(set)@) == absorbed(texts(old(set)@), texts(more@)),
{
    let mut i: usize = 0;
    while i < more.len()
        invariant
            i <= more.len(),
            texts(set@) == absorbed(texts(old(set)@), texts(more@).take(i as int)),
        decreases more.len() - i,
    {
        let s = more[i].clone();
        insert_text(set, s);
        proof {
            let t = texts(more@);
            assert(t.take(i + 1).drop_last() =~= t.take(i as int));
            assert(t.take(i + 1).last() == more@[i as int]@);
        }
        i += 1;
    }
    assert(texts(more@).take(more.len() as int) =~= texts(more@));
}

} // verus!
