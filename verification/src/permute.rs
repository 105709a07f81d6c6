//! The permutation generator: every ordering of a sequence, by position.

use vstd::prelude::*;
use vstd::slice::slice_to_vec;

verus! {

/// Each of `tails` with `head` put in front.
pub open spec fn with_head<T>(head: T, tails: Seq<Seq<T>>) -> Seq<Seq<T>> {
    tails.map_values(|t: Seq<T>| seq![head] + t)
}

/// Every ordering of `s`: for each position in turn, the element there
/// followed by every ordering of the others. Elements are told apart by
/// position, so equal values give equal orderings more than once.
pub open spec fn orderings<T>(s: Seq<T>) -> Seq<Seq<T>>
    decreases s.len(), s.len() + 1,
{
    if s.len() == 0 {
        seq![Seq::empty()]
    } else {
        headed(s, s.len())
    }
}

/// The orderings of `s` whose first element is taken from one of the
/// first `n` positions.
pub open spec fn headed<T>(s: Seq<T>, n: nat) -> Seq<Seq<T>>
    decreases s.len(), n,
{
    if n == 0 || n > s.len() {
        Seq::empty()
    } else {
        headed(s, (n - 1) as nat) + with_head(s[n - 1], orderings(s.remove(n - 1)))
    }
}

/// An ordering has as many elements as the sequence it orders.
pub proof fn lemma_ordering_len<T>(s: Seq<T>, i: int)
    requires
        0 <= i < orderings(s).len(),
    ensures
        orderings(s)[i].len() == s.len(),
    decreases s.len(), s.len() + 1,
{
    if s.len() > 0 {
        lemma_headed_len(s, s.len(), i);
    }
}

proof fn lemma_headed_len<T>(s: Seq<T>, n: nat, i: int)
    requires
        0 <= i < headed(s, n).len(),
    ensures
        headed(s, n)[i].len() == s.len(),
    decreases s.len(), n,
{
    if n == 0 || n > s.len() {
    } else {
        let front = headed(s, (n - 1) as nat);
        if i < front.len() {
            lemma_headed_len(s, (n - 1) as nat, i);
        } else {
            lemma_ordering_len(s.remove(n - 1), i - front.len());
        }
    }
}

/// `n!`, the number of orderings of `n` things.
pub open spec fn factorial(n: nat) -> nat
    decreases n,
{
    if n == 0 {
        1
    } else {
        n * factorial((n - 1) as nat)
    }
}

/// `q` holds the elements of `s`, each as often as `s` does: nothing is
/// dropped and nothing added.
pub open spec fn is_rearrangement<T>(q: Seq<T>, s: Seq<T>) -> bool {
    q.to_multiset() == s.to_multiset()
}

proof fn lemma_with_head_members<T>(head: T, tails: Seq<Seq<T>>, q: Seq<T>)
    ensures
        with_head(head, tails).contains(q) <==> q.len() > 0 && q[0] == head && tails.contains(
            q.drop_first(),
        ),
{
    let all = with_head(head, tails);
    if all.contains(q) {
        let i = choose|i: int| 0 <= i < all.len() && all[i] == q;
        assert(q.drop_first() =~= tails[i]);
    }
    if q.len() > 0 && q[0] == head && tails.contains(q.drop_first()) {
        let i = choose|i: int| 0 <= i < tails.len() && tails[i] == q.drop_first();
        assert(all[i] =~= q);
    }
}

/// The ordering `q` of `s` begins with the element at position `i`, and
/// goes on with an ordering of the others.
spec fn heads_at<T>(s: Seq<T>, q: Seq<T>, i: int) -> bool {
    &&& 0 <= i < s.len()
    &&& q.len() > 0
    &&& q[0] == s[i]
    &&& orderings(s.remove(i)).contains(q.drop_first())
}

/// A position among the first `n` from which the head of `q` was taken.
spec fn head_position<T>(s: Seq<T>, n: nat, q: Seq<T>) -> int {
    choose|i: int| i < n && heads_at(s, q, i)
}

proof fn lemma_headed_members<T>(s: Seq<T>, n: nat, q: Seq<T>)
    requires
        n <= s.len(),
    ensures
        headed(s, n).contains(q) <==> exists|i: int| i < n && #[trigger] heads_at(s, q, i),
    decreases n,
{
    if n > 0 {
        let front = headed(s, (n - 1) as nat);
        let block = with_head(s[n - 1], orderings(s.remove(n - 1)));
        lemma_headed_members(s, (n - 1) as nat, q);
        lemma_with_head_members(s[n - 1], orderings(s.remove(n - 1)), q);
        if headed(s, n).contains(q) {
            let k = choose|k: int| 0 <= k < headed(s, n).len() && headed(s, n)[k] == q;
            if k < front.len() {
                assert(front[k] == q);
                assert(front.contains(q));
                let i = choose|i: int| i < n - 1 && heads_at(s, q, i);
                assert(i < n && heads_at(s, q, i));
            } else {
                assert(block[k - front.len()] == q);
                assert(block.contains(q));
                assert(heads_at(s, q, n - 1));
            }
        }
        if exists|i: int| i < n && #[trigger] heads_at(s, q, i) {
            let i = choose|i: int| i < n && #[trigger] heads_at(s, q, i);
            if i < n - 1 {
                assert(front.contains(q));
                let k = choose|k: int| 0 <= k < front.len() && front[k] == q;
                assert(headed(s, n)[k] == q);
            } else {
                assert(block.contains(q));
                let k = choose|k: int| 0 <= k < block.len() && block[k] == q;
                assert(headed(s, n)[front.len() + k] == q);
            }
        }
    }
}

/// Every ordering is a rearrangement: no operand is dropped or duplicated.
pub proof fn lemma_orderings_are_rearrangements<T>(s: Seq<T>, q: Seq<T>)
    requires
        orderings(s).contains(q),
    ensures
        is_rearrangement(q, s),
    decreases s.len(),
{
    if s.len() == 0 {
        assert(orderings(s) =~= seq![Seq::<T>::empty()]);
        let k = choose|k: int| 0 <= k < orderings(s).len() && orderings(s)[k] == q;
        assert(q =~= s);
    } else {
        lemma_headed_members(s, s.len(), q);
        let i = head_position(s, s.len(), q);
        lemma_orderings_are_rearrangements(s.remove(i), q.drop_first());
        s.to_multiset_ensures();
        q.to_multiset_ensures();
        assert(q.remove(0) =~= q.drop_first());
        assert(s.to_multiset() =~= s.to_multiset().remove(s[i]).insert(s[i]));
        assert(q.to_multiset() =~= q.to_multiset().remove(q[0]).insert(q[0]));
    }
}

/// Every rearrangement is among the orderings: none is left out.
pub proof fn lemma_rearrangements_are_orderings<T>(s: Seq<T>, q: Seq<T>)
    requires
        is_rearrangement(q, s),
    ensures
        orderings(s).contains(q),
    decreases s.len(),
{
    s.to_multiset_ensures();
    q.to_multiset_ensures();
    if s.len() == 0 {
        assert(q =~= Seq::<T>::empty());
        assert(orderings(s)[0] == q);
    } else {
        assert(q.contains(q[0]));
        assert(s.to_multiset().count(q[0]) > 0);
        let i = choose|i: int| 0 <= i < s.len() && s[i] == q[0];
        assert(q.remove(0) =~= q.drop_first());
        lemma_rearrangements_are_orderings(s.remove(i), q.drop_first());
        assert(heads_at(s, q, i));
        lemma_headed_members(s, s.len(), q);
    }
}

/// The orderings of a sequence are its rearrangements, all of them and
/// nothing else.
pub proof fn lemma_orderings_members<T>(s: Seq<T>)
    ensures
        forall|q: Seq<T>| #[trigger] orderings(s).contains(q) <==> is_rearrangement(q, s),
{
    assert forall|q: Seq<T>| #[trigger] orderings(s).contains(q) <==> is_rearrangement(q, s) by {
        if orderings(s).contains(q) {
            lemma_orderings_are_rearrangements(s, q);
        }
        if is_rearrangement(q, s) {
            lemma_rearrangements_are_orderings(s, q);
        }
    }
}

/// A sequence of `n` elements has `n!` orderings.
pub proof fn lemma_orderings_count<T>(s: Seq<T>)
    ensures
        orderings(s).len() == factorial(s.len()),
    decreases s.len(), s.len() + 1,
{
    if s.len() > 0 {
        lemma_headed_count(s, s.len());
    }
}

proof fn lemma_headed_count<T>(s: Seq<T>, n: nat)
    requires
        n <= s.len(),
    ensures
        headed(s, n).len() == n * factorial((s.len() - 1) as nat),
    decreases s.len(), n,
{
    let f = factorial((s.len() - 1) as nat);
    if n == 0 {
        assert(0 * f == 0);
    } else {
        lemma_headed_count(s, (n - 1) as nat);
        lemma_orderings_count(s.remove(n - 1));
        assert((n - 1) * f + f == n * f) by (nonlinear_arith);
    }
}

/// Where no two elements are equal, no two orderings are: each ordering
/// is generated exactly once.
pub proof fn lemma_orderings_distinct<T>(s: Seq<T>)
    requires
        s.no_duplicates(),
    ensures
        orderings(s).no_duplicates(),
    decreases s.len(), s.len() + 1,
{
    if s.len() > 0 {
        lemma_headed_distinct(s, s.len());
    }
}

proof fn lemma_headed_distinct<T>(s: Seq<T>, n: nat)
    requires
        s.no_duplicates(),
        n <= s.len(),
    ensures
        headed(s, n).no_duplicates(),
    decreases s.len(), n,
{
    if n > 0 {
        let front = headed(s, (n - 1) as nat);
        let tails = orderings(s.remove(n - 1));
        let block = with_head(s[n - 1], tails);
        lemma_headed_distinct(s, (n - 1) as nat);
        assert(s.remove(n - 1).no_duplicates());
        lemma_orderings_distinct(s.remove(n - 1));
        assert forall|a: int, b: int|
            0 <= a < headed(s, n).len() && 0 <= b < headed(s, n).len() && a != b implies headed(
            s,
            n,
        )[a] != headed(s, n)[b] by {
            let x = headed(s, n)[a];
            let y = headed(s, n)[b];
            if a < front.len() && b < front.len() {
                assert(front[a] != front[b]);
            } else if a >= front.len() && b >= front.len() {
                let ta = tails[a - front.len()];
                let tb = tails[b - front.len()];
                assert(ta != tb);
                assert(x.drop_first() =~= ta);
                assert(y.drop_first() =~= tb);
            } else {
                let (early, late) = if a < b {
                    (x, y)
                } else {
                    (y, x)
                };
                assert(front.contains(early));
                lemma_headed_members(s, (n - 1) as nat, early);
                let i = head_position(s, (n - 1) as nat, early);
                assert(early[0] == s[i]);
                assert(late[0] == s[n - 1]);
            }
        }
    }
}

/// Each of `qs` with `f` applied to its elements.
pub open spec fn renamed<A, B>(qs: Seq<Seq<A>>, f: spec_fn(A) -> B) -> Seq<Seq<B>> {
    Seq::new(qs.len(), |i: int| qs[i].map_values(f))
}

/// The positions `0, 1, ..` of a sequence of `n` elements.
pub open spec fn positions(n: nat) -> Seq<int> {
    Seq::new(n, |i: int| i)
}

/// Orderings go by position, not by value: renaming the elements of a
/// sequence renames the elements of its orderings and changes nothing
/// else, neither how many there are nor where each stands.
pub proof fn lemma_orderings_renamed<A, B>(s: Seq<A>, f: spec_fn(A) -> B)
    ensures
        orderings(s.map_values(f)) == renamed(orderings(s), f),
    decreases s.len(), s.len() + 1,
{
    if s.len() == 0 {
        assert(Seq::<A>::empty().map_values(f) =~= Seq::<B>::empty());
        assert(orderings(s.map_values(f)) =~= renamed(orderings(s), f));
    } else {
        lemma_headed_renamed(s, f, s.len());
    }
}

proof fn lemma_headed_renamed<A, B>(s: Seq<A>, f: spec_fn(A) -> B, n: nat)
    requires
        n <= s.len(),
    ensures
        headed(s.map_values(f), n) == renamed(headed(s, n), f),
    decreases s.len(), n,
{
    let t = s.map_values(f);
    if n == 0 {
        assert(headed(t, n) =~= renamed(headed(s, n), f));
    } else {
        lemma_headed_renamed(s, f, (n - 1) as nat);
        lemma_orderings_renamed(s.remove(n - 1), f);
        assert(t.remove(n - 1) =~= s.remove(n - 1).map_values(f));
        let tails = orderings(s.remove(n - 1));
        let block = with_head(s[n - 1], tails);
        let block_t = with_head(t[n - 1], orderings(t.remove(n - 1)));
        assert(block_t =~= renamed(block, f)) by {
            assert forall|i: int| 0 <= i < block.len() implies block_t[i] == renamed(block, f)[i] by {
                assert(seq![f(s[n - 1])] + tails[i].map_values(f) =~= (seq![s[n - 1]]
                    + tails[i]).map_values(f));
            }
        }
        assert(headed(t, n) =~= renamed(headed(s, n), f));
    }
}

/// The orderings of a sequence are the orderings of its positions, each
/// position replaced by the element that stands there.
pub proof fn lemma_orderings_by_position<T>(s: Seq<T>)
    ensures
        orderings(s) == renamed(orderings(positions(s.len())), |k: int| s[k]),
{
    lemma_orderings_renamed(positions(s.len()), |k: int| s[k]);
    assert(positions(s.len()).map_values(|k: int| s[k]) =~= s);
}

/// The orderings of the positions `0 .. n` are all their `n!`
/// permutations, each exactly once.
pub proof fn lemma_position_orderings(n: nat)
    ensures
        orderings(positions(n)).len() == factorial(n),
        orderings(positions(n)).no_duplicates(),
        forall|q: Seq<int>| #[trigger]
            orderings(positions(n)).contains(q) <==> is_rearrangement(q, positions(n)),
{
    lemma_orderings_count(positions(n));
    lemma_orderings_distinct(positions(n));
    lemma_orderings_members(positions(n));
}

/// The sequences held by a vector of vectors.
pub open spec fn rows(v: Seq<Vec<i32>>) -> Seq<Seq<i32>> {
    v.map_values(|r: Vec<i32>| r@)
}

/// The permutation generator: all orderings of `nums`, those that begin
/// with the first element first.
pub fn permutations(nums: &[i32]) -> (result: Vec<Vec<i32>>)
    ensures
        rows(result@) == orderings(nums@),
        result@.len() == factorial(nums@.len()),
        forall|q: Seq<i32>| #[trigger] rows(result@).contains(q) <==> is_rearrangement(q, nums@),
    decreases nums@.len(),
{
    proof {
        lemma_orderings_count(nums@);
        lemma_orderings_members(nums@);
    }
    let mut result: Vec<Vec<i32>> = Vec::new();
    if nums.len() == 0 {
        result.push(Vec::new());
        assert(rows(result@) =~= orderings(nums@));
        return result;
    }
    assert(rows(result@) =~= headed(nums@, 0));
    let mut i: usize = 0;
    while i < nums.len()
        invariant
            i <= nums@.len(),
            rows(result@) == headed(nums@, i as nat),
        decreases nums@.len() - i,
    {
        let v = nums[i];
        let mut rest = slice_to_vec(nums);
        rest.remove(i);
        let tails = permutations(rest.as_slice());
        let ghost before = rows(result@);
        let mut j: usize = 0;
        while j < tails.len()
            invariant
                j <= tails.len(),
                i < nums@.len(),
                rows(tails@) == orderings(nums@.remove(i as int)),
                rows(result@) == before + with_head(v, rows(tails@)).take(j as int),
            decreases tails.len() - j,
        {
            let mut perm = tails[j].clone();
            perm.insert(0, v);
            assert(perm@ =~= seq![v] + tails@[j as int]@);
            let ghost earlier = result@;
            result.push(perm);
            proof {
                let all = with_head(v, rows(tails@));
                assert(all[j as int] == perm@);
                assert(all.take(j + 1) =~= all.take(j as int).push(all[j as int]));
                assert(rows(result@) =~= rows(earlier).push(perm@));
                assert(rows(result@) =~= before + all.take(j + 1));
            }
            j += 1;
        }
        proof {
            let all = with_head(v, rows(tails@));
            assert(all.take(tails.len() as int) =~= all);
        }
        i += 1;
    }
    result
}

} // verus!
