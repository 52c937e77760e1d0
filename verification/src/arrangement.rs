//! The lexicographic successor of an arrangement of numbers, wrapping around from the
//! greatest arrangement to the least.
use vstd::prelude::*;
use crate::set_util::is_perm;

verus! {

/// From position `m` on, `s` does not increase.
pub open spec fn nonincreasing_from(s: Seq<usize>, m: int) -> bool {
    forall|i: int, j: int| m <= i <= j < s.len() ==> #[trigger] s[i] >= #[trigger] s[j]
}

/// `m` starts the longest non-increasing suffix of `s`.
pub open spec fn is_descent_start(s: Seq<usize>, m: int) -> bool {
    &&& 0 <= m < s.len()
    &&& nonincreasing_from(s, m)
    &&& (m == 0 || s[m - 1] < s[m])
}

/// `j` is the last position after `p` whose entry exceeds the entry at `p`.
pub open spec fn is_swap_partner(s: Seq<usize>, p: int, j: int) -> bool {
    &&& p < j < s.len()
    &&& s[j] > s[p]
    &&& forall|q: int| j < q < s.len() ==> #[trigger] s[q] <= s[p]
}

/// `s` with the positions from `m` on in reverse order.
pub open spec fn reverse_from(s: Seq<usize>, m: int) -> Seq<usize> {
    Seq::new(s.len(), |i: int| if i < m { s[i] } else { s[s.len() - 1 - (i - m)] })
}

/// The next arrangement of the entries of `s` in lexicographic order; the greatest
/// arrangement (a non-increasing sequence) is followed by the least (its reverse).
pub open spec fn next_arrangement(s: Seq<usize>) -> Seq<usize> {
    let m = choose|m: int| is_descent_start(s, m);
    if m == 0 {
        reverse_from(s, 0)
    } else {
        let p = m - 1;
        let j = choose|j: int| is_swap_partner(s, p, j);
        reverse_from(s.update(p, s[j]).update(j, s[p]), m)
    }
}

/// Reverses the positions lo..hi of `v`.
fn reverse_range(v: &mut Vec<usize>, lo: usize, hi: usize)
    requires
        lo <= hi <= old(v)@.len(),
    ensures
        final(v)@.len() == old(v)@.len(),
        forall|i: int| 0 <= i < lo || hi <= i < old(v)@.len() ==> #[trigger] final(v)@[i] == old(v)@[i],
        forall|i: int| lo <= i < hi ==> #[trigger] final(v)@[i] == old(v)@[hi - 1 - (i - lo)],
{
    let ghost s = v@;
    let mut a = lo;
    let mut b = hi;
    while b - a > 1
        invariant
            lo <= a <= b <= hi <= s.len() == v@.len(),
            a - lo == hi - b,
            forall|i: int| 0 <= i < lo || hi <= i < s.len() ==> #[trigger] v@[i] == s[i],
            forall|i: int| a <= i < b ==> #[trigger] v@[i] == s[i],
            forall|i: int| lo <= i < a ==> #[trigger] v@[i] == s[hi - 1 - (i - lo)],
            forall|i: int| b <= i < hi ==> #[trigger] v@[i] == s[hi - 1 - (i - lo)],
        decreases b - a,
    {
        b -= 1;
        let x = v[a];
        let y = v[b];
        v.set(a, y);
        v.set(b, x);
        a += 1;
    }
}

/// Rearranges `v` into `next_arrangement(v)`.
pub fn advance_arrangement(v: &mut Vec<usize>)
    requires
        old(v)@.len() >= 1,
    ensures
        final(v)@ == next_arrangement(old(v)@),
        final(v)@.len() == old(v)@.len(),
        final(v)@.to_multiset() == old(v)@.to_multiset(),
{
    let ghost s = v@;
    let n = v.len();
    let mut m = n - 1;
    while m > 0 && v[m - 1] >= v[m]
        invariant
            m < n == s.len(),
            v@ == s,
            nonincreasing_from(s, m as int),
        decreases m,
    {
        m -= 1;
    }
    assert(is_descent_start(s, m as int));
    assert forall|q: int| is_descent_start(s, q) implies q == m by {
        if q < m {
            assert(s[m - 1] >= s[m as int]);
        } else if q > m {
            assert(s[q - 1] >= s[q]);
        }
    }
    if m > 0 {
        let p = m - 1;
        let mut j = n;
        while j > m && v[j - 1] <= v[p]
            invariant
                m <= j <= n == s.len(),
                p == m - 1,
                v@ == s,
                forall|q: int| j <= q < n ==> #[trigger] s[q] <= s[p as int],
            decreases j,
        {
            j -= 1;
        }
        if j == m {
            assert(s[m as int] <= s[p as int]);
            assert(false);
        }
        let j = j - 1;
        assert(is_swap_partner(s, p as int, j as int));
        assert forall|q: int| is_swap_partner(s, p as int, q) implies q == j by {
            if q < j {
                assert(s[j as int] > s[p as int]);
            } else if q > j {
                assert(s[q] <= s[p as int]);
            }
        }
        let x = v[p];
        let y = v[j];
        v.set(p, y);
        v.set(j, x);
        assert(v@ == s.update(p as int, s[j as int]).update(j as int, s[p as int]));
    }
    let ghost t = v@;
    reverse_range(v, m, n);
    assert(v@ =~= reverse_from(t, m as int));
    proof {
        let u = v@;
        if m > 0 {
            let p = (m - 1) as int;
            let j = choose|j: int| is_swap_partner(s, p, j);
            let s1 = s.update(p, s[j]);
            assert(s1[j] == s[j]);
            vstd::seq_lib::to_multiset_update(s, p, s[j]);
            vstd::seq_lib::to_multiset_update(s1, j, s[p]);
            assert(t == s1.update(j, s[p]));
            let ms = s.to_multiset();
            assert(t.to_multiset() == ms.insert(s[j]).remove(s[p]).insert(s[p]).remove(s[j]));
            vstd::seq_lib::to_multiset_contains(s, s[p]);
            assert(s.contains(s[p]));
            assert(t.to_multiset() =~= s.to_multiset()) by {
                broadcast use vstd::multiset::group_multiset_axioms;
            }
        }
        lemma_reverse_from_multiset(t, m as int);
    }
}

proof fn lemma_reverse_from_multiset(t: Seq<usize>, m: int)
    requires
        0 <= m <= t.len(),
    ensures
        reverse_from(t, m).to_multiset() == t.to_multiset(),
{
    let a = t.subrange(0, m);
    let b = t.subrange(m, t.len() as int);
    assert(reverse_from(t, m) =~= a + b.reverse());
    assert(t =~= a + b);
    vstd::seq_lib::lemma_multiset_commutative(a, b.reverse());
    vstd::seq_lib::lemma_multiset_commutative(a, b);
    b.lemma_reverse_to_multiset();
}

/// A rearrangement of a permutation of 0..n is a permutation of 0..n.
pub proof fn lemma_rearranged_perm(s: Seq<usize>, t: Seq<usize>, n: nat)
    requires
        is_perm(s, n),
        t.to_multiset() == s.to_multiset(),
    ensures
        is_perm(t, n),
{
    broadcast use vstd::seq_lib::group_to_multiset_ensures;
    assert(t.len() == s.len()) by {
        vstd::seq_lib::to_multiset_len(t);
        vstd::seq_lib::to_multiset_len(s);
    }
    assert(s.no_duplicates()) by {
        assert forall|i: int, j: int| 0 <= i < s.len() && 0 <= j < s.len() && i != j implies s[i] != s[j] by {}
    }
    s.lemma_multiset_has_no_duplicates();
    t.lemma_multiset_has_no_duplicates_conv();
    assert forall|i: int| 0 <= i < n implies #[trigger] t[i] < n by {
        vstd::seq_lib::to_multiset_contains(t, t[i]);
        assert(t.contains(t[i]));
        vstd::seq_lib::to_multiset_contains(s, t[i]);
        let k = choose|k: int| 0 <= k < s.len() && s[k] == t[i];
    }
}

} // verus!
