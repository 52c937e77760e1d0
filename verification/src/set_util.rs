//! Facts about finite sets of integers that the bit set types rely on.
use vstd::prelude::*;
use vstd::set_lib::*;

verus! {

/// `m` is the least element of `s`.
pub open spec fn is_least(s: Set<int>, m: int) -> bool {
    &&& s.contains(m)
    &&& forall|x: int| s.contains(x) ==> m <= x
}

/// The least element of `s` (arbitrary when `s` is empty).
pub open spec fn set_min(s: Set<int>) -> int {
    choose|m: int| is_least(s, m)
}

/// The set of the values of a sequence of indices, as integers.
pub open spec fn usize_seq_set(s: Seq<usize>) -> Set<int> {
    Set::new(|x: int| exists|k: int| 0 <= k < s.len() && s[k] as int == x)
}

pub proof fn lemma_set_min_unique(s: Set<int>, m: int)
    requires
        is_least(s, m),
    ensures
        set_min(s) == m,
{
    let c = set_min(s);
    assert(is_least(s, c));
}

pub proof fn lemma_subset_range_finite(s: Set<int>, lo: int, hi: int)
    requires
        lo <= hi,
        forall|x: int| s.contains(x) ==> lo <= x < hi,
    ensures
        s.finite(),
        s.len() <= hi - lo,
{
    lemma_int_range(lo, hi);
    assert(s.subset_of(set_int_range(lo, hi)));
    lemma_len_subset(s, set_int_range(lo, hi));
}

/// The size of a union of two disjoint finite sets.
pub proof fn lemma_set_disjoint_lens(a: Set<int>, b: Set<int>)
    requires
        a.finite(),
        b.finite(),
        a.disjoint(b),
    ensures
        a.union(b).len() == a.len() + b.len(),
        a.union(b).finite(),
{
    vstd::set_lib::lemma_set_disjoint_lens(a, b);
}

/// Adding one more element of a sequence to the prefix adds it to the set of values.
pub proof fn lemma_usize_seq_set_take(s: Seq<usize>, i: int)
    requires
        0 <= i < s.len(),
    ensures
        usize_seq_set(s.take(i + 1)) == usize_seq_set(s.take(i)).insert(s[i] as int),
{
    let a = usize_seq_set(s.take(i + 1));
    let b = usize_seq_set(s.take(i)).insert(s[i] as int);
    assert forall|x: int| a.contains(x) implies b.contains(x) by {
        let k = choose|k: int| 0 <= k < i + 1 && #[trigger] s.take(i + 1)[k] as int == x;
        if k < i {
            assert(s.take(i)[k] == s.take(i + 1)[k]);
        }
    }
    assert forall|x: int| b.contains(x) implies a.contains(x) by {
        if x == s[i] as int {
            assert(s.take(i + 1)[i] == s[i]);
        } else {
            let k = choose|k: int| 0 <= k < i && #[trigger] s.take(i)[k] as int == x;
            assert(s.take(i)[k] == s.take(i + 1)[k]);
        }
    }
    assert(a =~= b);
}

pub proof fn lemma_usize_seq_set_full(s: Seq<usize>)
    ensures
        usize_seq_set(s.take(s.len() as int)) == usize_seq_set(s),
        usize_seq_set(s.take(0)) == Set::<int>::empty(),
{
    assert(s.take(s.len() as int) =~= s);
    assert(usize_seq_set(s.take(0)) =~= Set::<int>::empty());
}

/// `s` lists each of 0..n exactly once.
pub open spec fn is_perm(s: Seq<usize>, n: nat) -> bool {
    &&& s.len() == n
    &&& forall|i: int| 0 <= i < n ==> #[trigger] s[i] < n
    &&& forall|i: int, j: int| 0 <= i < n && 0 <= j < n && i != j ==> #[trigger] s[i] != #[trigger] s[j]
}

/// The position at which `s` holds `v`.
pub open spec fn index_of(s: Seq<usize>, v: int) -> int {
    choose|i: int| 0 <= i < s.len() && s[i] as int == v
}

/// A permutation holds every value below its length.
pub proof fn lemma_perm_surjective(s: Seq<usize>, n: nat)
    requires
        is_perm(s, n),
    ensures
        forall|v: int| 0 <= v < n ==> #[trigger] usize_seq_set(s).contains(v),
        forall|v: int| 0 <= v < n ==> 0 <= #[trigger] index_of(s, v) < n && s[index_of(s, v)] as int == v,
{
    let dom = set_int_range(0, n as int);
    let img = usize_seq_set(s);
    let f = |i: int| s[i] as int;
    lemma_int_range(0, n as int);
    assert forall|x: int| #[trigger] img.contains(x) implies exists|i: int| dom.contains(i) && f(i) == x by {
        let k = choose|k: int| 0 <= k < s.len() && #[trigger] s[k] as int == x;
        assert(dom.contains(k));
    }
    assert forall|x: int| #[trigger] dom.map(f).contains(x) implies img.contains(x) by {
        let i = choose|i: int| dom.contains(i) && f(i) == x;
        assert(0 <= i < s.len() && s[i] as int == x);
    }
    assert(dom.map(f) =~= img);
    assert forall|a: int, b: int| dom.contains(a) && dom.contains(b) && #[trigger] f(a) == #[trigger] f(b) implies a == b by {}
    lemma_map_size(dom, img, f);
    assert forall|x: int| #[trigger] img.contains(x) implies dom.contains(x) by {
        let k = choose|k: int| 0 <= k < s.len() && #[trigger] s[k] as int == x;
    }
    lemma_subset_equality(img, dom);
    assert forall|v: int| 0 <= v < n implies 0 <= #[trigger] index_of(s, v) < n && s[index_of(s, v)] as int == v by {
        assert(dom.contains(v));
        assert(img.contains(v));
    }
}

/// A sequence of n values below n that holds every value below n is a permutation.
pub proof fn lemma_surjective_is_perm(s: Seq<usize>, n: nat)
    requires
        s.len() == n,
        forall|i: int| 0 <= i < n ==> #[trigger] s[i] < n,
        forall|v: int| 0 <= v < n ==> #[trigger] usize_seq_set(s).contains(v),
    ensures
        is_perm(s, n),
{
    assert forall|i: int, j: int| 0 <= i < n && 0 <= j < n && i != j implies #[trigger] s[i] != #[trigger] s[j] by {
        if s[i] == s[j] {
            let dom = set_int_range(0, n as int).remove(j);
            let f = |k: int| s[k] as int;
            lemma_int_range(0, n as int);
            assert forall|x: int| #[trigger] dom.map(f).contains(x) implies usize_seq_set(s).contains(x) by {
                let k = choose|k: int| dom.contains(k) && f(k) == x;
                assert(0 <= k < s.len() && s[k] as int == x);
            }
            assert forall|x: int| #[trigger] usize_seq_set(s).contains(x) implies dom.map(f).contains(x) by {
                let k = choose|k: int| 0 <= k < s.len() && #[trigger] s[k] as int == x;
                if k == j {
                    assert(dom.contains(i) && f(i) == x);
                } else {
                    assert(dom.contains(k) && f(k) == x);
                }
            }
            assert(dom.map(f) =~= usize_seq_set(s));
            lemma_map_size_bound(dom, usize_seq_set(s), f);
            assert(set_int_range(0, n as int).subset_of(usize_seq_set(s)));
            lemma_len_subset(set_int_range(0, n as int), usize_seq_set(s));
            assert(false);
        }
    }
}

/// The identity on 0..n.
pub open spec fn identity_seq(n: nat) -> Seq<usize> {
    Seq::new(n, |i: int| i as usize)
}

pub proof fn lemma_identity_is_perm(n: nat)
    requires
        n <= usize::MAX + 1,
    ensures
        is_perm(identity_seq(n), n),
{
}

} // verus!
