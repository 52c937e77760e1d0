//! Permutations of 0..n whose size is chosen at run time.
use vstd::prelude::*;
use crate::set_util::{is_perm, index_of, identity_seq, lemma_perm_surjective, lemma_identity_is_perm};
use crate::arrangement::{next_arrangement, advance_arrangement, lemma_rearranged_perm};
use crate::permutation::{Permutation, fact, factorial, lemma_fact_pos, lemma_fact_mono};

verus! {

/// The arrangement of `left` with the given rank, arrangements being ranked in
/// lexicographic order of the positions they take from `left`.
pub open spec fn unrank(rank: nat, left: Seq<usize>) -> Seq<usize>
    decreases left.len(),
{
    if left.len() == 0 {
        Seq::empty()
    } else {
        let f = fact((left.len() - 1) as nat);
        let d = (rank / f) as int;
        if 0 <= d < left.len() {
            seq![left[d]] + unrank(rank % f, left.remove(d))
        } else {
            Seq::empty()
        }
    }
}

proof fn lemma_remove_index(s: Seq<usize>, d: int)
    requires
        0 <= d < s.len(),
    ensures
        s.remove(d).len() == s.len() - 1,
        forall|i: int| 0 <= i < d ==> #[trigger] s.remove(d)[i] == s[i],
        forall|i: int| d <= i < s.len() - 1 ==> #[trigger] s.remove(d)[i] == s[i + 1],
{
}

proof fn lemma_rank_digit(rank: nat, m: nat)
    requires
        m >= 1,
        rank < fact(m),
    ensures
        rank / fact((m - 1) as nat) < m,
        rank % fact((m - 1) as nat) < fact((m - 1) as nat),
{
    let f = fact((m - 1) as nat);
    lemma_fact_pos((m - 1) as nat);
    assert(fact(m) == m * f);
    assert(rank / f < m) by (nonlinear_arith)
        requires
            f >= 1,
            rank < m * f,
    ;
    assert(rank % f < f) by (nonlinear_arith)
        requires
            f >= 1,
    ;
}

/// An arrangement holds the same elements as `left`, each once.
proof fn lemma_unrank_rearranges(rank: nat, left: Seq<usize>)
    requires
        rank < fact(left.len()),
        left.no_duplicates(),
    ensures
        unrank(rank, left).len() == left.len(),
        unrank(rank, left).no_duplicates(),
        forall|x: usize| #[trigger] unrank(rank, left).contains(x) <==> left.contains(x),
    decreases left.len(),
{
    if left.len() > 0 {
        let m = left.len();
        let f = fact((m - 1) as nat);
        lemma_rank_digit(rank, m);
        assert(rank / f < m);
        lemma_fact_pos((m - 1) as nat);
        let d = (rank / f) as int;
        assert(0 <= d);
        assert(d < m);
        let rest = left.remove(d);
        lemma_remove_index(left, d);
        assert forall|x: usize| #[trigger] rest.contains(x) <==> (left.contains(x) && x != left[d]) by {
            if rest.contains(x) {
                let i = choose|i: int| 0 <= i < rest.len() && rest[i] == x;
                if i < d {
                    assert(left[i] == x);
                } else {
                    assert(left[i + 1] == x);
                }
            }
            if left.contains(x) && x != left[d] {
                let i = choose|i: int| 0 <= i < left.len() && left[i] == x;
                if i < d {
                    assert(rest[i] == x);
                } else {
                    assert(rest[i - 1] == x);
                }
            }
        }
        assert(rest.no_duplicates()) by {
            assert forall|i: int, j: int| 0 <= i < rest.len() && 0 <= j < rest.len() && i != j implies rest[i] != rest[j] by {
                let li = if i < d { i } else { i + 1 };
                let lj = if j < d { j } else { j + 1 };
                assert(rest[i] == left[li] && rest[j] == left[lj]);
            }
        }
        lemma_unrank_rearranges(rank % f, rest);
        let tail = unrank(rank % f, rest);
        let r = unrank(rank, left);
        assert(r == seq![left[d]] + tail);
        assert forall|x: usize| #[trigger] r.contains(x) <==> left.contains(x) by {
            if r.contains(x) {
                let i = choose|i: int| 0 <= i < r.len() && r[i] == x;
                if i > 0 {
                    assert(tail[i - 1] == x);
                    assert(tail.contains(x));
                }
            }
            if left.contains(x) {
                if x == left[d] {
                    assert(r[0] == x);
                } else {
                    assert(rest.contains(x));
                    assert(tail.contains(x));
                    let i = choose|i: int| 0 <= i < tail.len() && tail[i] == x;
                    assert(r.len() == tail.len() + 1);
                    assert(r[i + 1] == tail[i]);
                }
            }
        }
        assert forall|i: int, j: int| 0 <= i < r.len() && 0 <= j < r.len() && i != j implies r[i] != r[j] by {
            if i > 0 && j > 0 {
                assert(r[i] == tail[i - 1] && r[j] == tail[j - 1]);
            } else if i == 0 {
                assert(r[j] == tail[j - 1]);
                assert(tail.contains(r[j]));
            } else {
                assert(r[i] == tail[i - 1]);
                assert(tail.contains(r[i]));
            }
        }
    }
}

/// A permutation of 0..n for an n known at run time: element `i` is sent to `self@[i]`.
#[derive(PartialEq, Eq, Debug)]
pub struct PermutationDyn(Vec<usize>);

impl Clone for PermutationDyn {
    fn clone(&self) -> (r: Self)
        ensures
            r@ == self@,
    {
        proof {
            use_type_invariant(self);
        }
        let v = self.0.clone();
        assert(v@ =~= self.0@);
        PermutationDyn(v)
    }
}

impl View for PermutationDyn {
    type V = Seq<usize>;

    closed spec fn view(&self) -> Seq<usize> {
        self.0@
    }
}

/// Exchanges two entries of a vector.
fn swap_entries(v: &mut Vec<usize>, i: usize, j: usize)
    requires
        i < old(v)@.len(),
        j < old(v)@.len(),
    ensures
        final(v)@ == old(v)@.update(i as int, old(v)@[j as int]).update(j as int, old(v)@[i as int]),
{
    let a = v[i];
    let b = v[j];
    v.set(i, b);
    v.set(j, a);
}

impl PermutationDyn {
    /// The entries list each of 0..len exactly once.
    #[verifier::type_invariant]
    pub closed spec fn is_permutation(&self) -> bool {
        is_perm(self.0@, self.0@.len())
    }

    /// Every permutation lists each of 0..len exactly once
    /// (its premise is given by `use_type_invariant`).
    pub proof fn lemma_wf(p: &Self)
        requires
            p.is_permutation(),
        ensures
            is_perm(p@, p@.len()),
            forall|v: int| 0 <= v < p@.len() ==> 0 <= #[trigger] index_of(p@, v) < p@.len() && p@[index_of(p@, v)] as int == v,
    {
        lemma_perm_surjective(p@, p@.len());
    }

    pub fn identity(n: usize) -> (r: Self)
        ensures
            r@ == identity_seq(n as nat),
    {
        let mut elements: Vec<usize> = Vec::new();
        let mut i: usize = 0;
        while i < n
            invariant
                i <= n,
                elements@ == identity_seq(i as nat),
            decreases n - i,
        {
            elements.push(i);
            i += 1;
            assert(elements@ =~= identity_seq(i as nat));
        }
        proof {
            lemma_identity_is_perm(n as nat);
        }
        PermutationDyn(elements)
    }

    /// The permutation of 0..n with the given rank in lexicographic order.
    pub fn from_rank(rank: usize, n: usize) -> (r: Self)
        requires
            n == 0 || rank < fact(n as nat),
            n == 0 || fact((n - 1) as nat) <= usize::MAX,
        ensures
            r@ == unrank(rank as nat, identity_seq(n as nat)),
    {
        let ghost rank0 = rank as nat;
        let mut rank = rank;
        let mut left: Vec<usize> = Self::identity(n).into_vec();
        let mut permutation: Vec<usize> = Vec::new();
        let mut k: usize = 0;
        proof {
            if n == 0 {
                assert(unrank(rank0, identity_seq(0)) =~= Seq::<usize>::empty());
            }
        }
        while k < n
            invariant
                k <= n,
                left@.len() == n - k,
                n == 0 || fact((n - 1) as nat) <= usize::MAX,
                k < n ==> rank < fact((n - k) as nat),
                permutation@ + unrank(rank as nat, left@) == unrank(rank0, identity_seq(n as nat)),
            decreases n - k,
        {
            proof {
                lemma_fact_mono((n - k - 1) as nat, (n - 1) as nat);
                lemma_rank_digit(rank as nat, (n - k) as nat);
            }
            let fac = factorial(n - k - 1);
            proof {
                lemma_fact_pos((n - k - 1) as nat);
            }
            let d = rank / fac;
            let ghost before = left@;
            let ghost prev = permutation@;
            let ghost rank_before = rank as nat;
            proof {
                lemma_remove_index(before, d as int);
            }
            let v = left.remove(d);
            permutation.push(v);
            rank = rank % fac;
            proof {
                assert(before.len() == n - k);
                assert(unrank(rank_before, before) == seq![v] + unrank(rank as nat, left@));
                assert(permutation@ == prev + seq![v]);
                assert(prev + seq![v] + unrank(rank as nat, left@) =~= prev + (seq![v] + unrank(rank as nat, left@)));
            }
            k += 1;
        }
        assert(permutation@ + unrank(rank as nat, left@) =~= permutation@);
        proof {
            lemma_identity_is_perm(n as nat);
            let id = identity_seq(n as nat);
            assert(id.no_duplicates()) by {
                assert forall|i: int, j: int| 0 <= i < id.len() && 0 <= j < id.len() && i != j implies id[i] != id[j] by {}
            }
            if n > 0 {
                lemma_unrank_rearranges(rank0, id);
            } else {
                assert(unrank(rank0, id) =~= Seq::<usize>::empty());
            }
            let r = unrank(rank0, id);
            assert forall|i: int| 0 <= i < n implies #[trigger] r[i] < n by {
                assert(r.contains(r[i]));
                assert(id.contains(r[i]));
            }
        }
        PermutationDyn(permutation)
    }

    pub fn from_array<const N: usize>(elements: [usize; N]) -> (r: Self)
        requires
            is_perm(elements@, N as nat),
        ensures
            r@ == elements@,
    {
        let mut v: Vec<usize> = Vec::new();
        let mut i: usize = 0;
        while i < N
            invariant
                i <= N,
                v@ == elements@.take(i as int),
            decreases N - i,
        {
            v.push(elements[i]);
            i += 1;
            assert(v@ =~= elements@.take(i as int));
        }
        assert(v@ =~= elements@);
        PermutationDyn(v)
    }

    pub fn from_vec(elements: Vec<usize>) -> (r: Self)
        requires
            is_perm(elements@, elements@.len()),
        ensures
            r@ == elements@,
    {
        PermutationDyn(elements)
    }

    pub fn into_vec(self) -> (r: Vec<usize>)
        ensures
            r@ == self@,
            is_perm(r@, r@.len()),
    {
        proof {
            use_type_invariant(&self);
        }
        self.0
    }

    pub fn as_vec(&self) -> (r: &Vec<usize>)
        ensures
            r@ == self@,
            is_perm(r@, r@.len()),
    {
        proof {
            use_type_invariant(self);
        }
        &self.0
    }

    pub fn len(&self) -> (r: usize)
        ensures
            r == self@.len(),
    {
        self.0.len()
    }

    /// This permutation, extended by the identity on len..N.
    pub fn pad_with_id<const N: usize>(&self) -> (r: Permutation<N>)
        requires
            self@.len() <= N,
        ensures
            forall|i: int| 0 <= i < self@.len() ==> #[trigger] r@[i] == self@[i],
            forall|i: int| self@.len() <= i < N ==> #[trigger] r@[i] == i,
    {
        proof {
            use_type_invariant(self);
        }
        let mut new = Permutation::<N>::identity().into_array();
        let mut i: usize = 0;
        while i < self.0.len()
            invariant
                i <= self@.len() <= N,
                is_perm(self@, self@.len()),
                forall|k: int| 0 <= k < i ==> #[trigger] new@[k] == self@[k],
                forall|k: int| i <= k < N ==> #[trigger] new@[k] == k,
            decreases self@.len() - i,
        {
            new[i] = self.0[i];
            i += 1;
        }
        proof {
            assert forall|p: int, q: int| 0 <= p < N && 0 <= q < N && p != q implies #[trigger] new@[p] != #[trigger] new@[q] by {
                if p < self@.len() && q < self@.len() {
                } else if p < self@.len() {
                    assert(new@[p] < self@.len());
                } else if q < self@.len() {
                    assert(new@[q] < self@.len());
                }
            }
        }
        Permutation::from_array(new)
    }

    /// The permutation that undoes this one.
    pub fn inverse(self) -> (r: Self)
        ensures
            r@.len() == self@.len(),
            forall|i: int| 0 <= i < self@.len() ==> #[trigger] r@[self@[i] as int] == i,
            forall|i: int| 0 <= i < self@.len() ==> #[trigger] self@[r@[i] as int] == i,
    {
        proof {
            use_type_invariant(&self);
            lemma_perm_surjective(self@, self@.len());
        }
        let ghost s = self@;
        let len = self.0.len();
        let mut identity = Self::identity(len).0;
        let mut permutation = self.0;
        let mut i: usize = 0;
        proof {
            assert forall|k: int| 0 <= k < len implies #[trigger] index_of(s, permutation@[k] as int) == identity@[k] by {
                let j = index_of(s, s[k] as int);
                assert(s[j] == s[k]);
            }
        }
        while i < len
            invariant
                i <= len,
                len == s.len(),
                is_perm(s, len as nat),
                forall|v: int| 0 <= v < len ==> 0 <= #[trigger] index_of(s, v) < len && s[index_of(s, v)] as int == v,
                is_perm(permutation@, len as nat),
                identity@.len() == len,
                forall|k: int| 0 <= k < i ==> #[trigger] permutation@[k] == k,
                forall|k: int| 0 <= k < len ==> #[trigger] index_of(s, permutation@[k] as int) == identity@[k],
            decreases len - i,
        {
            if permutation[i] != i {
                let mut pos_i: usize = i + 1;
                proof {
                    lemma_perm_surjective(permutation@, len as nat);
                    let q = index_of(permutation@, i as int);
                    assert(q >= i) by {
                        if q < i {
                            assert(permutation@[q] == q);
                        }
                    }
                }
                while permutation[pos_i] != i
                    invariant
                        i < pos_i < len,
                        is_perm(permutation@, len as nat),
                        forall|v: int| 0 <= v < len ==> 0 <= #[trigger] index_of(permutation@, v) < len && permutation@[index_of(permutation@, v)] as int == v,
                        index_of(permutation@, i as int) >= pos_i,
                    decreases len - pos_i,
                {
                    proof {
                        let q = index_of(permutation@, i as int);
                        assert(q != pos_i);
                    }
                    pos_i += 1;
                }
                let ghost before_p = permutation@;
                let ghost before_id = identity@;
                swap_entries(&mut identity, i, pos_i);
                swap_entries(&mut permutation, i, pos_i);
                proof {
                    assert forall|p: int, q: int| 0 <= p < len && 0 <= q < len && p != q implies #[trigger] permutation@[p] != #[trigger] permutation@[q] by {
                        assert(before_p[p] != before_p[q] || p == q);
                    }
                }
            }
            i += 1;
        }
        proof {
            assert forall|k: int| 0 <= k < len implies #[trigger] identity@[s[k] as int] == k by {
                assert(index_of(s, permutation@[s[k] as int] as int) == identity@[s[k] as int]);
                let j = index_of(s, s[k] as int);
                assert(s[j] == s[k]);
            }
            assert forall|v: int| 0 <= v < len implies #[trigger] s[identity@[v] as int] == v by {
                assert(index_of(s, permutation@[v] as int) == identity@[v]);
            }
            assert forall|v: int| 0 <= v < len implies #[trigger] identity@[v] < len by {
                assert(index_of(s, permutation@[v] as int) == identity@[v]);
            }
            assert forall|p: int, q: int| 0 <= p < len && 0 <= q < len && p != q implies #[trigger] identity@[p] != #[trigger] identity@[q] by {
                assert(index_of(s, permutation@[p] as int) == identity@[p]);
                assert(index_of(s, permutation@[q] as int) == identity@[q]);
            }
        }
        PermutationDyn(identity)
    }

    pub fn apply(&self, num: usize) -> (r: usize)
        requires
            num < self@.len(),
        ensures
            r == self@[num as int],
            r < self@.len(),
    {
        proof {
            use_type_invariant(self);
        }
        self.0[num]
    }

    /// Moves the entry at `i` to position `self@[i]`.
    pub fn apply_vec<T: Copy>(&self, array: Vec<T>) -> (r: Vec<T>)
        requires
            array@.len() == self@.len(),
        ensures
            r@.len() == array@.len(),
            forall|i: int| 0 <= i < array@.len() ==> #[trigger] r@[self@[i] as int] == array@[i],
    {
        proof {
            use_type_invariant(self);
        }
        let mut new_array = array.clone();
        let n = self.0.len();
        let mut i: usize = 0;
        while i < n
            invariant
                i <= n,
                n == self@.len(),
                new_array@.len() == n,
                array@.len() == n,
                is_perm(self@, n as nat),
                forall|k: int| 0 <= k < i ==> #[trigger] new_array@[self@[k] as int] == array@[k],
            decreases n - i,
        {
            new_array.set(self.0[i], array[i]);
            proof {
                assert forall|k: int| 0 <= k < i + 1 implies #[trigger] new_array@[self@[k] as int] == array@[k] by {
                    if k < i {
                        assert(self@[k] != self@[i as int]);
                    }
                }
            }
            i += 1;
        }
        new_array
    }
}

/// Enumerates all permutations of 0..n in lexicographic order, starting from the identity.
#[derive(Debug)]
pub struct PermutationDynIter {
    indices: Vec<usize>,
    left: usize,
    n: usize,
}

impl Clone for PermutationDynIter {
    fn clone(&self) -> (r: Self)
        ensures
            r.current() == self.current(),
            r.remaining() == self.remaining(),
    {
        proof {
            use_type_invariant(self);
        }
        let indices = self.indices.clone();
        assert(indices@ =~= self.indices@);
        PermutationDynIter { indices, left: self.left, n: self.n }
    }
}

impl PermutationDynIter {
    #[verifier::type_invariant]
    spec fn indices_are_permutation(&self) -> bool {
        &&& self.indices@.len() == self.n
        &&& is_perm(self.indices@, self.n as nat)
    }

    /// How many permutations are still to come.
    pub closed spec fn remaining(&self) -> nat {
        self.left as nat
    }

    /// The permutation handed out last (the last one in order before the first call).
    pub closed spec fn current(&self) -> Seq<usize> {
        self.indices@
    }

    /// The number of elements permuted.
    pub closed spec fn size(&self) -> nat {
        self.n as nat
    }

    pub fn new(n: usize) -> (r: Self)
        requires
            fact(n as nat) <= usize::MAX,
        ensures
            r.remaining() == fact(n as nat),
            r.size() == n,
            r.current() == Seq::new(n as nat, |i: int| (n - 1 - i) as usize),
    {
        let mut indices: Vec<usize> = Vec::new();
        let mut i: usize = 0;
        while i < n
            invariant
                i <= n,
                indices@ == Seq::new(i as nat, |k: int| (n - 1 - k) as usize),
            decreases n - i,
        {
            indices.push(n - i - 1);
            i += 1;
            assert(indices@ =~= Seq::new(i as nat, |k: int| (n - 1 - k) as usize));
        }
        proof {
            assert forall|p: int, q: int| 0 <= p < n && 0 <= q < n && p != q implies #[trigger] indices@[p] != #[trigger] indices@[q] by {}
        }
        PermutationDynIter { n, indices, left: factorial(n) }
    }

    pub fn len(&self) -> (r: usize)
        ensures
            r == self.remaining(),
    {
        self.left
    }

    /// The next permutation in lexicographic order; the first call yields the identity.
    pub fn next(&mut self) -> (r: Option<PermutationDyn>)
        requires
            old(self).size() >= 1,
        ensures
            final(self).current() == next_arrangement(old(self).current()),
            final(self).size() == old(self).size(),
            old(self).remaining() == 0 ==> r is None,
            old(self).remaining() > 0 ==> (r matches Some(p) && p@ == final(self).current() && final(self).remaining() == old(self).remaining() - 1),
    {
        proof {
            use_type_invariant(&*self);
        }
        let mut indices = self.indices.clone();
        assert(indices@ =~= self.indices@);
        let ghost before = indices@;
        advance_arrangement(&mut indices);
        proof {
            lemma_rearranged_perm(before, indices@, self.n as nat);
        }
        self.indices = indices;
        if self.left == 0 {
            None
        } else {
            self.left -= 1;
            let v = self.indices.clone();
            assert(v@ =~= self.indices@);
            Some(PermutationDyn(v))
        }
    }
}

impl<const N: usize> Permutation<N> {
    /// The permutation of 0..N that a run-time permutation of the same length lists.
    pub fn from_dyn(value: &PermutationDyn) -> (r: Self)
        requires
            value@.len() == N,
        ensures
            r@ == value@,
    {
        proof {
            use_type_invariant(value);
        }
        let mut vals = [0usize; N];
        let mut k: usize = 0;
        while k < N
            invariant
                k <= N == value@.len(),
                value.0@ == value@,
                forall|m: int| 0 <= m < k ==> #[trigger] vals@[m] == value@[m],
            decreases N - k,
        {
            vals[k] = value.0[k];
            k += 1;
        }
        assert(vals@ =~= value@);
        Permutation::from_array(vals)
    }
}

} // verus!
