//! Permutations of 0..N, and an enumeration of all of them.
use vstd::prelude::*;
use crate::arrangement::{next_arrangement, advance_arrangement, lemma_rearranged_perm};
use crate::set_util::{is_perm, index_of, identity_seq, lemma_perm_surjective, lemma_identity_is_perm};
use crate::orbit::{pow_apply, is_cycle_of, is_cycle_decomposition, occurs_in, lemma_pow_in_range,
    lemma_pow_cancel, lemma_orbit_returns, lemma_cycle_closed_backward, fixes_all, is_order, order_of,
    lemma_order_exists, lemma_pow_add, lemma_pow_mult};
use crate::set_util::{usize_seq_set, lemma_usize_seq_set_take, lemma_usize_seq_set_full, lemma_subset_range_finite, lemma_set_disjoint_lens};

pub use crate::permutation_dyn::{PermutationDyn, PermutationDynIter};

verus! {

/// The views of a vector of vectors.
pub open spec fn seqs_of(v: Seq<Vec<usize>>) -> Seq<Seq<usize>> {
    v.map_values(|c: Vec<usize>| c@)
}

/// The lengths of the sequences in `cs`.
pub open spec fn lens_of(cs: Seq<Seq<usize>>) -> Seq<usize> {
    cs.map_values(|c: Seq<usize>| c.len() as usize)
}

/// n! as a natural number.
pub open spec fn fact(n: nat) -> nat
    decreases n,
{
    if n == 0 {
        1
    } else {
        n * fact((n - 1) as nat)
    }
}

/// 12! = 479001600.
pub proof fn lemma_fact_12()
    ensures
        fact(12) == 479001600,
{
    assert(fact(0) == 1);
    assert(fact(1) == 1);
    assert(fact(2) == 2);
    assert(fact(3) == 6);
    assert(fact(4) == 24);
    assert(fact(5) == 120);
    assert(fact(6) == 720);
    assert(fact(7) == 5040);
    assert(fact(8) == 40320);
    assert(fact(9) == 362880);
    assert(fact(10) == 3628800);
    assert(fact(11) == 39916800);
    assert(fact(12) == 479001600);
}

pub proof fn lemma_fact_pos(n: nat)
    ensures
        fact(n) >= 1,
    decreases n,
{
    if n > 0 {
        lemma_fact_pos((n - 1) as nat);
        assert(n * fact((n - 1) as nat) >= fact((n - 1) as nat)) by (nonlinear_arith)
            requires
                n >= 1,
                fact((n - 1) as nat) >= 1,
        ;
    }
}

pub proof fn lemma_fact_mono(m: nat, n: nat)
    requires
        m <= n,
    ensures
        fact(m) <= fact(n),
    decreases n,
{
    if m < n {
        lemma_fact_mono(m, (n - 1) as nat);
        lemma_fact_pos((n - 1) as nat);
        assert(n * fact((n - 1) as nat) >= fact((n - 1) as nat)) by (nonlinear_arith)
            requires
                n >= 1,
                fact((n - 1) as nat) >= 1,
        ;
    }
}

/// a! * b! <= (a + b)!.
pub proof fn lemma_fact_product(a: nat, b: nat)
    ensures
        fact(a) * fact(b) <= fact(a + b),
    decreases b,
{
    if b > 0 {
        let b1 = (b - 1) as nat;
        lemma_fact_product(a, b1);
        lemma_fact_pos(a);
        lemma_fact_pos(b1);
        assert(fact(b) == b * fact(b1));
        assert(fact(a + b) == (a + b) * fact((a + b1) as nat));
        assert(fact(a) * (b * fact(b1)) <= (a + b) * fact((a + b1) as nat)) by (nonlinear_arith)
            requires
                fact(a) * fact(b1) <= fact((a + b1) as nat),
                b >= 1,
                a + b >= b,
                fact(a) >= 1,
                fact(b1) >= 1,
        ;
        assert(fact(a) * fact(b) == fact(a) * (b * fact(b1)));
    } else {
        assert(fact(0) == 1);
        assert(fact(a) * 1 == fact(a));
        assert(a + b == a);
    }
}

/// The sum of the lengths of the cycles.
pub open spec fn lens_sum(cs: Seq<Seq<usize>>) -> nat
    decreases cs.len(),
{
    if cs.len() == 0 { 0 } else { lens_sum(cs.drop_last()) + cs.last().len() }
}

/// The product of the lengths of the cycles.
pub open spec fn lens_product(cs: Seq<Seq<usize>>) -> nat
    decreases cs.len(),
{
    if cs.len() == 0 { 1 } else { lens_product(cs.drop_last()) * cs.last().len() }
}

/// The points on the cycles.
pub open spec fn cycles_points(cs: Seq<Seq<usize>>) -> Set<int>
    decreases cs.len(),
{
    if cs.len() == 0 { Set::empty() } else { cycles_points(cs.drop_last()).union(usize_seq_set(cs.last())) }
}

/// A sequence of different numbers below n has as many values as entries.
proof fn lemma_distinct_set_len(c: Seq<usize>, n: nat, k: int)
    requires
        0 <= k <= c.len(),
        forall|i: int| 0 <= i < c.len() ==> #[trigger] c[i] < n,
        forall|i: int, j: int| 0 <= i < c.len() && 0 <= j < c.len() && i != j ==> #[trigger] c[i] != #[trigger] c[j],
    ensures
        usize_seq_set(c.take(k)).finite(),
        usize_seq_set(c.take(k)).len() == k,
    decreases k,
{
    if k == 0 {
        lemma_usize_seq_set_full(c);
    } else {
        lemma_distinct_set_len(c, n, k - 1);
        lemma_usize_seq_set_take(c, k - 1);
        if usize_seq_set(c.take(k - 1)).contains(c[k - 1] as int) {
            let j = choose|j: int| 0 <= j < c.take(k - 1).len() && #[trigger] c.take(k - 1)[j] as int == c[k - 1] as int;
            assert(c[j] == c[k - 1]);
        }
    }
}

/// The points of disjoint cycles of points below n number the sum of their lengths.
proof fn lemma_cycles_points(cs: Seq<Seq<usize>>, n: nat)
    requires
        forall|a: int, i: int| 0 <= a < cs.len() && 0 <= i < cs[a].len() ==> #[trigger] cs[a][i] < n,
        forall|a: int, i: int, b: int, j: int|
            0 <= a < cs.len() && 0 <= i < cs[a].len() && 0 <= b < cs.len() && 0 <= j < cs[b].len()
                && (a != b || i != j) ==> #[trigger] cs[a][i] != #[trigger] cs[b][j],
    ensures
        cycles_points(cs).finite(),
        cycles_points(cs).len() == lens_sum(cs),
        forall|x: int| #[trigger] cycles_points(cs).contains(x) ==> 0 <= x < n,
    decreases cs.len(),
{
    if cs.len() > 0 {
        let d = cs.drop_last();
        let c = cs.last();
        assert forall|a: int, i: int, b: int, j: int|
            0 <= a < d.len() && 0 <= i < d[a].len() && 0 <= b < d.len() && 0 <= j < d[b].len()
                && (a != b || i != j) implies #[trigger] d[a][i] != #[trigger] d[b][j] by {
            assert(d[a] == cs[a] && d[b] == cs[b]);
        }
        assert forall|a: int, i: int| 0 <= a < d.len() && 0 <= i < d[a].len() implies #[trigger] d[a][i] < n by {
            assert(d[a] == cs[a]);
        }
        lemma_cycles_points(d, n);
        let l = cs.len() - 1;
        assert forall|i: int, j: int| 0 <= i < c.len() && 0 <= j < c.len() && i != j implies #[trigger] c[i] != #[trigger] c[j] by {
            assert(cs[l][i] != cs[l][j]);
        }
        assert forall|i: int| 0 <= i < c.len() implies #[trigger] c[i] < n by {
            assert(cs[l][i] < n);
        }
        lemma_distinct_set_len(c, n, c.len() as int);
        assert(c.take(c.len() as int) =~= c);
        assert(cycles_points(d).disjoint(usize_seq_set(c))) by {
            assert forall|x: int| cycles_points(d).contains(x) implies !usize_seq_set(c).contains(x) by {
                if usize_seq_set(c).contains(x) {
                    let j = choose|j: int| 0 <= j < c.len() && #[trigger] c[j] as int == x;
                    lemma_cycles_points_member(d, x);
                    let (a, i) = choose|a: int, i: int| 0 <= a < d.len() && 0 <= i < d[a].len() && #[trigger] d[a][i] as int == x;
                    assert(d[a] == cs[a]);
                    assert(cs[a][i] != cs[l][j]);
                }
            }
        }
        lemma_set_disjoint_lens(cycles_points(d), usize_seq_set(c));
        assert forall|x: int| #[trigger] cycles_points(cs).contains(x) implies 0 <= x < n by {
            if usize_seq_set(c).contains(x) {
                let j = choose|j: int| 0 <= j < c.len() && #[trigger] c[j] as int == x;
            }
        }
    }
}

/// A point of the cycles lies on one of them.
proof fn lemma_cycles_points_member(cs: Seq<Seq<usize>>, x: int)
    requires
        cycles_points(cs).contains(x),
    ensures
        exists|a: int, i: int| 0 <= a < cs.len() && 0 <= i < cs[a].len() && #[trigger] cs[a][i] as int == x,
    decreases cs.len(),
{
    if cs.len() > 0 {
        let d = cs.drop_last();
        if cycles_points(d).contains(x) {
            lemma_cycles_points_member(d, x);
            let (a, i) = choose|a: int, i: int| 0 <= a < d.len() && 0 <= i < d[a].len() && #[trigger] d[a][i] as int == x;
            assert(cs[a] == d[a]);
        } else {
            let j = choose|j: int| 0 <= j < cs.last().len() && #[trigger] cs.last()[j] as int == x;
            assert(cs[cs.len() - 1][j] as int == x);
        }
    }
}

/// Cycles of lengths at least 1 have a product of lengths at most the factorial of the sum.
proof fn lemma_lens_product(cs: Seq<Seq<usize>>)
    requires
        forall|a: int| 0 <= a < cs.len() ==> (#[trigger] cs[a]).len() >= 1,
    ensures
        1 <= lens_product(cs) <= fact(lens_sum(cs)),
    decreases cs.len(),
{
    if cs.len() > 0 {
        let d = cs.drop_last();
        assert forall|a: int| 0 <= a < d.len() implies (#[trigger] d[a]).len() >= 1 by {
            assert(d[a] == cs[a]);
        }
        lemma_lens_product(d);
        let l = cs.last().len();
        assert(cs[cs.len() - 1].len() >= 1);
        lemma_fact_pos((l - 1) as nat);
        assert(fact(l) == l * fact((l - 1) as nat));
        assert(l <= fact(l)) by (nonlinear_arith)
            requires
                fact(l) == l * fact((l - 1) as nat),
                fact((l - 1) as nat) >= 1,
                l >= 1,
        ;
        lemma_fact_product(lens_sum(d), l);
        assert(lens_product(d) * l <= fact(lens_sum(d)) * fact(l)) by (nonlinear_arith)
            requires
                1 <= lens_product(d) <= fact(lens_sum(d)),
                1 <= l <= fact(l),
        ;
        assert(lens_product(d) * l >= 1) by (nonlinear_arith)
            requires
                lens_product(d) >= 1,
                l >= 1,
        ;
    }
}

/// m times l.
spec fn scaled(m: nat, l: nat) -> nat {
    m * l
}

/// The product of the lengths is a multiple of each length.
proof fn lemma_lens_product_multiple(cs: Seq<Seq<usize>>, a: int)
    requires
        0 <= a < cs.len(),
    ensures
        exists|m: nat| lens_product(cs) == #[trigger] scaled(m, cs[a].len()),
    decreases cs.len(),
{
    let d = cs.drop_last();
    let l = cs.last().len();
    if a == cs.len() - 1 {
        assert(lens_product(cs) == scaled(lens_product(d), l));
    } else {
        lemma_lens_product_multiple(d, a);
        let m = choose|m: nat| lens_product(d) == #[trigger] scaled(m, d[a].len());
        assert(d[a] == cs[a]);
        assert(lens_product(cs) == (m * l) * cs[a].len()) by (nonlinear_arith)
            requires
                lens_product(cs) == lens_product(d) * l,
                lens_product(d) == m * cs[a].len(),
        ;
        assert(lens_product(cs) == scaled(m * l, cs[a].len()));
    }
}

/// Going once around a cycle brings each of its points back.
proof fn lemma_cycle_returns(p: Seq<usize>, c: Seq<usize>, i: int)
    requires
        is_cycle_of(p, c),
        0 <= i < c.len(),
    ensures
        pow_apply(p, c.len(), c[i] as int) == c[i] as int,
{
    let l = c.len();
    lemma_cycle_walk(p, c, i as nat);
    lemma_cycle_walk(p, c, (l - 1) as nat);
    assert(p[c[l - 1] as int] == c[(l - 1 + 1) % (l as int)]);
    assert((l - 1 + 1) % (l as int) == 0) by {
        vstd::arithmetic::div_mod::lemma_mod_self_0(l as int);
    }
    assert(pow_apply(p, l, c[0] as int) == c[0] as int);
    lemma_pow_add(p, l, i as nat, c[0] as int);
    lemma_pow_add(p, i as nat, l, c[0] as int);
    assert(l + i == i + l);
}

/// Walking k < len steps along a cycle from its first point reaches point k.
proof fn lemma_cycle_walk(p: Seq<usize>, c: Seq<usize>, k: nat)
    requires
        is_cycle_of(p, c),
        k < c.len(),
    ensures
        pow_apply(p, k, c[0] as int) == c[k as int] as int,
    decreases k,
{
    if k > 0 {
        lemma_cycle_walk(p, c, (k - 1) as nat);
        assert(p[c[k - 1] as int] == c[(k - 1 + 1) % (c.len() as int)]);
        assert((k - 1 + 1) % (c.len() as int) == k) by {
            vstd::arithmetic::div_mod::lemma_small_mod(k, c.len());
        }
    }
}

/// The order of a permutation of n points is at most n!: the product of its cycle lengths
/// brings every point back, and that product is at most n!.
pub proof fn lemma_order_at_most_factorial(p: Seq<usize>, n: nat, cs: Seq<Seq<usize>>)
    requires
        is_perm(p, n),
        is_cycle_decomposition(p, n, cs),
    ensures
        order_of(p, n) <= fact(n),
{
    assert forall|a: int| 0 <= a < cs.len() implies (#[trigger] cs[a]).len() >= 1 by {
        assert(is_cycle_of(p, cs[a]));
    }
    lemma_lens_product(cs);
    lemma_cycles_points(cs, n);
    lemma_subset_range_finite(cycles_points(cs), 0, n as int);
    lemma_fact_mono(lens_sum(cs), n);
    let prod = lens_product(cs);
    assert forall|x: int| 0 <= x < n implies #[trigger] pow_apply(p, prod, x) == x by {
        assert(occurs_in(cs, x));
        let (a, i) = choose|a: int, i: int| 0 <= a < cs.len() && 0 <= i < cs[a].len() && #[trigger] cs[a][i] as int == x;
        assert(is_cycle_of(p, cs[a]));
        lemma_cycle_returns(p, cs[a], i);
        lemma_lens_product_multiple(cs, a);
        let m = choose|m: nat| lens_product(cs) == #[trigger] scaled(m, cs[a].len());
        lemma_pow_mult(p, cs[a].len(), m, x);
    }
    assert(fixes_all(p, n, prod));
    lemma_order_exists(p, n);
    if order_of(p, n) > prod {
        assert(!fixes_all(p, n, prod));
    }
}

/// The product 2 * 3 * ... * n.
pub fn factorial(n: usize) -> (r: usize)
    requires
        fact(n as nat) <= usize::MAX,
    ensures
        r == fact(n as nat),
{
    let mut r: usize = 1;
    let mut i: usize = 0;
    while i < n
        invariant
            i <= n,
            r == fact(i as nat),
            fact(n as nat) <= usize::MAX,
        decreases n - i,
    {
        proof {
            lemma_fact_mono((i + 1) as nat, n as nat);
        }
        i += 1;
        proof {
            assert(fact(i as nat) == i * fact((i - 1) as nat));
            assert(r * i == i * r) by (nonlinear_arith);
        }
        r = r * i;
    }
    r
}

/// A permutation of 0..N: element `i` is sent to `self@[i]`.
#[derive(PartialEq, Eq, Debug, PartialOrd, Ord)]
pub struct Permutation<const N: usize>([usize; N]);

impl<const N: usize> Clone for Permutation<N> {
    fn clone(&self) -> (r: Self)
        ensures
            r@ == self@,
    {
        proof {
            use_type_invariant(self);
        }
        Permutation(self.0)
    }
}

impl<const N: usize> View for Permutation<N> {
    type V = Seq<usize>;

    closed spec fn view(&self) -> Seq<usize> {
        self.0@
    }
}

impl<const N: usize> Permutation<N> {
    /// The entries list each of 0..N exactly once.
    #[verifier::type_invariant]
    pub closed spec fn is_permutation(&self) -> bool {
        is_perm(self.0@, N as nat)
    }

    /// Every permutation lists each of 0..N exactly once
    /// (its premise is given by `use_type_invariant`).
    pub proof fn lemma_wf(p: &Self)
        requires
            p.is_permutation(),
        ensures
            is_perm(p@, N as nat),
            forall|v: int| 0 <= v < N ==> 0 <= #[trigger] index_of(p@, v) < N && p@[index_of(p@, v)] as int == v,
    {
        lemma_perm_surjective(p@, N as nat);
    }

    pub fn identity() -> (r: Self)
        ensures
            r@ == identity_seq(N as nat),
    {
        let mut elements = [0usize; N];
        let mut i: usize = 0;
        while i < N
            invariant
                i <= N,
                forall|k: int| 0 <= k < i ==> elements@[k] == k,
            decreases N - i,
        {
            elements[i] = i;
            i += 1;
        }
        assert(elements@ =~= identity_seq(N as nat));
        proof {
            lemma_identity_is_perm(N as nat);
        }
        Permutation(elements)
    }

    pub fn from_array(elements: [usize; N]) -> (r: Self)
        requires
            is_perm(elements@, N as nat),
        ensures
            r@ == elements@,
    {
        Permutation(elements)
    }

    pub fn into_array(self) -> (r: [usize; N])
        ensures
            r@ == self@,
            is_perm(r@, N as nat),
    {
        proof {
            use_type_invariant(&self);
        }
        self.0
    }

    pub fn as_array(&self) -> (r: &[usize; N])
        ensures
            r@ == self@,
            is_perm(r@, N as nat),
    {
        proof {
            use_type_invariant(self);
        }
        &self.0
    }

    /// Exchanges the images of `i` and `j`.
    pub fn swap(&mut self, i: usize, j: usize)
        requires
            i < N,
            j < N,
        ensures
            final(self)@ == old(self)@.update(i as int, old(self)@[j as int]).update(j as int, old(self)@[i as int]),
    {
        proof {
            use_type_invariant(&*self);
        }
        let mut a = self.0;
        let x = a[i];
        let y = a[j];
        a[i] = y;
        a[j] = x;
        proof {
            assert forall|p: int, q: int| 0 <= p < N && 0 <= q < N && p != q implies #[trigger] a@[p] != #[trigger] a@[q] by {
                assert(old(self)@[p] != old(self)@[q] || p == q);
            }
        }
        self.0 = a;
        assert(self@ =~= old(self)@.update(i as int, old(self)@[j as int]).update(j as int, old(self)@[i as int]));
    }

    /// The permutation that undoes this one.
    pub fn inverse(self) -> (r: Self)
        ensures
            forall|i: int| 0 <= i < N ==> #[trigger] r@[self@[i] as int] == i,
            forall|i: int| 0 <= i < N ==> #[trigger] self@[r@[i] as int] == i,
    {
        proof {
            use_type_invariant(&self);
        }
        let mut inverse = [0usize; N];
        let mut i: usize = 0;
        while i < N
            invariant
                i <= N,
                is_perm(self@, N as nat),
                forall|k: int| 0 <= k < i ==> #[trigger] inverse@[self@[k] as int] == k,
            decreases N - i,
        {
            inverse[self.0[i]] = i;
            proof {
                assert forall|k: int| 0 <= k < i + 1 implies #[trigger] inverse@[self@[k] as int] == k by {
                    if k < i {
                        assert(self@[k] != self@[i as int]);
                    }
                }
            }
            i += 1;
        }
        proof {
            lemma_perm_surjective(self@, N as nat);
            assert forall|v: int| 0 <= v < N implies #[trigger] self@[inverse@[v] as int] == v by {
                let k = index_of(self@, v);
                assert(inverse@[self@[k] as int] == k);
            }
            assert forall|v: int| 0 <= v < N implies #[trigger] inverse@[v] < N by {
                let k = index_of(self@, v);
                assert(inverse@[self@[k] as int] == k);
            }
            assert forall|p: int, q: int| 0 <= p < N && 0 <= q < N && p != q implies #[trigger] inverse@[p] != #[trigger] inverse@[q] by {
                let kp = index_of(self@, p);
                let kq = index_of(self@, q);
                assert(inverse@[self@[kp] as int] == kp);
                assert(inverse@[self@[kq] as int] == kq);
            }
        }
        Permutation(inverse)
    }

    /// The points that are sent to themselves, in increasing order.
    pub fn fixed_points(&self) -> (r: Vec<usize>)
        ensures
            r@ == identity_seq(N as nat).filter(|i: usize| self@[i as int] == i),
    {
        let ghost pred = |i: usize| self@[i as int] == i;
        let mut r: Vec<usize> = Vec::new();
        let mut i: usize = 0;
        while i < N
            invariant
                i <= N,
                pred == (|i: usize| self@[i as int] == i),
                r@ == identity_seq(N as nat).take(i as int).filter(pred),
            decreases N - i,
        {
            proof {
                assert(identity_seq(N as nat).take(i + 1) =~= identity_seq(N as nat).take(i as int).push(i));
                identity_seq(N as nat).take(i as int).lemma_filter_push(i, pred);
            }
            if self.0[i] == i {
                r.push(i);
            }
            i += 1;
        }
        assert(identity_seq(N as nat).take(N as int) =~= identity_seq(N as nat));
        r
    }

    /// The least number of applications after which every element is back in place.
    pub fn order(&self) -> (r: usize)
        requires
            order_of(self@, N as nat) <= usize::MAX,
        ensures
            is_order(self@, N as nat, r as nat),
            r == order_of(self@, N as nat),
    {
        proof {
            use_type_invariant(self);
            lemma_order_exists(self@, N as nat);
        }
        let ghost p = self@;
        let mut permutation: [usize; N] = self.0;
        let mut order: usize = 1;
        assert forall|x: int| 0 <= x < N implies permutation@[x] as int == #[trigger] pow_apply(p, 1, x) by {
            assert(pow_apply(p, 0, x) == x);
        }
        loop
            invariant
                p == self@,
                is_perm(p, N as nat),
                is_order(p, N as nat, order_of(p, N as nat)),
                1 <= order <= order_of(p, N as nat),
                order_of(p, N as nat) <= usize::MAX,
                forall|x: int| 0 <= x < N ==> permutation@[x] as int == #[trigger] pow_apply(p, order as nat, x),
                forall|j: nat| 1 <= j < order ==> !#[trigger] fixes_all(p, N as nat, j),
            ensures
                is_order(p, N as nat, order as nat),
            decreases order_of(p, N as nat) - order,
        {
            let mut is_identity = true;
            let mut i: usize = 0;
            while i < N
                invariant
                    i <= N,
                    is_identity == (forall|x: int| 0 <= x < i ==> permutation@[x] == x),
                decreases N - i,
            {
                if permutation[i] != i {
                    is_identity = false;
                }
                i += 1;
            }
            if is_identity {
                assert(fixes_all(p, N as nat, order as nat)) by {
                    assert forall|x: int| 0 <= x < N implies #[trigger] pow_apply(p, order as nat, x) == x by {
                        assert(permutation@[x] == x);
                    }
                }
                break;
            }
            let ghost x0 = choose|x: int| 0 <= x < N && permutation@[x] != x;
            assert(!fixes_all(p, N as nat, order as nat)) by {
                assert(pow_apply(p, order as nat, x0) != x0);
            }
            assert(order < order_of(p, N as nat));
            let mut next: [usize; N] = permutation;
            let mut k: usize = 0;
            while k < N
                invariant
                    k <= N,
                    p == self@,
                    is_perm(p, N as nat),
                    forall|x: int| 0 <= x < N ==> permutation@[x] as int == #[trigger] pow_apply(p, order as nat, x),
                    forall|x: int| 0 <= x < k ==> next@[x] as int == #[trigger] pow_apply(p, (order + 1) as nat, x),
                decreases N - k,
            {
                proof {
                    lemma_pow_in_range(p, N as nat, order as nat, k as int);
                }
                assert(permutation@[k as int] as int == pow_apply(p, order as nat, k as int));
                next[k] = self.0[permutation[k]];
                k += 1;
            }
            let ghost prev = order;
            permutation = next;
            order += 1;
            assert forall|x: int| 0 <= x < N implies permutation@[x] as int == #[trigger] pow_apply(p, order as nat, x) by {
                assert(next@[x] as int == pow_apply(p, (prev + 1) as nat, x));
            }
        }
        order
    }

    pub fn num_fixed_points(&self) -> (r: usize)
        ensures
            r == identity_seq(N as nat).filter(|i: usize| self@[i as int] == i).len(),
    {
        self.fixed_points().len()
    }

    /// The permutation `other⁻¹ ∘ self ∘ other`.
    pub fn conjugate_by(&self, other: &Permutation<N>) -> (r: Self)
        ensures
            forall|k: int| 0 <= k < N ==> #[trigger] other@[r@[k] as int] == self@[other@[k] as int],
    {
        proof {
            use_type_invariant(self);
            use_type_invariant(other);
        }
        let inv = other.clone().inverse();
        proof {
            use_type_invariant(&inv);
        }
        let mut elements = [0usize; N];
        let mut i: usize = 0;
        while i < N
            invariant
                i <= N,
                is_perm(self@, N as nat),
                is_perm(other@, N as nat),
                is_perm(inv@, N as nat),
                forall|k: int| 0 <= k < N ==> #[trigger] other@[inv@[k] as int] == k,
                forall|k: int| 0 <= k < N ==> #[trigger] inv@[other@[k] as int] == k,
                forall|k: int| 0 <= k < i ==> #[trigger] elements@[k] == inv@[self@[other@[k] as int] as int],
            decreases N - i,
        {
            elements[i] = inv.apply(self.apply(other.apply(i)));
            i += 1;
        }
        proof {
            assert forall|p: int, q: int| 0 <= p < N && 0 <= q < N && p != q implies #[trigger] elements@[p] != #[trigger] elements@[q] by {
                assert(other@[p] != other@[q]);
                assert(self@[other@[p] as int] != self@[other@[q] as int]);
            }
        }
        Permutation(elements)
    }

    /// The cycles of the permutation, each beginning with its least element,
    /// in increasing order of that element.
    pub fn cycles(&self) -> (r: Vec<Vec<usize>>)
        ensures
            is_cycle_decomposition(self@, N as nat, seqs_of(r@)),
    {
        proof {
            use_type_invariant(self);
        }
        let mut cycles: Vec<Vec<usize>> = Vec::new();
        let mut used = [false; N];
        let mut i: usize = 0;
        while i < N
            invariant
                i <= N,
                is_perm(self@, N as nat),
                forall|a: int| 0 <= a < cycles@.len() ==> is_cycle_of(self@, #[trigger] cycles@[a]@),
                forall|a: int, j: int| 0 <= a < cycles@.len() && 0 <= j < cycles@[a]@.len() ==> #[trigger] cycles@[a]@[j] < N,
                forall|a: int, j: int, b: int, l: int|
                    0 <= a < cycles@.len() && 0 <= j < cycles@[a]@.len() && 0 <= b < cycles@.len() && 0 <= l < cycles@[b]@.len()
                        && (a != b || j != l) ==> #[trigger] cycles@[a]@[j] != #[trigger] cycles@[b]@[l],
                forall|a: int, j: int| 0 <= a < cycles@.len() && 0 <= j < cycles@[a]@.len() ==> cycles@[a]@[0] <= #[trigger] cycles@[a]@[j],
                forall|a: int, b: int| 0 <= a < b < cycles@.len() ==> #[trigger] cycles@[a]@[0] < #[trigger] cycles@[b]@[0],
                forall|a: int| 0 <= a < cycles@.len() ==> #[trigger] cycles@[a]@[0] < i,
                forall|x: int| 0 <= x < N ==> (#[trigger] used@[x] <==> occurs_in(seqs_of(cycles@), x)),
                forall|m: int| 0 <= m < i ==> #[trigger] used@[m],
            decreases N - i,
        {
            if !used[i] {
                let ghost k = lemma_orbit_returns(self@, N as nat, i as int);
                let ghost cs = seqs_of(cycles@);
                assert forall|m: int| 0 <= m < i implies #[trigger] occurs_in(cs, m) by {
                    assert(used@[m]);
                }
                let mut cycle: Vec<usize> = Vec::new();
                cycle.push(i);
                used[i] = true;
                let mut cur = self.0[i];
                proof {
                    reveal_with_fuel(pow_apply, 2);
                    assert(pow_apply(self@, 1, i as int) == self@[i as int]);
                    assert(pow_apply(self@, 0, i as int) == i);
                    assert forall|x: int| 0 <= x < N implies (#[trigger] used@[x] <==> (occurs_in(cs, x) || cycle@.contains(x as usize))) by {
                        if x == i {
                            assert(cycle@[0] == i);
                        }
                        if cycle@.contains(x as usize) {
                            assert(x == i);
                        }
                    }
                }
                while cur != i
                    invariant
                        is_perm(self@, N as nat),
                        i < N,
                        cs == seqs_of(cycles@),
                        !occurs_in(cs, i as int),
                        forall|m: int| 0 <= m < i ==> #[trigger] occurs_in(cs, m),
                        cycle@[0] == i,
                        1 <= cycle@.len() <= k,
                        k <= N,
                        pow_apply(self@, k, i as int) == i,
                        cur as int == pow_apply(self@, cycle@.len(), i as int),
                        forall|t: int| 0 <= t < cycle@.len() ==> #[trigger] cycle@[t] as int == pow_apply(self@, t as nat, i as int),
                        forall|t: int| 1 <= t < cycle@.len() ==> #[trigger] cycle@[t] != i,
                        forall|t: int| 0 <= t < cycle@.len() ==> !occurs_in(cs, #[trigger] cycle@[t] as int),
                        forall|x: int| 0 <= x < N ==> (#[trigger] used@[x] <==> (occurs_in(cs, x) || cycle@.contains(x as usize))),
                        forall|a: int| 0 <= a < cycles@.len() ==> is_cycle_of(self@, #[trigger] cycles@[a]@),
                        forall|a: int, j: int| 0 <= a < cycles@.len() && 0 <= j < cycles@[a]@.len() ==> #[trigger] cycles@[a]@[j] < N,
                    decreases k - cycle@.len(),
                {
                    proof {
                        lemma_pow_in_range(self@, N as nat, cycle@.len(), i as int);
                        if occurs_in(cs, cur as int) {
                            let (a, j) = choose|a: int, j: int| 0 <= a < cs.len() && 0 <= j < cs[a].len() && #[trigger] cs[a][j] as int == cur as int;
                            assert(cycles@[a]@ == cs[a]);
                            lemma_cycle_closed_backward(self@, N as nat, cs[a], cycle@.len(), i as int);
                            let j2 = choose|j2: int| 0 <= j2 < cs[a].len() && #[trigger] cs[a][j2] as int == i as int;
                            assert(occurs_in(cs, i as int));
                        }
                    }
                    let ghost old_used = used@;
                    used[cur] = true;
                    let ghost before = cycle@;
                    cycle.push(cur);
                    proof {
                        assert forall|x: int| 0 <= x < N implies (#[trigger] used@[x] <==> (occurs_in(cs, x) || cycle@.contains(x as usize))) by {
                            if x == cur {
                                assert(cycle@[before.len() as int] == cur);
                            } else {
                                assert(used@[x] == old_used[x]);
                                if cycle@.contains(x as usize) {
                                    let t = choose|t: int| 0 <= t < cycle@.len() && cycle@[t] == x as usize;
                                    assert(t < before.len());
                                    assert(before[t] == x as usize);
                                }
                                if before.contains(x as usize) {
                                    let t = choose|t: int| 0 <= t < before.len() && before[t] == x as usize;
                                    assert(cycle@[t] == x as usize);
                                }
                            }
                        }
                    }
                    cur = self.0[cur];
                }
                proof {
                    let c = cycle@;
                    let len = c.len() as int;
                    // the new cycle's entries are pairwise different
                    assert forall|s: int, t: int| 0 <= s < len && 0 <= t < len && s != t implies #[trigger] c[s] != #[trigger] c[t] by {
                        if c[s] == c[t] {
                            if s < t {
                                lemma_pow_cancel(self@, N as nat, s as nat, t as nat, i as int);
                                assert(c[t - s] as int == pow_apply(self@, (t - s) as nat, i as int));
                            } else {
                                lemma_pow_cancel(self@, N as nat, t as nat, s as nat, i as int);
                                assert(c[s - t] as int == pow_apply(self@, (s - t) as nat, i as int));
                            }
                        }
                    }
                    assert forall|t: int| 0 <= t < len implies #[trigger] self@[c[t] as int] == c[(t + 1) % len] by {
                        if t + 1 < len {
                            vstd::arithmetic::div_mod::lemma_small_mod((t + 1) as nat, len as nat);
                            lemma_pow_in_range(self@, N as nat, t as nat, i as int);
                        } else {
                            vstd::arithmetic::div_mod::lemma_mod_self_0(len);
                            lemma_pow_in_range(self@, N as nat, t as nat, i as int);
                        }
                    }
                    assert forall|t: int| 0 <= t < len implies #[trigger] c[t] < N && c[t] >= i by {
                        lemma_pow_in_range(self@, N as nat, t as nat, i as int);
                        if c[t] < i {
                            assert(occurs_in(cs, c[t] as int));
                        }
                    }
                    assert forall|m: int| 0 <= m <= i implies #[trigger] used@[m] by {
                        if m == i {
                            assert(c[0] == i);
                            assert(c.contains(i));
                        } else {
                            assert(occurs_in(cs, m));
                        }
                    }
                }
                let ghost old_cycles = cycles@;
                cycles.push(cycle);
                proof {
                    let c = cycles@[cycles@.len() - 1]@;
                    assert(seqs_of(cycles@) =~= cs.push(c));
                    assert forall|x: int| 0 <= x < N implies (#[trigger] used@[x] <==> occurs_in(seqs_of(cycles@), x)) by {
                        if used@[x] {
                            if occurs_in(cs, x) {
                                let (a, j) = choose|a: int, j: int| 0 <= a < cs.len() && 0 <= j < cs[a].len() && #[trigger] cs[a][j] as int == x;
                                assert(seqs_of(cycles@)[a][j] as int == x);
                            } else {
                                let t = choose|t: int| 0 <= t < c.len() && c[t] == x as usize;
                                assert(seqs_of(cycles@)[cs.len() as int][t] as int == x);
                            }
                        }
                        if occurs_in(seqs_of(cycles@), x) {
                            let (a, j) = choose|a: int, j: int| 0 <= a < seqs_of(cycles@).len() && 0 <= j < seqs_of(cycles@)[a].len() && #[trigger] seqs_of(cycles@)[a][j] as int == x;
                            if a < cs.len() {
                                assert(cs[a][j] as int == x);
                            } else {
                                assert(c[j] as int == x);
                                assert(c.contains(x as usize));
                            }
                        }
                    }
                    assert forall|a: int, j: int, b: int, l: int|
                        0 <= a < cycles@.len() && 0 <= j < cycles@[a]@.len() && 0 <= b < cycles@.len() && 0 <= l < cycles@[b]@.len()
                            && (a != b || j != l) implies #[trigger] cycles@[a]@[j] != #[trigger] cycles@[b]@[l] by {
                        let last = cs.len() as int;
                        if a == last && b != last {
                            assert(!occurs_in(cs, c[j] as int));
                            if cycles@[a]@[j] == cycles@[b]@[l] {
                                assert(cs[b][l] as int == c[j] as int);
                            }
                        } else if b == last && a != last {
                            assert(!occurs_in(cs, c[l] as int));
                            if cycles@[a]@[j] == cycles@[b]@[l] {
                                assert(cs[a][j] as int == c[l] as int);
                            }
                        }
                    }
                }
            }
            i += 1;
        }
        proof {
            assert forall|x: int| 0 <= x < N implies #[trigger] occurs_in(seqs_of(cycles@), x) by {
                assert(used@[x]);
            }
        }
        cycles
    }

    /// The lengths of the cycles, in the order `cycles` lists them.
    pub fn cycle_lengths(&self) -> (r: Vec<usize>)
        ensures
            exists|cs: Seq<Seq<usize>>| is_cycle_decomposition(self@, N as nat, cs) && r@ == lens_of(cs),
    {
        let cycles = self.cycles();
        let mut r: Vec<usize> = Vec::new();
        let mut a: usize = 0;
        while a < cycles.len()
            invariant
                a <= cycles@.len(),
                r@ == lens_of(seqs_of(cycles@)).take(a as int),
            decreases cycles@.len() - a,
        {
            r.push(cycles[a].len());
            a += 1;
            assert(r@ =~= lens_of(seqs_of(cycles@)).take(a as int));
        }
        assert(r@ =~= lens_of(seqs_of(cycles@)));
        r
    }

    #[inline]
    pub fn apply(&self, num: usize) -> (r: usize)
        requires
            num < N,
        ensures
            r == self@[num as int],
            r < N,
    {
        proof {
            use_type_invariant(self);
        }
        self.0[num]
    }

    #[inline]
    pub fn apply_u8(&self, num: u8) -> (r: u8)
        requires
            num < N,
        ensures
            r == self@[num as int] as u8,
    {
        self.0[num as usize] as u8
    }

    /// Moves the entry at `i` to position `self@[i]`.
    pub fn apply_array<T: Copy>(&self, array: [T; N]) -> (r: [T; N])
        ensures
            forall|i: int| 0 <= i < N ==> #[trigger] r@[self@[i] as int] == array@[i],
    {
        proof {
            use_type_invariant(self);
        }
        let mut new_array = array;
        let mut i: usize = 0;
        while i < N
            invariant
                i <= N,
                is_perm(self@, N as nat),
                forall|k: int| 0 <= k < i ==> #[trigger] new_array@[self@[k] as int] == array@[k],
            decreases N - i,
        {
            new_array[self.0[i]] = array[i];
            proof {
                assert forall|k: int| 0 <= k < i + 1 implies #[trigger] new_array@[self@[k] as int] == array@[k] by {
                    if k < i {
                        assert(self@[k] != self@[i as int]);
                    }
                }
            }
            i += 1;
        }
        new_array
    }

    /// Moves the entry at `i` of every array to position `self@[i]`.
    pub fn apply_arrays<T: Copy>(&self, arrays: &mut [[T; N]])
        ensures
            final(arrays)@.len() == old(arrays)@.len(),
            forall|a: int, i: int| 0 <= a < old(arrays)@.len() && 0 <= i < N ==> #[trigger] final(arrays)@[a]@[self@[i] as int] == old(arrays)@[a]@[i],
    {
        proof {
            use_type_invariant(self);
        }
        let mut k: usize = 0;
        while k < arrays.len()
            invariant
                k <= arrays@.len(),
                arrays@.len() == old(arrays)@.len(),
                is_perm(self@, N as nat),
                forall|a: int| k <= a < arrays@.len() ==> #[trigger] arrays@[a] == old(arrays)@[a],
                forall|a: int, i: int| 0 <= a < k && 0 <= i < N ==> #[trigger] arrays@[a]@[self@[i] as int] == old(arrays)@[a]@[i],
            decreases arrays@.len() - k,
        {
            let permuted = self.apply_array(arrays[k]);
            arrays[k] = permuted;
            k += 1;
        }
    }
}

/// Enumerates all permutations of 0..N in lexicographic order, starting from the identity.
pub struct PermutationIter<const N: usize> {
    indices: [usize; N],
    left: usize,
}

impl<const N: usize> PermutationIter<N> {
    #[verifier::type_invariant]
    spec fn indices_are_permutation(&self) -> bool {
        is_perm(self.indices@, N as nat)
    }

    /// How many permutations are still to come.
    pub closed spec fn remaining(&self) -> nat {
        self.left as nat
    }

    /// The permutation handed out last (the last one in order before the first call).
    pub closed spec fn current(&self) -> Seq<usize> {
        self.indices@
    }

    pub fn new() -> (r: Self)
        requires
            fact(N as nat) <= usize::MAX,
        ensures
            r.remaining() == fact(N as nat),
            r.current() == Seq::new(N as nat, |i: int| (N - 1 - i) as usize),
    {
        let mut indices = [0usize; N];
        let mut i: usize = 0;
        while i < N
            invariant
                i <= N,
                forall|k: int| 0 <= k < i ==> indices@[k] == N - 1 - k,
            decreases N - i,
        {
            indices[i] = N - i - 1;
            i += 1;
        }
        assert(indices@ =~= Seq::new(N as nat, |i: int| (N - 1 - i) as usize));
        PermutationIter { indices, left: factorial(N) }
    }

    pub fn len(&self) -> (r: usize)
        ensures
            r == self.remaining(),
    {
        self.left
    }

    /// Rearranges `indices` into the next permutation in lexicographic order (wrapping around).
    fn advance(indices: &mut [usize; N])
        requires
            N >= 1,
            is_perm(old(indices)@, N as nat),
        ensures
            final(indices)@ == next_arrangement(old(indices)@),
            is_perm(final(indices)@, N as nat),
    {
        let mut v: Vec<usize> = Vec::new();
        let mut i: usize = 0;
        while i < N
            invariant
                i <= N,
                v@ == indices@.take(i as int),
            decreases N - i,
        {
            v.push(indices[i]);
            i += 1;
        }
        assert(v@ =~= indices@);
        let ghost before = v@;
        advance_arrangement(&mut v);
        proof {
            lemma_rearranged_perm(before, v@, N as nat);
        }
        let mut i: usize = 0;
        while i < N
            invariant
                i <= N == v@.len(),
                forall|k: int| 0 <= k < i ==> #[trigger] indices@[k] == v@[k],
            decreases N - i,
        {
            indices[i] = v[i];
            i += 1;
        }
        assert(indices@ =~= v@);
    }

    /// The next permutation in lexicographic order; the first call yields the identity.
    pub fn next(&mut self) -> (r: Option<Permutation<N>>)
        requires
            N >= 1,
        ensures
            final(self).current() == next_arrangement(old(self).current()),
            old(self).remaining() == 0 ==> r is None,
            old(self).remaining() > 0 ==> (r matches Some(p) && p@ == final(self).current() && final(self).remaining() == old(self).remaining() - 1),
    {
        proof {
            use_type_invariant(&*self);
        }
        let mut indices = self.indices;
        Self::advance(&mut indices);
        self.indices = indices;
        if self.left == 0 {
            None
        } else {
            self.left -= 1;
            Some(Permutation(self.indices))
        }
    }
}

} // verus!
