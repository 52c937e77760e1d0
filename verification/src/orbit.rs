//! Orbits of a permutation: repeated application always comes back.
use vstd::prelude::*;
use vstd::set_lib::*;
use vstd::relations::injective_on;
use crate::set_util::is_perm;

verus! {

/// `x` after `k` applications of `p`.
pub open spec fn pow_apply(p: Seq<usize>, k: nat, x: int) -> int
    decreases k,
{
    if k == 0 {
        x
    } else {
        p[pow_apply(p, (k - 1) as nat, x)] as int
    }
}

/// `c` is a cycle of `p`: each entry is sent to the next one, the last to the first.
pub open spec fn is_cycle_of(p: Seq<usize>, c: Seq<usize>) -> bool {
    &&& c.len() >= 1
    &&& forall|i: int| 0 <= i < c.len() ==> #[trigger] p[c[i] as int] == c[(i + 1) % (c.len() as int)]
}

/// `x` is an entry of one of the sequences in `cs`.
pub open spec fn occurs_in(cs: Seq<Seq<usize>>, x: int) -> bool {
    exists|a: int, i: int| 0 <= a < cs.len() && 0 <= i < cs[a].len() && #[trigger] cs[a][i] as int == x
}

/// `cs` lists the cycles of the permutation `p` of 0..n, each beginning with its least
/// element, in increasing order of that element; every point occurs exactly once.
pub open spec fn is_cycle_decomposition(p: Seq<usize>, n: nat, cs: Seq<Seq<usize>>) -> bool {
    &&& forall|a: int| 0 <= a < cs.len() ==> is_cycle_of(p, #[trigger] cs[a])
    &&& forall|a: int, i: int| 0 <= a < cs.len() && 0 <= i < cs[a].len() ==> #[trigger] cs[a][i] < n
    &&& forall|x: int| 0 <= x < n ==> #[trigger] occurs_in(cs, x)
    &&& forall|a: int, i: int, b: int, j: int|
        0 <= a < cs.len() && 0 <= i < cs[a].len() && 0 <= b < cs.len() && 0 <= j < cs[b].len()
            && (a != b || i != j) ==> #[trigger] cs[a][i] != #[trigger] cs[b][j]
    &&& forall|a: int, i: int| 0 <= a < cs.len() && 0 <= i < cs[a].len() ==> cs[a][0] <= #[trigger] cs[a][i]
    &&& forall|a: int, b: int| 0 <= a < b < cs.len() ==> #[trigger] cs[a][0] < #[trigger] cs[b][0]
}

pub proof fn lemma_pow_in_range(p: Seq<usize>, n: nat, k: nat, x: int)
    requires
        is_perm(p, n),
        0 <= x < n,
    ensures
        0 <= pow_apply(p, k, x) < n,
    decreases k,
{
    if k > 0 {
        lemma_pow_in_range(p, n, (k - 1) as nat, x);
    }
}

/// Equal points after s and t applications mean a return after t - s.
pub proof fn lemma_pow_cancel(p: Seq<usize>, n: nat, s: nat, t: nat, x: int)
    requires
        is_perm(p, n),
        0 <= x < n,
        s <= t,
        pow_apply(p, s, x) == pow_apply(p, t, x),
    ensures
        pow_apply(p, (t - s) as nat, x) == x,
    decreases s,
{
    if s > 0 {
        lemma_pow_in_range(p, n, (s - 1) as nat, x);
        lemma_pow_in_range(p, n, (t - 1) as nat, x);
        lemma_pow_cancel(p, n, (s - 1) as nat, (t - 1) as nat, x);
    }
}

/// Some number of applications between 1 and n brings `x` back.
pub proof fn lemma_orbit_returns(p: Seq<usize>, n: nat, x: int) -> (k: nat)
    requires
        is_perm(p, n),
        0 <= x < n,
    ensures
        1 <= k <= n,
        pow_apply(p, k, x) == x,
{
    let dom = set_int_range(0, n as int + 1);
    let f = |t: int| pow_apply(p, t as nat, x);
    lemma_int_range(0, n as int + 1);
    lemma_int_range(0, n as int);
    assert forall|y: int| #[trigger] dom.map(f).contains(y) implies set_int_range(0, n as int).contains(y) by {
        let t = choose|t: int| dom.contains(t) && f(t) == y;
        lemma_pow_in_range(p, n, t as nat, x);
    }
    lemma_len_subset(dom.map(f), set_int_range(0, n as int));
    if injective_on(f, dom) {
        lemma_map_size(dom, dom.map(f), f);
        assert(false);
    }
    let (s, t) = choose|s: int, t: int| dom.contains(s) && dom.contains(t) && #[trigger] f(s) == #[trigger] f(t) && s != t;
    if s < t {
        lemma_pow_cancel(p, n, s as nat, t as nat, x);
        (t - s) as nat
    } else {
        lemma_pow_cancel(p, n, t as nat, s as nat, x);
        (s - t) as nat
    }
}

/// Applying `a` times after `b` times is applying `a + b` times.
pub proof fn lemma_pow_add(p: Seq<usize>, a: nat, b: nat, x: int)
    ensures
        pow_apply(p, a + b, x) == pow_apply(p, a, pow_apply(p, b, x)),
    decreases a,
{
    if a > 0 {
        lemma_pow_add(p, (a - 1) as nat, b, x);
        assert((a + b - 1) as nat == ((a - 1) as nat + b) as nat);
    }
}

/// A point brought back by `k` applications is brought back by every multiple of `k`.
pub proof fn lemma_pow_mult(p: Seq<usize>, k: nat, m: nat, x: int)
    requires
        pow_apply(p, k, x) == x,
    ensures
        pow_apply(p, m * k, x) == x,
    decreases m,
{
    if m > 0 {
        let m1 = (m - 1) as nat;
        lemma_pow_mult(p, k, m1, x);
        lemma_pow_add(p, k, m1 * k, x);
        assert(m * k == k + m1 * k) by (nonlinear_arith)
            requires
                m1 == m - 1,
        ;
    } else {
        assert(m * k == 0) by (nonlinear_arith)
            requires
                m == 0,
        ;
    }
}

/// `k` applications of `p` leave every point of 0..n where it is.
pub open spec fn fixes_all(p: Seq<usize>, n: nat, k: nat) -> bool {
    forall|x: int| 0 <= x < n ==> #[trigger] pow_apply(p, k, x) == x
}

/// `k` is the order of `p`: the least positive number of applications that is the identity.
pub open spec fn is_order(p: Seq<usize>, n: nat, k: nat) -> bool {
    &&& k >= 1
    &&& fixes_all(p, n, k)
    &&& forall|j: nat| 1 <= j < k ==> !#[trigger] fixes_all(p, n, j)
}

/// The order of the permutation `p` of 0..n.
pub open spec fn order_of(p: Seq<usize>, n: nat) -> nat {
    choose|k: nat| is_order(p, n, k)
}

proof fn lemma_power_fixing_prefix(p: Seq<usize>, n: nat, m: nat) -> (k: nat)
    requires
        is_perm(p, n),
        m <= n,
    ensures
        k >= 1,
        forall|x: int| 0 <= x < m ==> #[trigger] pow_apply(p, k, x) == x,
    decreases m,
{
    if m == 0 {
        1
    } else {
        let k0 = lemma_power_fixing_prefix(p, n, (m - 1) as nat);
        let r = lemma_orbit_returns(p, n, m - 1);
        assert forall|x: int| 0 <= x < m implies #[trigger] pow_apply(p, k0 * r, x) == x by {
            if x < m - 1 {
                lemma_pow_mult(p, k0, r, x);
                assert(r * k0 == k0 * r) by (nonlinear_arith);
            } else {
                lemma_pow_mult(p, r, k0, x);
            }
        }
        assert(k0 * r >= 1) by (nonlinear_arith)
            requires
                k0 >= 1,
                r >= 1,
        ;
        k0 * r
    }
}

proof fn lemma_least_power(p: Seq<usize>, n: nat, k: nat)
    requires
        k >= 1,
        fixes_all(p, n, k),
    ensures
        exists|j: nat| is_order(p, n, j),
    decreases k,
{
    if exists|j: nat| 1 <= j < k && #[trigger] fixes_all(p, n, j) {
        let j = choose|j: nat| 1 <= j < k && #[trigger] fixes_all(p, n, j);
        lemma_least_power(p, n, j);
    } else {
        assert(is_order(p, n, k));
    }
}

/// Every permutation has an order, and it is the only number with that property.
pub proof fn lemma_order_exists(p: Seq<usize>, n: nat)
    requires
        is_perm(p, n),
    ensures
        is_order(p, n, order_of(p, n)),
        forall|k: nat| #[trigger] is_order(p, n, k) ==> k == order_of(p, n),
{
    let k = lemma_power_fixing_prefix(p, n, n);
    lemma_least_power(p, n, k);
    let o = order_of(p, n);
    assert forall|k: nat| #[trigger] is_order(p, n, k) implies k == o by {
        if k < o {
            assert(!fixes_all(p, n, k));
        } else if o < k {
            assert(!fixes_all(p, n, o));
        }
    }
}

/// A point some applications away from a cycle's element is itself on the cycle.
pub proof fn lemma_cycle_closed_backward(p: Seq<usize>, n: nat, c: Seq<usize>, t: nat, x: int)
    requires
        is_perm(p, n),
        0 <= x < n,
        is_cycle_of(p, c),
        forall|i: int| 0 <= i < c.len() ==> #[trigger] c[i] < n,
        exists|j: int| 0 <= j < c.len() && #[trigger] c[j] as int == pow_apply(p, t, x),
    ensures
        exists|j: int| 0 <= j < c.len() && #[trigger] c[j] as int == x,
    decreases t,
{
    if t > 0 {
        let j = choose|j: int| 0 <= j < c.len() && #[trigger] c[j] as int == pow_apply(p, t, x);
        let len = c.len() as int;
        let jp = if j == 0 { len - 1 } else { j - 1 };
        assert((jp + 1) % len == j) by {
            if j == 0 {
                assert(jp + 1 == len);
                vstd::arithmetic::div_mod::lemma_mod_self_0(len);
            } else {
                vstd::arithmetic::div_mod::lemma_small_mod(j as nat, len as nat);
            }
        }
        assert(p[c[jp] as int] == c[j]);
        lemma_pow_in_range(p, n, (t - 1) as nat, x);
        assert(c[jp] as int == pow_apply(p, (t - 1) as nat, x));
        lemma_cycle_closed_backward(p, n, c, (t - 1) as nat, x);
    }
}

} // verus!
