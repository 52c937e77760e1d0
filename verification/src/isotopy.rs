//! Isotopy-class and main-class representatives: the least square, in reading order, that
//! the search by a table of row-pair normalisations reaches from a square.
use vstd::prelude::*;
use crate::latin_square::{LatinSquare, grid_less, grids_agree_before, is_latin};
use crate::permutation::{Permutation, PermutationIter, fact, seqs_of, lens_of};
use crate::orbit::{is_cycle_decomposition, occurs_in, is_cycle_of};
use crate::set_util::{is_perm, index_of, usize_seq_set, identity_seq, lemma_usize_seq_set_take, lemma_usize_seq_set_full, lemma_subset_range_finite};
use crate::conjugate::{is_conjugate, moved_triple, cell_triple};
use crate::arrangement::{next_arrangement, is_descent_start, is_swap_partner, reverse_from};
use crate::cycles::{generate_cycle_structures, lex_compare, seqs, strictly_sorted};
use crate::cycle_types::{num_le, sort_numbers, line_perm, line_permutation};

verus! {

/// `h` is `g` with row i moved to r[i], column j moved to c[j] and each value v renamed s[v].
pub open spec fn is_isotope(g: Seq<Seq<u8>>, r: Seq<usize>, c: Seq<usize>, s: Seq<usize>, h: Seq<Seq<u8>>, n: nat) -> bool {
    forall|i: int, j: int| 0 <= i < n && 0 <= j < n ==> #[trigger] h[r[i] as int][c[j] as int] as int == s[g[i][j] as int] as int
}

/// `a` does not come after `b` in reading order.
pub open spec fn grid_le(a: Seq<Seq<u8>>, b: Seq<Seq<u8>>, n: nat) -> bool {
    a == b || grid_less(a, b, n)
}

/// Reading order is transitive.
pub proof fn lemma_grid_less_trans(a: Seq<Seq<u8>>, b: Seq<Seq<u8>>, c: Seq<Seq<u8>>, n: nat)
    requires
        grid_less(a, b, n),
        grid_less(b, c, n),
    ensures
        grid_less(a, c, n),
{
    let (i1, j1) = choose|i: int, j: int| 0 <= i < n && 0 <= j < n && grids_agree_before(a, b, n, i, j) && #[trigger] a[i][j] < #[trigger] b[i][j];
    let (i2, j2) = choose|i: int, j: int| 0 <= i < n && 0 <= j < n && grids_agree_before(b, c, n, i, j) && #[trigger] b[i][j] < #[trigger] c[i][j];
    if i1 < i2 || (i1 == i2 && j1 < j2) {
        assert(b[i1][j1] == c[i1][j1]);
        assert(grids_agree_before(a, c, n, i1, j1)) by {
            assert forall|k: int, l: int| 0 <= k < n && 0 <= l < n && (k < i1 || (k == i1 && l < j1)) implies #[trigger] a[k][l] == c[k][l] by {
                assert(a[k][l] == b[k][l]);
                assert(b[k][l] == c[k][l]);
            }
        }
        assert(a[i1][j1] < c[i1][j1]);
    } else if i1 == i2 && j1 == j2 {
        assert(grids_agree_before(a, c, n, i1, j1)) by {
            assert forall|k: int, l: int| 0 <= k < n && 0 <= l < n && (k < i1 || (k == i1 && l < j1)) implies #[trigger] a[k][l] == c[k][l] by {
                assert(a[k][l] == b[k][l]);
                assert(b[k][l] == c[k][l]);
            }
        }
        assert(a[i1][j1] < c[i1][j1]);
    } else {
        assert(a[i2][j2] == b[i2][j2]);
        assert(grids_agree_before(a, c, n, i2, j2)) by {
            assert forall|k: int, l: int| 0 <= k < n && 0 <= l < n && (k < i2 || (k == i2 && l < j2)) implies #[trigger] a[k][l] == c[k][l] by {
                assert(a[k][l] == b[k][l]);
                assert(b[k][l] == c[k][l]);
            }
        }
        assert(a[i2][j2] < c[i2][j2]);
    }
}

/// The first k entries of a sequence of distinct values are k values.
proof fn lemma_distinct_prefix_set(s: Seq<usize>, k: int)
    requires
        0 <= k <= s.len(),
        forall|i: int, j: int| 0 <= i < s.len() && 0 <= j < s.len() && i != j ==> #[trigger] s[i] != #[trigger] s[j],
    ensures
        usize_seq_set(s.take(k)).finite(),
        usize_seq_set(s.take(k)).len() == k,
    decreases k,
{
    if k == 0 {
        lemma_usize_seq_set_full(s);
    } else {
        lemma_distinct_prefix_set(s, k - 1);
        lemma_usize_seq_set_take(s, k - 1);
        assert(!usize_seq_set(s.take(k - 1)).contains(s[k - 1] as int)) by {
            if usize_seq_set(s.take(k - 1)).contains(s[k - 1] as int) {
                let t = s.take(k - 1);
                let m = choose|m: int| 0 <= m < t.len() && #[trigger] t[m] as int == s[k - 1] as int;
                assert(s[m] == s[k - 1]);
            }
        }
    }
}

/// A sequence of distinct values below n is at most n long.
proof fn lemma_distinct_bound(s: Seq<usize>, n: nat)
    requires
        forall|i: int| 0 <= i < s.len() ==> #[trigger] s[i] < n,
        forall|i: int, j: int| 0 <= i < s.len() && 0 <= j < s.len() && i != j ==> #[trigger] s[i] != #[trigger] s[j],
    ensures
        s.len() <= n,
{
    lemma_distinct_prefix_set(s, s.len() as int);
    lemma_usize_seq_set_full(s);
    assert forall|x: int| usize_seq_set(s).contains(x) implies 0 <= x < n by {
        let m = choose|m: int| 0 <= m < s.len() && #[trigger] s[m] as int == x;
    }
    lemma_subset_range_finite(usize_seq_set(s), 0, n as int);
}

/// Placing each entry i of a permutation at position p[i] gives a permutation.
proof fn lemma_placed_perm(p: Seq<usize>, a: Seq<usize>, r: Seq<usize>, n: nat)
    requires
        is_perm(p, n),
        is_perm(a, n),
        r.len() == n,
        forall|i: int| 0 <= i < n ==> #[trigger] r[p[i] as int] == a[i],
    ensures
        is_perm(r, n),
{
    crate::set_util::lemma_perm_surjective(p, n);
    assert forall|k: int| 0 <= k < n implies #[trigger] r[k] < n by {
        let i = index_of(p, k);
        assert(r[p[i] as int] == a[i]);
    }
    assert forall|k: int, l: int| 0 <= k < n && 0 <= l < n && k != l implies #[trigger] r[k] != #[trigger] r[l] by {
        let i = index_of(p, k);
        let j = index_of(p, l);
        assert(r[p[i] as int] == a[i]);
        assert(r[p[j] as int] == a[j]);
    }
}

/// The identity arrangement of rows, columns and values leaves a square as it is.
proof fn lemma_identity_conjugate(s: Seq<Seq<u8>>, n: nat)
    ensures
        is_conjugate(s, s, n, identity_seq(3)),
{
    let id = identity_seq(3);
    assert forall|m: int| 0 <= m < 3 implies #[trigger] index_of(id, m) == m by {
        assert(id[m] as int == m);
        let k = index_of(id, m);
        assert(0 <= k < id.len() && id[k] as int == m);
    }
    assert forall|i: int, j: int| 0 <= i < n && 0 <= j < n implies {
        let t = #[trigger] moved_triple(cell_triple(s, i, j), id);
        s[t[0]][t[1]] as int == t[2]
    } by {
        let t = moved_triple(cell_triple(s, i, j), id);
        assert(index_of(id, 0) == 0);
        assert(index_of(id, 1) == 1);
        assert(index_of(id, 2) == 2);
        assert(t[0] == i && t[1] == j && t[2] == s[i][j] as int);
    }
}

/// Cycle `b` comes before cycle `a` of length `len` when the cycles are taken by length,
/// those of one length in their order.
pub open spec fn before_in_order(cs: Seq<Seq<usize>>, b: int, len: int, a: int) -> bool {
    cs[b].len() < len || (cs[b].len() == len && b < a)
}

/// `x` is an entry of a cycle that comes before cycle `a` of length `len`.
spec fn from_processed(cs: Seq<Seq<usize>>, x: usize, len: int, a: int) -> bool {
    exists|b: int, i: int| 0 <= b < cs.len() && 0 <= i < cs[b].len() && before_in_order(cs, b, len, a) && #[trigger] cs[b][i] == x
}

/// The position after position `i` in a cycle of length `len`, the first after the last.
pub open spec fn next_pos(i: int, len: int) -> int {
    if i + 1 < len { i + 1 } else { 0 }
}

/// The new value of the last entry of cycle `b`: the first value of its block.
pub open spec fn block_start(cs: Seq<Seq<usize>>, sym: Seq<usize>, b: int) -> int {
    sym[cs[b][cs[b].len() - 1] as int] as int
}

/// The cycles that come before cycle `a` of length `len` lie in blocks of consecutive new
/// values below `top`, an entry getting the value after the one its predecessor gets, and
/// a cycle that comes before another lies in a block below the other's.
spec fn laid_out(cs: Seq<Seq<usize>>, perm: Seq<usize>, len: int, a: int, top: int) -> bool {
    &&& forall|b: int, k: int| 0 <= b < cs.len() && 0 <= k < cs[b].len() && before_in_order(cs, b, len, a)
        ==> #[trigger] perm[cs[b][k] as int] as int == block_start(cs, perm, b) + next_pos(k, cs[b].len() as int)
    &&& forall|b: int| 0 <= b < cs.len() && #[trigger] before_in_order(cs, b, len, a)
        ==> block_start(cs, perm, b) + cs[b].len() <= top
    &&& forall|b: int, d: int| 0 <= b < cs.len() && 0 <= d < cs.len() && d != b && before_in_order(cs, b, len, a)
        && #[trigger] before_in_order(cs, d, cs[b].len() as int, b)
        ==> block_start(cs, perm, d) + cs[d].len() <= block_start(cs, perm, b)
}

/// Changing values outside the cycles already laid out keeps them laid out.
proof fn lemma_laid_out_keep(cs: Seq<Seq<usize>>, pre: Seq<usize>, post: Seq<usize>, len: int, a: int, top: int, top2: int)
    requires
        laid_out(cs, pre, len, a, top),
        top <= top2,
        forall|b: int| 0 <= b < cs.len() ==> (#[trigger] cs[b]).len() >= 1,
        forall|b: int, k: int| 0 <= b < cs.len() && 0 <= k < cs[b].len() && before_in_order(cs, b, len, a)
            ==> #[trigger] post[cs[b][k] as int] == pre[cs[b][k] as int],
    ensures
        laid_out(cs, post, len, a, top2),
{
    assert forall|b: int| 0 <= b < cs.len() && before_in_order(cs, b, len, a) implies block_start(cs, post, b) == block_start(cs, pre, b) by {
        assert(cs[b].len() >= 1);
        assert(post[cs[b][cs[b].len() - 1] as int] == pre[cs[b][cs[b].len() - 1] as int]);
    }
    assert forall|b: int, k: int| 0 <= b < cs.len() && 0 <= k < cs[b].len() && before_in_order(cs, b, len, a)
        implies #[trigger] post[cs[b][k] as int] as int == block_start(cs, post, b) + next_pos(k, cs[b].len() as int) by {
        assert(pre[cs[b][k] as int] as int == block_start(cs, pre, b) + next_pos(k, cs[b].len() as int));
    }
    assert forall|b: int| 0 <= b < cs.len() && #[trigger] before_in_order(cs, b, len, a)
        implies block_start(cs, post, b) + cs[b].len() <= top2 by {
    }
    assert forall|b: int, d: int| 0 <= b < cs.len() && 0 <= d < cs.len() && d != b && before_in_order(cs, b, len, a)
        && #[trigger] before_in_order(cs, d, cs[b].len() as int, b)
        implies block_start(cs, post, d) + cs[d].len() <= block_start(cs, post, b) by {
        assert(before_in_order(cs, d, len, a));
    }
}

/// A cycle of another length than `len` is passed over.
proof fn lemma_laid_out_skip(cs: Seq<Seq<usize>>, perm: Seq<usize>, len: int, a: int, top: int)
    requires
        laid_out(cs, perm, len, a, top),
        0 <= a < cs.len(),
        cs[a].len() != len,
    ensures
        laid_out(cs, perm, len, a + 1, top),
{
    assert forall|b: int| 0 <= b < cs.len() implies #[trigger] before_in_order(cs, b, len, a + 1) == before_in_order(cs, b, len, a) by {
    }
}

/// Once every cycle of length `len` is laid out, the next length starts.
proof fn lemma_laid_out_next(cs: Seq<Seq<usize>>, perm: Seq<usize>, len: int, top: int)
    requires
        laid_out(cs, perm, len, cs.len() as int, top),
    ensures
        laid_out(cs, perm, len + 1, 0, top),
{
    assert forall|b: int| 0 <= b < cs.len() implies #[trigger] before_in_order(cs, b, len + 1, 0) == before_in_order(cs, b, len, cs.len() as int) by {
    }
}

/// Cycle `a` of length `len`, its entries given the values from `start` on, joins those
/// laid out.
proof fn lemma_laid_out_add(cs: Seq<Seq<usize>>, perm: Seq<usize>, len: int, a: int, start: int)
    requires
        laid_out(cs, perm, len, a, start),
        0 <= a < cs.len(),
        cs[a].len() == len,
        len >= 1,
        forall|k: int| 0 <= k < len ==> #[trigger] perm[cs[a][k] as int] as int == start + next_pos(k, len),
    ensures
        laid_out(cs, perm, len, a + 1, start + len),
{
    assert(perm[cs[a][len - 1] as int] as int == start + next_pos(len - 1, len));
    assert(block_start(cs, perm, a) == start);
    assert forall|b: int, k: int| 0 <= b < cs.len() && 0 <= k < cs[b].len() && before_in_order(cs, b, len, a + 1)
        implies #[trigger] perm[cs[b][k] as int] as int == block_start(cs, perm, b) + next_pos(k, cs[b].len() as int) by {
        if b != a {
            assert(before_in_order(cs, b, len, a));
        }
    }
    assert forall|b: int| 0 <= b < cs.len() && #[trigger] before_in_order(cs, b, len, a + 1)
        implies block_start(cs, perm, b) + cs[b].len() <= start + len by {
        if b != a {
            assert(before_in_order(cs, b, len, a));
        }
    }
    assert forall|b: int, d: int| 0 <= b < cs.len() && 0 <= d < cs.len() && d != b && before_in_order(cs, b, len, a + 1)
        && #[trigger] before_in_order(cs, d, cs[b].len() as int, b)
        implies block_start(cs, perm, d) + cs[d].len() <= block_start(cs, perm, b) by {
        if b == a {
            assert(before_in_order(cs, d, len, a));
        } else {
            assert(before_in_order(cs, b, len, a));
        }
    }
}

/// With every cycle laid out, the renaming is the one by blocks.
proof fn lemma_laid_out_all(cs: Seq<Seq<usize>>, perm: Seq<usize>, n: nat, top: int)
    requires
        laid_out(cs, perm, n + 1 as int, 0, top),
        is_perm(perm, n),
        forall|b: int| 0 <= b < cs.len() ==> (#[trigger] cs[b]).len() <= n,
    ensures
        is_relabeling(cs, perm, n),
{
    assert forall|b: int| 0 <= b < cs.len() implies #[trigger] before_in_order(cs, b, n + 1 as int, 0) by {
        assert(cs[b].len() <= n);
    }
}

/// `sym` renames the values so that the cycles of `cs`, taken by length and those of one
/// length in the order `cs` lists them, occupy consecutive blocks of values from 0 on: in
/// each cycle an entry gets the value after the one its predecessor gets, and the first
/// entry the block's first value after the last entry's.
pub open spec fn is_relabeling(cs: Seq<Seq<usize>>, sym: Seq<usize>, n: nat) -> bool {
    &&& is_perm(sym, n)
    &&& forall|b: int, k: int| 0 <= b < cs.len() && 0 <= k < cs[b].len()
        ==> #[trigger] sym[cs[b][k] as int] as int == block_start(cs, sym, b) + next_pos(k, cs[b].len() as int)
    &&& forall|b: int, d: int| 0 <= b < cs.len() && 0 <= d < cs.len() && d != b
        && #[trigger] before_in_order(cs, d, cs[b].len() as int, b)
        ==> block_start(cs, sym, d) + cs[d].len() <= block_start(cs, sym, b)
}

/// The renaming of the values that takes the cycles of `p` by length (those of one length
/// in the order `cycles` lists them) onto consecutive values 0, 1, ...: in each cycle, an
/// entry gets the value after the one its predecessor gets, the first entry the cycle's
/// first value after the last's.
#[verifier::spinoff_prover]
#[verifier::rlimit(40)]
pub(crate) fn symbol_relabeling<const N: usize>(p: &Permutation<N>, cycles: &Vec<Vec<usize>>) -> (r: Permutation<N>)
    requires
        N <= 16,
        is_cycle_decomposition(p@, N as nat, seqs_of(cycles@)),
    ensures
        is_relabeling(seqs_of(cycles@), r@, N as nat),
{
    let ghost cs = seqs_of(cycles@);
    let mut perm = [0usize; N];
    let mut index: usize = 0;
    let ghost mut flat: Seq<usize> = Seq::empty();
    let ghost mut val: Seq<usize> = Seq::empty();
    let mut len: usize = 1;
    while len <= N
        invariant
            N <= 16,
            1 <= len <= N + 1,
            is_cycle_decomposition(p@, N as nat, cs),
            cs == seqs_of(cycles@),
            index == flat.len(),
            val.len() == flat.len(),
            forall|q: int| 0 <= q < flat.len() ==> #[trigger] flat[q] < N && perm@[flat[q] as int] == val[q] && val[q] < index,
            forall|q: int, t: int| 0 <= q < flat.len() && 0 <= t < flat.len() && q != t
                ==> #[trigger] flat[q] != #[trigger] flat[t] && val[q] != val[t],
            forall|q: int| #![trigger flat[q]] 0 <= q < flat.len() ==> from_processed(cs, flat[q], len as int, 0),
            forall|b: int, i: int| 0 <= b < cs.len() && 0 <= i < cs[b].len() && before_in_order(cs, b, len as int, 0)
                ==> flat.contains(#[trigger] cs[b][i]),
            laid_out(cs, perm@, len as int, 0, index as int),
        decreases N + 1 - len,
    {
        let mut a: usize = 0;
        proof {
            assert(forall|q: int, t: int| 0 <= q < flat.len() && 0 <= t < flat.len() && q != t
                ==> #[trigger] flat[q] != #[trigger] flat[t] && val[q] != val[t]);
            assert forall|q: int| #![trigger flat[q]] 0 <= q < flat.len() implies from_processed(cs, flat[q], len as int, a as int) by {
                let (b, i) = choose|b: int, i: int| 0 <= b < cs.len() && 0 <= i < cs[b].len()
                    && before_in_order(cs, b, len as int, 0) && #[trigger] cs[b][i] == flat[q];
                assert(cs[b][i] == flat[q]);
            }
        }
        while a < cycles.len()
            invariant
                1 <= len <= N,
                a <= cycles@.len(),
                is_cycle_decomposition(p@, N as nat, cs),
                cs == seqs_of(cycles@),
                index == flat.len(),
                val.len() == flat.len(),
                forall|q: int| 0 <= q < flat.len() ==> #[trigger] flat[q] < N && perm@[flat[q] as int] == val[q] && val[q] < index,
                forall|q: int, t: int| 0 <= q < flat.len() && 0 <= t < flat.len() && q != t
                    ==> #[trigger] flat[q] != #[trigger] flat[t] && val[q] != val[t],
                forall|q: int| #![trigger flat[q]] 0 <= q < flat.len() ==> from_processed(cs, flat[q], len as int, a as int),
                forall|b: int, i: int| 0 <= b < cs.len() && 0 <= i < cs[b].len() && before_in_order(cs, b, len as int, a as int)
                    ==> flat.contains(#[trigger] cs[b][i]),
                laid_out(cs, perm@, len as int, a as int, index as int),
            decreases cycles@.len() - a,
        {
            if cycles[a].len() == len {
                let cycle = &cycles[a];
                let start = index;
                let ghost ca = cs[a as int];
                let ghost flat0 = flat;
                let ghost val0 = val;
                proof {
                    assert(ca == cycle@);
                    assert forall|q: int, i: int| 0 <= q < flat0.len() && 0 <= i < ca.len() implies #[trigger] flat0[q] != #[trigger] ca[i] by {
                        let (b, k) = choose|b: int, k: int| 0 <= b < cs.len() && 0 <= k < cs[b].len()
                            && before_in_order(cs, b, len as int, a as int) && #[trigger] cs[b][k] == flat0[q];
                        assert(b != a);
                        assert(cs[b][k] != cs[a as int][i]);
                    }
                    let ext = flat0 + ca;
                    assert forall|x: int, y: int| 0 <= x < ext.len() && 0 <= y < ext.len() && x != y implies #[trigger] ext[x] != #[trigger] ext[y] by {
                        if x < flat0.len() && y < flat0.len() {
                        } else if x < flat0.len() {
                            assert(ext[y] == ca[y - flat0.len()]);
                        } else if y < flat0.len() {
                            assert(ext[x] == ca[x - flat0.len()]);
                        } else {
                            assert(ext[x] == cs[a as int][x - flat0.len()]);
                            assert(ext[y] == cs[a as int][y - flat0.len()]);
                        }
                    }
                    assert forall|x: int| 0 <= x < ext.len() implies #[trigger] ext[x] < N by {
                        if x >= flat0.len() {
                            assert(ext[x] == cs[a as int][x - flat0.len()]);
                        }
                    }
                    lemma_distinct_bound(ext, N as nat);
                    assert(cs.len() == cycles@.len());
                    assert forall|q: int| 0 <= q < flat0.len() implies val[q] == val0[q] && val0[q] < start by {
                        assert(flat[q] < N);
                    }
                    assert forall|q: int| 0 <= q < flat0.len() implies #[trigger] flat0[q] < N && perm@[flat0[q] as int] == val0[q] by {
                        assert(flat[q] < N);
                    }
                    assert forall|q: int, t: int| 0 <= q < flat0.len() && 0 <= t < flat0.len() && q != t
                        implies #[trigger] flat0[q] != #[trigger] flat0[t] && val0[q] != val0[t] by {
                        assert(flat[q] != flat[t]);
                    }
                }
                let mut i: usize = 0;
                while i < len
                    invariant
                        1 <= len <= N,
                        a < cycles@.len(),
                        cycle@ == ca,
                        ca == cs[a as int],
                        ca.len() == len,
                        cs == seqs_of(cycles@),
                        cs.len() == cycles@.len(),
                        start + len <= N,
                        index == start,
                        start == flat0.len(),
                        is_cycle_decomposition(p@, N as nat, cs),
                        i <= len,
                        flat == flat0 + ca.take(i as int),
                        val.len() == flat.len(),
                        forall|q: int| 0 <= q < flat0.len() ==> val[q] == val0[q] && val0[q] < start,
                        forall|q: int| 0 <= q < flat0.len() ==> #[trigger] flat0[q] < N && perm@[flat0[q] as int] == val0[q],
                        forall|q: int, t: int| 0 <= q < flat0.len() && 0 <= t < flat0.len() && q != t
                            ==> #[trigger] flat0[q] != #[trigger] flat0[t] && val0[q] != val0[t],
                        forall|q: int, k: int| 0 <= q < flat0.len() && 0 <= k < ca.len() ==> #[trigger] flat0[q] != #[trigger] ca[k],
                        forall|k: int| 0 <= k < i ==> #[trigger] val[start + k] == (if k + 1 < len { start + k + 1 } else { start as int })
                            && perm@[ca[k] as int] == val[start + k],
                        laid_out(cs, perm@, len as int, a as int, start as int),
                    decreases len - i,
                {
                    let v = if i + 1 < len { start + i + 1 } else { start };
                    proof {
                        assert(cs[a as int][i as int] < N);
                    }
                    let ghost pre = perm@;
                    perm[cycle[i]] = v;
                    proof {
                        assert forall|b: int, k: int| 0 <= b < cs.len() && 0 <= k < cs[b].len() && before_in_order(cs, b, len as int, a as int)
                            implies #[trigger] perm@[cs[b][k] as int] == pre[cs[b][k] as int] by {
                            assert(b != a);
                            assert(cs[b][k] != cs[a as int][i as int]);
                        }
                        assert forall|b: int| 0 <= b < cs.len() implies (#[trigger] cs[b]).len() >= 1 by {
                            assert(is_cycle_of(p@, cs[b]));
                        }
                        lemma_laid_out_keep(cs, pre, perm@, len as int, a as int, start as int, start as int);
                        assert forall|q: int| 0 <= q < flat0.len() implies #[trigger] flat0[q] < N && perm@[flat0[q] as int] == val0[q] by {
                            assert(flat0[q] != ca[i as int]);
                        }
                        assert forall|k: int| 0 <= k < i implies #[trigger] val[start + k] == (if k + 1 < len { start + k + 1 } else { start as int })
                            && perm@[ca[k] as int] == val[start + k] by {
                            assert(cs[a as int][k] != cs[a as int][i as int]);
                        }
                        flat = flat.push(ca[i as int]);
                        val = val.push(v);
                        assert(flat =~= flat0 + ca.take(i + 1));
                    }
                    i += 1;
                }
                index = start + len;
                proof {
                    assert(ca.take(len as int) =~= ca);
                    assert forall|k: int| 0 <= k < len implies #[trigger] perm@[cs[a as int][k] as int] as int == start + next_pos(k, len as int) by {
                        assert(perm@[ca[k] as int] == val[start + k]);
                    }
                    lemma_laid_out_add(cs, perm@, len as int, a as int, start as int);
                    assert forall|q: int| 0 <= q < flat.len() implies #[trigger] flat[q] < N && perm@[flat[q] as int] == val[q] && val[q] < index by {
                        if q >= start {
                            assert(flat[q] == ca[q - start]);
                            assert(val[start + (q - start)] == val[q]);
                        } else {
                            assert(flat[q] == flat0[q]);
                        }
                    }
                    assert forall|q: int, t: int| 0 <= q < flat.len() && 0 <= t < flat.len() && q != t
                        implies #[trigger] flat[q] != #[trigger] flat[t] && val[q] != val[t] by {
                        if q >= start && t >= start {
                            assert(flat[q] == cs[a as int][q - start]);
                            assert(flat[t] == cs[a as int][t - start]);
                            assert(val[start + (q - start)] == val[q]);
                            assert(val[start + (t - start)] == val[t]);
                        } else if q >= start {
                            assert(flat[q] == ca[q - start]);
                            assert(flat[t] == flat0[t]);
                            assert(val[start + (q - start)] == val[q]);
                        } else if t >= start {
                            assert(flat[t] == ca[t - start]);
                            assert(flat[q] == flat0[q]);
                            assert(val[start + (t - start)] == val[t]);
                        } else {
                            assert(flat[q] == flat0[q] && flat[t] == flat0[t]);
                        }
                    }
                    assert forall|q: int| #![trigger flat[q]] 0 <= q < flat.len() implies from_processed(cs, flat[q], len as int, a + 1) by {
                        if q >= start {
                            assert(cs[a as int][q - start] == flat[q]);
                        } else {
                            assert(flat[q] == flat0[q]);
                            let (b, k) = choose|b: int, k: int| 0 <= b < cs.len() && 0 <= k < cs[b].len()
                                && before_in_order(cs, b, len as int, a as int) && #[trigger] cs[b][k] == flat0[q];
                            assert(cs[b][k] == flat[q]);
                        }
                    }
                    assert forall|b: int, k: int| 0 <= b < cs.len() && 0 <= k < cs[b].len() && before_in_order(cs, b, len as int, a + 1)
                        implies flat.contains(#[trigger] cs[b][k]) by {
                        if b == a {
                            assert(flat[start + k] == cs[b][k]);
                        } else {
                            assert(before_in_order(cs, b, len as int, a as int));
                            assert(flat0.contains(cs[b][k]));
                            let q = choose|q: int| 0 <= q < flat0.len() && flat0[q] == cs[b][k];
                            assert(flat[q] == flat0[q]);
                        }
                    }
                }
            } else {
                proof {
                    assert forall|q: int| #![trigger flat[q]] 0 <= q < flat.len() implies from_processed(cs, flat[q], len as int, a + 1) by {
                        let (b, k) = choose|b: int, k: int| 0 <= b < cs.len() && 0 <= k < cs[b].len()
                            && before_in_order(cs, b, len as int, a as int) && #[trigger] cs[b][k] == flat[q];
                        assert(cs[b][k] == flat[q]);
                    }
                    assert forall|b: int, k: int| 0 <= b < cs.len() && 0 <= k < cs[b].len() && before_in_order(cs, b, len as int, a + 1)
                        implies flat.contains(#[trigger] cs[b][k]) by {
                        assert(cs[a as int].len() == cycles@[a as int]@.len());
                        assert(before_in_order(cs, b, len as int, a as int));
                    }
                    assert(cs[a as int].len() == cycles@[a as int]@.len());
                    lemma_laid_out_skip(cs, perm@, len as int, a as int, index as int);
                }
            }
            a += 1;
        }
        proof {
            assert forall|q: int| #![trigger flat[q]] 0 <= q < flat.len() implies from_processed(cs, flat[q], len + 1, 0) by {
                let (b, k) = choose|b: int, k: int| 0 <= b < cs.len() && 0 <= k < cs[b].len()
                    && before_in_order(cs, b, len as int, cs.len() as int) && #[trigger] cs[b][k] == flat[q];
                assert(cs[b][k] == flat[q]);
            }
            assert forall|b: int, k: int| 0 <= b < cs.len() && 0 <= k < cs[b].len() && before_in_order(cs, b, len + 1, 0)
                implies flat.contains(#[trigger] cs[b][k]) by {
                assert(before_in_order(cs, b, len as int, cs.len() as int));
            }
            lemma_laid_out_next(cs, perm@, len as int, index as int);
        }
        len += 1;
    }
    proof {
        lemma_distinct_bound(flat, N as nat);
        assert forall|x: usize| x < N implies #[trigger] flat.contains(x) by {
            assert(occurs_in(cs, x as int));
            let (b, k) = choose|b: int, k: int| 0 <= b < cs.len() && 0 <= k < cs[b].len() && #[trigger] cs[b][k] as int == x as int;
            let c = cs[b];
            assert forall|y: int, z: int| 0 <= y < c.len() && 0 <= z < c.len() && y != z implies #[trigger] c[y] != #[trigger] c[z] by {
                assert(cs[b][y] != cs[b][z]);
            }
            assert forall|y: int| 0 <= y < c.len() implies #[trigger] c[y] < N by {
                assert(cs[b][y] < N);
            }
            lemma_distinct_bound(c, N as nat);
            assert(before_in_order(cs, b, N + 1, 0));
            assert(flat.contains(cs[b][k]));
        }
        assert forall|x: int| 0 <= x < N implies #[trigger] perm@[x] < N by {
            assert(flat.contains(x as usize));
            let q = choose|q: int| 0 <= q < flat.len() && flat[q] == x as usize;
        }
        assert forall|x: int, y: int| 0 <= x < N && 0 <= y < N && x != y implies #[trigger] perm@[x] != #[trigger] perm@[y] by {
            assert(flat.contains(x as usize));
            assert(flat.contains(y as usize));
            let q = choose|q: int| 0 <= q < flat.len() && flat[q] == x as usize;
            let t = choose|t: int| 0 <= t < flat.len() && flat[t] == y as usize;
        }
        assert forall|b: int| 0 <= b < cs.len() implies (#[trigger] cs[b]).len() <= N by {
            let c = cs[b];
            assert forall|y: int, z: int| 0 <= y < c.len() && 0 <= z < c.len() && y != z implies #[trigger] c[y] != #[trigger] c[z] by {
                assert(cs[b][y] != cs[b][z]);
            }
            assert forall|y: int| 0 <= y < c.len() implies #[trigger] c[y] < N by {
                assert(cs[b][y] < N);
            }
            lemma_distinct_bound(c, N as nat);
        }
        lemma_laid_out_all(cs, perm@, N as nat, index as int);
    }
    Permutation::from_array(perm)
}

/// The entries of row `i` of a Latin square, as a permutation of 0..n.
proof fn lemma_row_perm<const N: usize>(sq: &LatinSquare<N>, i: int)
    requires
        sq.is_latin_square(),
        0 <= i < N,
    ensures
        is_perm(Seq::new(N as nat, |k: int| sq@[i][k] as usize), N as nat),
{
    LatinSquare::<N>::lemma_latin(sq);
    let row = Seq::new(N as nat, |k: int| sq@[i][k] as usize);
    assert forall|k: int, l: int| 0 <= k < N && 0 <= l < N && k != l implies #[trigger] row[k] != #[trigger] row[l] by {
        assert(sq@[i][k] != sq@[i][l]);
    }
}

/// `k` is the position of the first entry of `structures` equal to `t`, or the number of
/// entries when none is.
pub open spec fn is_type_position(structures: Seq<Seq<usize>>, t: Seq<usize>, k: int) -> bool {
    &&& 0 <= k <= structures.len()
    &&& forall|j: int| 0 <= j < k ==> #[trigger] structures[j] != t
    &&& k < structures.len() ==> structures[k] == t
}

/// The position of `t` in `structures` (the number of entries when it is not there).
pub open spec fn type_position(structures: Seq<Seq<usize>>, t: Seq<usize>) -> int {
    choose|k: int| is_type_position(structures, t, k)
}

/// The position in `structures` of the cycle type of the decomposition `cs`: its cycle
/// lengths in increasing order.
pub open spec fn decomposition_type(structures: Seq<Seq<usize>>, cs: Seq<Seq<usize>>) -> int {
    type_position(structures, lens_of(cs).sort_by(num_le()))
}

pub proof fn lemma_type_position(structures: Seq<Seq<usize>>, t: Seq<usize>, k: int)
    requires
        is_type_position(structures, t, k),
    ensures
        type_position(structures, t) == k,
{
    let c = type_position(structures, t);
    assert(is_type_position(structures, t, c));
    if c < k {
        assert(structures[c] != t);
    } else if k < c {
        assert(structures[k] != t);
    }
}

/// The position in `structures` of the cycle type of the decomposition `cycles` (its
/// cycle lengths in increasing order), or the number of structures when it is not listed.
pub(crate) fn cycle_type_index(cycles: &Vec<Vec<usize>>, structures: &Vec<Vec<usize>>) -> (r: usize)
    ensures
        is_type_position(seqs(structures@), lens_of(seqs_of(cycles@)).sort_by(num_le()), r as int),
        r as int == decomposition_type(seqs(structures@), seqs_of(cycles@)),
{
    let mut lengths: Vec<usize> = Vec::new();
    let mut k: usize = 0;
    while k < cycles.len()
        invariant
            k <= cycles@.len(),
            lengths@ == lens_of(seqs_of(cycles@)).take(k as int),
        decreases cycles@.len() - k,
    {
        lengths.push(cycles[k].len());
        k += 1;
        assert(lengths@ =~= lens_of(seqs_of(cycles@)).take(k as int));
    }
    assert(lengths@ =~= lens_of(seqs_of(cycles@)));
    let sorted = sort_numbers(&lengths);
    let mut k: usize = 0;
    while k < structures.len()
        invariant
            k <= structures@.len(),
            sorted@ == lens_of(seqs_of(cycles@)).sort_by(num_le()),
            forall|j: int| 0 <= j < k ==> #[trigger] seqs(structures@)[j] != sorted@,
        decreases structures@.len() - k,
    {
        if lex_compare(&structures[k], &sorted) == 0 {
            proof {
                lemma_type_position(seqs(structures@), sorted@, k as int);
            }
            return k;
        }
        k += 1;
    }
    proof {
        lemma_type_position(seqs(structures@), sorted@, structures@.len() as int);
    }
    structures.len()
}

/// The permutation that sends position k to the new value of the entry of row `i` there.
pub(crate) fn relabeled_row<const N: usize>(sq: &LatinSquare<N>, i: usize, sym: &Permutation<N>) -> (r: Permutation<N>)
    requires
        i < N,
    ensures
        forall|k: int| 0 <= k < N ==> #[trigger] r@[k] == sym@[sq@[i as int][k] as int],
{
    proof {
        use_type_invariant(sq);
        lemma_row_perm(sq, i as int);
        use_type_invariant(sym);
        Permutation::lemma_wf(sym);
    }
    let ghost ri = Seq::new(N as nat, |k: int| sq@[i as int][k] as usize);
    let row = sq.get_row(i);
    let mut arr = [0usize; N];
    let mut k: usize = 0;
    while k < N
        invariant
            k <= N,
            row@ == sq@[i as int],
            ri == Seq::new(N as nat, |m: int| sq@[i as int][m] as usize),
            is_perm(ri, N as nat),
            is_perm(sym@, N as nat),
            forall|m: int| 0 <= m < k ==> #[trigger] arr@[m] == sym@[ri[m] as int],
        decreases N - k,
    {
        proof {
            assert(ri[k as int] < N);
            assert(ri[k as int] == row@[k as int] as usize);
        }
        arr[k] = sym.apply(row[k] as usize);
        k += 1;
    }
    proof {
        assert forall|x: int, y: int| 0 <= x < N && 0 <= y < N && x != y implies #[trigger] arr@[x] != #[trigger] arr@[y] by {
            assert(ri[x] != ri[y]);
        }
        assert forall|x: int| 0 <= x < N implies #[trigger] arr@[x] < N by {
            assert(ri[x] < N);
        }
        assert forall|k: int| 0 <= k < N implies #[trigger] arr@[k] == sym@[sq@[i as int][k] as int] by {
            assert(arr@[k] == sym@[ri[k] as int]);
        }
    }
    Permutation::from_array(arr)
}

/// The entries of column 0 of a Latin square, as a permutation of 0..N.
fn first_column<const N: usize>(sq: &LatinSquare<N>) -> (r: Permutation<N>)
    requires
        1 <= N,
    ensures
        forall|i: int| 0 <= i < N ==> #[trigger] r@[i] == sq@[i][0] as usize,
{
    proof {
        use_type_invariant(sq);
        LatinSquare::<N>::lemma_latin(sq);
    }
    let col = sq.get_col(0);
    let mut arr = [0usize; N];
    let mut k: usize = 0;
    while k < N
        invariant
            k <= N,
            forall|j: int| 0 <= j < N ==> #[trigger] col@[j] == sq@[j][0],
            forall|m: int| 0 <= m < k ==> #[trigger] arr@[m] == sq@[m][0] as usize,
        decreases N - k,
    {
        arr[k] = col[k] as usize;
        k += 1;
    }
    proof {
        assert forall|x: int, y: int| 0 <= x < N && 0 <= y < N && x != y implies #[trigger] arr@[x] != #[trigger] arr@[y] by {
            assert(sq@[x][0] != sq@[y][0]);
        }
        assert forall|x: int| 0 <= x < N implies #[trigger] arr@[x] < N by {
            assert(sq@[x][0] < N);
        }
    }
    Permutation::from_array(arr)
}

/// Taking columns by `colp` and renaming values by `sym`, then by `ic` and `s`, then moving
/// the rows by `r`, is the isotopy (r, c, s2) of `base` with c[colp[k]] the inverse of `ic`
/// at k and s2 at the inverse of `sym` at k equal to s[k].
proof fn lemma_isotope_chain(
    base: Seq<Seq<u8>>,
    t1: Seq<Seq<u8>>,
    t2: Seq<Seq<u8>>,
    res: Seq<Seq<u8>>,
    colp: Seq<usize>,
    sym: Seq<usize>,
    symi: Seq<usize>,
    ic: Seq<usize>,
    icinv: Seq<usize>,
    s: Seq<usize>,
    r: Seq<usize>,
    c: Seq<usize>,
    s2: Seq<usize>,
    n: nat,
)
    requires
        is_perm(colp, n),
        is_perm(sym, n),
        is_perm(ic, n),
        is_perm(icinv, n),
        forall|i: int, j: int| 0 <= i < n && 0 <= j < n ==> #[trigger] base[i][j] < n,
        forall|i: int, j: int| 0 <= i < n && 0 <= j < n ==> #[trigger] t1[i][j] as int == sym[base[i][colp[j] as int] as int] as int,
        forall|i: int, j: int| 0 <= i < n && 0 <= j < n ==> #[trigger] t2[i][j] as int == s[t1[i][ic[j] as int] as int] as int,
        forall|i: int| 0 <= i < n ==> #[trigger] res[r[i] as int] == t2[i],
        forall|k: int| 0 <= k < n ==> #[trigger] icinv[ic[k] as int] == k,
        forall|k: int| 0 <= k < n ==> #[trigger] ic[icinv[k] as int] == k,
        forall|k: int| 0 <= k < n ==> #[trigger] c[colp[k] as int] == icinv[k],
        forall|v: int| 0 <= v < n ==> #[trigger] symi[sym[v] as int] == v,
        forall|k: int| 0 <= k < n ==> #[trigger] s2[symi[k] as int] == s[k],
    ensures
        is_isotope(base, r, c, s2, res, n),
{
    crate::set_util::lemma_perm_surjective(colp, n);
    assert forall|i: int, j: int| 0 <= i < n && 0 <= j < n implies #[trigger] res[r[i] as int][c[j] as int] as int == s2[base[i][j] as int] as int by {
        let k = index_of(colp, j);
        assert(colp[k] as int == j);
        assert(c[colp[k] as int] == icinv[k]);
        let jj = icinv[k] as int;
        assert(ic[icinv[k] as int] == k);
        assert(0 <= k < n);
        assert(icinv[k] < n);
        assert(res[r[i] as int][jj] == t2[i][jj]);
        assert(t2[i][jj] as int == s[t1[i][ic[jj] as int] as int] as int);
        assert(t1[i][k] as int == sym[base[i][colp[k] as int] as int] as int);
        let v = base[i][j] as int;
        assert(symi[sym[v] as int] == v);
        assert(s2[symi[sym[v] as int] as int] == s[sym[v] as int]);
    }
}

/// The column in which row `x` of `g` holds the value that `sym` renames to `k`.
pub open spec fn column_of(g: Seq<Seq<u8>>, x: int, sym: Seq<usize>, k: int, n: nat) -> int {
    choose|c: int| 0 <= c < n && sym[g[x][c] as int] as int == k
}

/// Entry (i, j) of `g` once its columns are taken so that row `x`, renamed by `sym`, reads
/// 0, 1, ..., its values renamed by `sym` and then by `s`, and its columns then taken by
/// `ic`.
pub open spec fn normalised_entry(g: Seq<Seq<u8>>, x: int, sym: Seq<usize>, s: Seq<usize>, ic: Seq<usize>, n: nat, i: int, j: int) -> int {
    s[sym[g[i][column_of(g, x, sym, ic[j] as int, n)] as int] as int] as int
}

/// The row of that square that begins with `v`.
pub open spec fn row_starting(g: Seq<Seq<u8>>, x: int, sym: Seq<usize>, s: Seq<usize>, ic: Seq<usize>, n: nat, v: int) -> int {
    choose|i: int| 0 <= i < n && normalised_entry(g, x, sym, s, ic, n, i, 0) == v
}

/// That square with its rows ordered by their first entries.
pub open spec fn normalised(g: Seq<Seq<u8>>, x: int, sym: Seq<usize>, s: Seq<usize>, ic: Seq<usize>, n: nat) -> Seq<Seq<u8>> {
    Seq::new(n, |v: int| Seq::new(n, |j: int| normalised_entry(g, x, sym, s, ic, n, row_starting(g, x, sym, s, ic, n, v), j) as u8))
}

/// The square built step by step (columns by `colp`, values by `sym`, then by `ic` and `s`,
/// rows by their first entries) is the normalised one.
pub proof fn lemma_normalised(
    g: Seq<Seq<u8>>,
    x: int,
    sym: Seq<usize>,
    s: Seq<usize>,
    ic: Seq<usize>,
    colp: Seq<usize>,
    t1: Seq<Seq<u8>>,
    t2: Seq<Seq<u8>>,
    r: Seq<usize>,
    res: Seq<Seq<u8>>,
    n: nat,
)
    requires
        0 <= x < n,
        is_perm(sym, n),
        is_perm(s, n),
        is_perm(ic, n),
        is_perm(colp, n),
        is_perm(r, n),
        forall|i: int, j: int| 0 <= i < n && 0 <= j < n ==> #[trigger] g[i][j] < n,
        forall|k: int| 0 <= k < n ==> #[trigger] sym[g[x][colp[k] as int] as int] as int == k,
        forall|c: int, d: int| 0 <= c < n && 0 <= d < n && c != d ==> #[trigger] sym[g[x][c] as int] != #[trigger] sym[g[x][d] as int],
        forall|i: int, j: int| 0 <= i < n && 0 <= j < n ==> #[trigger] t1[i][j] as int == sym[g[i][colp[j] as int] as int] as int,
        forall|i: int, j: int| 0 <= i < n && 0 <= j < n ==> #[trigger] t2[i][j] as int == s[t1[i][ic[j] as int] as int] as int,
        forall|i: int| 0 <= i < n ==> #[trigger] r[i] == t2[i][0] as usize,
        forall|i: int| 0 <= i < n ==> #[trigger] res[r[i] as int] == t2[i],
        res.len() == n,
        forall|i: int| 0 <= i < n ==> (#[trigger] res[i]).len() == n,
    ensures
        res == normalised(g, x, sym, s, ic, n),
        forall|i: int, j: int| 0 <= i < n && 0 <= j < n ==> #[trigger] normalised_entry(g, x, sym, s, ic, n, i, j) == t2[i][j] as int,
{
    assert forall|k: int| 0 <= k < n implies #[trigger] column_of(g, x, sym, k, n) == colp[k] as int by {
        assert(colp[k] < n);
        assert(sym[g[x][colp[k] as int] as int] as int == k);
        let c = column_of(g, x, sym, k, n);
        assert(0 <= c < n && sym[g[x][c] as int] as int == k);
    }
    assert forall|i: int, j: int| 0 <= i < n && 0 <= j < n implies #[trigger] normalised_entry(g, x, sym, s, ic, n, i, j) == t2[i][j] as int by {
        assert(ic[j] < n);
        assert(column_of(g, x, sym, ic[j] as int, n) == colp[ic[j] as int] as int);
        assert(t1[i][ic[j] as int] as int == sym[g[i][colp[ic[j] as int] as int] as int] as int);
    }
    crate::set_util::lemma_perm_surjective(r, n);
    assert forall|v: int| 0 <= v < n implies #[trigger] row_starting(g, x, sym, s, ic, n, v) == index_of(r, v) by {
        let iv = index_of(r, v);
        assert(0 <= iv < n && r[iv] as int == v);
        assert(normalised_entry(g, x, sym, s, ic, n, iv, 0) == t2[iv][0] as int);
        let i = row_starting(g, x, sym, s, ic, n, v);
        assert(0 <= i < n && normalised_entry(g, x, sym, s, ic, n, i, 0) == v);
        assert(normalised_entry(g, x, sym, s, ic, n, i, 0) == t2[i][0] as int);
        assert(r[i] == r[iv]);
    }
    let nm = normalised(g, x, sym, s, ic, n);
    assert forall|v: int| 0 <= v < n implies #[trigger] res[v] =~= nm[v] by {
        let iv = index_of(r, v);
        assert(res[r[iv] as int] == t2[iv]);
        assert forall|j: int| 0 <= j < n implies res[v][j] == nm[v][j] by {
            assert(normalised_entry(g, x, sym, s, ic, n, iv, j) == t2[iv][j] as int);
        }
    }
    assert(res =~= nm);
}

/// The identity arrangement of rows, columns and values leaves every cell as it is.
proof fn lemma_identity_conjugate_cells(s: Seq<Seq<u8>>, g: Seq<Seq<u8>>, n: nat)
    requires
        is_conjugate(s, g, n, identity_seq(3)),
    ensures
        forall|i: int, j: int| 0 <= i < n && 0 <= j < n ==> #[trigger] g[i][j] == s[i][j],
{
    let id = identity_seq(3);
    assert forall|m: int| 0 <= m < 3 implies #[trigger] index_of(id, m) == m by {
        assert(id[m] as int == m);
        let k = index_of(id, m);
        assert(0 <= k < id.len() && id[k] as int == m);
    }
    assert forall|i: int, j: int| 0 <= i < n && 0 <= j < n implies #[trigger] g[i][j] == s[i][j] by {
        let t = moved_triple(cell_triple(s, i, j), id);
        assert(index_of(id, 0) == 0);
        assert(index_of(id, 1) == 1);
        assert(index_of(id, 2) == 2);
        assert(t[0] == i && t[1] == j && t[2] == s[i][j] as int);
        assert(g[t[0]][t[1]] as int == t[2]);
    }
}

/// Some conjugate of `orig` by the arrangement of the entry turns into `target` by the
/// entry's row, column and value permutations.
pub open spec fn is_main_witness<const N: usize>(orig: Seq<Seq<u8>>, e: (Permutation<3>, [Permutation<N>; 3]), target: Seq<Seq<u8>>) -> bool {
    &&& is_perm(e.1[0]@, N as nat)
    &&& is_perm(e.1[1]@, N as nat)
    &&& is_perm(e.1[2]@, N as nat)
    &&& exists|g: Seq<Seq<u8>>| is_conjugate(orig, g, N as nat, e.0@)
        && #[trigger] is_isotope(g, e.1[0]@, e.1[1]@, e.1[2]@, target, N as nat)
}

/// The position of the last cycle type, where the search for the least one starts.
fn last_index(structures: &Vec<Vec<usize>>) -> (r: usize)
    ensures
        r == last_position(seqs(structures@)),
{
    if structures.len() == 0 {
        0
    } else {
        structures.len() - 1
    }
}

/// `structures` lists the cycle types of the permutations of n points without fixed
/// points, in increasing lexicographic order.
pub open spec fn is_structure_list(structures: Seq<Seq<usize>>, n: nat) -> bool {
    &&& strictly_sorted(structures)
    &&& forall|k: int| 0 <= k < structures.len() ==> #[trigger] crate::cycles::is_cycle_type(structures[k], n)
    &&& forall|c: Seq<usize>| #[trigger] crate::cycles::is_cycle_type(c, n) ==> structures.contains(c)
}

/// Rows `x` and `y` of an n x n square are two different rows.
pub open spec fn is_row_pair(x: int, y: int, n: nat) -> bool {
    0 <= x < n && 0 <= y < n && x != y
}

/// `dec[x][y]` is the cycle decomposition of the permutation that carries row x of `g` to
/// row y, for every pair of rows, and `m1` is the least position in `structures` of their
/// cycle types, or `m0` when none comes before it.
pub open spec fn search_valid(g: Seq<Seq<u8>>, structures: Seq<Seq<usize>>, dec: Seq<Seq<Seq<Seq<usize>>>>, m0: int, m1: int, n: nat) -> bool {
    &&& forall|x: int, y: int| is_row_pair(x, y, n) ==> is_cycle_decomposition(line_perm(g[x], g[y], n), n, #[trigger] dec[x][y])
    &&& m1 <= m0
    &&& forall|x: int, y: int| is_row_pair(x, y, n) ==> m1 <= decomposition_type(structures, #[trigger] dec[x][y])
    &&& (m1 == m0 || exists|x: int, y: int| is_row_pair(x, y, n) && decomposition_type(structures, #[trigger] dec[x][y]) == m1)
}

/// Row pair (x, y), of the type at position `m`, and entry `p` of the table's list for
/// that type are one of the normalisations that the search tries.
pub open spec fn is_search_target<const N: usize>(
    structures: Seq<Seq<usize>>,
    lookup: Seq<Vec<(Permutation<N>, Permutation<N>)>>,
    dec: Seq<Seq<Seq<Seq<usize>>>>,
    m: int,
    x: int,
    y: int,
    p: int,
) -> bool {
    &&& is_row_pair(x, y, N as nat)
    &&& decomposition_type(structures, dec[x][y]) == m
    &&& 0 <= m < lookup.len()
    &&& 0 <= p < lookup[m]@.len()
}

/// The square that normalisation `p` of the list for type `m` makes of `g` by row pair
/// (x, y), whose values are renamed by `rel[x][y]`.
pub open spec fn search_image<const N: usize>(
    g: Seq<Seq<u8>>,
    lookup: Seq<Vec<(Permutation<N>, Permutation<N>)>>,
    rel: Seq<Seq<Seq<usize>>>,
    m: int,
    x: int,
    y: int,
    p: int,
) -> Seq<Seq<u8>> {
    normalised(g, x, rel[x][y], lookup[m]@[p].0@, lookup[m]@[p].1@, N as nat)
}

/// `b1` is the least, in reading order, of `b0` and the squares that the table makes of
/// `g` by the row pairs of the type at position `m`, each pair's values renamed by blocks
/// of its cycles.
pub open spec fn search_min<const N: usize>(
    g: Seq<Seq<u8>>,
    structures: Seq<Seq<usize>>,
    lookup: Seq<Vec<(Permutation<N>, Permutation<N>)>>,
    dec: Seq<Seq<Seq<Seq<usize>>>>,
    rel: Seq<Seq<Seq<usize>>>,
    m: int,
    b0: Seq<Seq<u8>>,
    b1: Seq<Seq<u8>>,
) -> bool {
    &&& forall|x: int, y: int| is_row_pair(x, y, N as nat) && 0 <= m < lookup.len() && decomposition_type(structures, #[trigger] dec[x][y]) == m
        ==> is_relabeling(dec[x][y], rel[x][y], N as nat)
    &&& grid_le(b1, b0, N as nat)
    &&& (b1 == b0 || exists|x: int, y: int, p: int| #[trigger] is_search_target::<N>(structures, lookup, dec, m, x, y, p)
        && b1 == search_image::<N>(g, lookup, rel, m, x, y, p))
    &&& forall|x: int, y: int, p: int| #[trigger] is_search_target::<N>(structures, lookup, dec, m, x, y, p)
        ==> grid_le(b1, search_image::<N>(g, lookup, rel, m, x, y, p), N as nat)
}

/// One step of the search on `g`: starting from the type position `m0` and the square
/// `b0`, it ends with the type position `m1` and the square `b1`.
pub open spec fn search_step<const N: usize>(
    g: Seq<Seq<u8>>,
    structures: Seq<Seq<usize>>,
    lookup: Seq<Vec<(Permutation<N>, Permutation<N>)>>,
    m0: int,
    m1: int,
    b0: Seq<Seq<u8>>,
    b1: Seq<Seq<u8>>,
) -> bool {
    exists|dec: Seq<Seq<Seq<Seq<usize>>>>, rel: Seq<Seq<Seq<usize>>>|
        search_valid(g, structures, dec, m0, m1, N as nat) && #[trigger] search_min::<N>(g, structures, lookup, dec, rel, m1, b0, b1)
}

/// The position at which `p` holds `v`.
pub open spec fn position_in(p: Seq<usize>, v: int) -> int {
    choose|k: int| 0 <= k < p.len() && p[k] as int == v
}

/// The row, column and value permutations that take `g` to its normalisation by row `x`,
/// the renaming `sym` and the table entry (s, ic): row i goes to where its first entry
/// ends up, column j to where ic holds the new value of row x's entry there, and value v
/// becomes s at its renaming.
pub open spec fn normalising_triple(g: Seq<Seq<u8>>, x: int, sym: Seq<usize>, s: Seq<usize>, ic: Seq<usize>, n: nat) -> (Seq<usize>, Seq<usize>, Seq<usize>) {
    (
        Seq::new(n, |i: int| normalised_entry(g, x, sym, s, ic, n, i, 0) as usize),
        Seq::new(n, |j: int| position_in(ic, sym[g[x][j] as int] as int) as usize),
        Seq::new(n, |v: int| s[sym[v] as int]),
    )
}

/// The triple of target (x, y, p).
pub open spec fn search_witness<const N: usize>(
    g: Seq<Seq<u8>>,
    lookup: Seq<Vec<(Permutation<N>, Permutation<N>)>>,
    rel: Seq<Seq<Seq<usize>>>,
    m: int,
    x: int,
    y: int,
    p: int,
) -> (Seq<usize>, Seq<usize>, Seq<usize>) {
    normalising_triple(g, x, rel[x][y], lookup[m]@[p].0@, lookup[m]@[p].1@, N as nat)
}

/// Entry `e` of a list of ways records the arrangement `rcs` and the triple `w`.
pub open spec fn records<const N: usize>(e: (Permutation<3>, [Permutation<N>; 3]), rcs: Seq<usize>, w: (Seq<usize>, Seq<usize>, Seq<usize>)) -> bool {
    e.0@ == rcs && e.1[0]@ == w.0 && e.1[1]@ == w.1 && e.1[2]@ == w.2
}

/// `found` records, with the arrangement `rcs`, the triple of every target of the search
/// whose square is `b1`.
pub open spec fn lists_witnesses<const N: usize>(
    g: Seq<Seq<u8>>,
    structures: Seq<Seq<usize>>,
    lookup: Seq<Vec<(Permutation<N>, Permutation<N>)>>,
    dec: Seq<Seq<Seq<Seq<usize>>>>,
    rel: Seq<Seq<Seq<usize>>>,
    m: int,
    rcs: Seq<usize>,
    found: Seq<(Permutation<3>, [Permutation<N>; 3])>,
    b1: Seq<Seq<u8>>,
) -> bool {
    forall|x: int, y: int, p: int| #[trigger] is_search_target::<N>(structures, lookup, dec, m, x, y, p)
        && search_image::<N>(g, lookup, rel, m, x, y, p) == b1
        ==> exists|k: int| 0 <= k < found.len() && #[trigger] records::<N>(found[k], rcs, search_witness::<N>(g, lookup, rel, m, x, y, p))
}

/// The search step, with `found` recording the triple of each target that gives `b1`.
pub open spec fn search_step_listed<const N: usize>(
    g: Seq<Seq<u8>>,
    structures: Seq<Seq<usize>>,
    lookup: Seq<Vec<(Permutation<N>, Permutation<N>)>>,
    m0: int,
    m1: int,
    b0: Seq<Seq<u8>>,
    b1: Seq<Seq<u8>>,
    rcs: Seq<usize>,
    found: Seq<(Permutation<3>, [Permutation<N>; 3])>,
) -> bool {
    exists|dec: Seq<Seq<Seq<Seq<usize>>>>, rel: Seq<Seq<Seq<usize>>>|
        search_valid(g, structures, dec, m0, m1, N as nat) && #[trigger] search_min::<N>(g, structures, lookup, dec, rel, m1, b0, b1)
        && lists_witnesses::<N>(g, structures, lookup, dec, rel, m1, rcs, found, b1)
}

/// A square never comes before itself.
pub proof fn lemma_grid_less_irreflexive(a: Seq<Seq<u8>>, n: nat)
    ensures
        !grid_less(a, a, n),
{
}

/// Row pair (x, y) is among those handled before the step at (a, b, t): the pairs of lower
/// rows a and b are taken in order, (a, b) at t = 0 and (b, a) at t = 1.
pub open spec fn scanned(x: int, y: int, a: int, b: int, t: int) -> bool {
    let lo = if x < y { x } else { y };
    let hi = if x < y { y } else { x };
    lo < a || (lo == a && hi < b) || (lo == a && hi == b && ((t >= 1 && x == a) || t >= 2))
}

/// What the scan of the row pairs knows up to (a, b, t).
spec fn scan_state<const N: usize>(
    g: Seq<Seq<u8>>,
    st: Seq<Seq<usize>>,
    dec: Seq<Seq<Seq<Seq<usize>>>>,
    cands: Seq<(usize, usize, Permutation<N>, Vec<Vec<usize>>)>,
    m0: int,
    m: int,
    a: int,
    b: int,
    t: int,
) -> bool {
    &&& dec.len() == N
    &&& forall|i: int| 0 <= i < N ==> (#[trigger] dec[i]).len() == N
    &&& forall|x: int, y: int| is_row_pair(x, y, N as nat) && scanned(x, y, a, b, t)
        ==> is_cycle_decomposition(line_perm(g[x], g[y], N as nat), N as nat, #[trigger] dec[x][y]) && m <= decomposition_type(st, dec[x][y])
    &&& m <= m0
    &&& (m == m0 || exists|x: int, y: int| is_row_pair(x, y, N as nat) && scanned(x, y, a, b, t) && decomposition_type(st, #[trigger] dec[x][y]) == m)
    &&& forall|k: int| 0 <= k < cands.len() ==> is_row_pair((#[trigger] cands[k]).0 as int, cands[k].1 as int, N as nat)
        && scanned(cands[k].0 as int, cands[k].1 as int, a, b, t)
        && dec[cands[k].0 as int][cands[k].1 as int] == seqs_of(cands[k].3@)
        && cands[k].2@ == line_perm(g[cands[k].0 as int], g[cands[k].1 as int], N as nat)
        && decomposition_type(st, dec[cands[k].0 as int][cands[k].1 as int]) == m
    &&& forall|x: int, y: int| is_row_pair(x, y, N as nat) && scanned(x, y, a, b, t) && decomposition_type(st, #[trigger] dec[x][y]) == m
        ==> exists|k: int| 0 <= k < cands.len() && (#[trigger] cands[k]).0 == x && cands[k].1 == y
    &&& forall|k: int, l: int| 0 <= k < cands.len() && 0 <= l < cands.len() && k != l
        ==> (#[trigger] cands[k]).0 != (#[trigger] cands[l]).0 || cands[k].1 != cands[l].1
}

/// The scan state depends on the pairs handled only.
proof fn lemma_scan_same<const N: usize>(
    g: Seq<Seq<u8>>,
    st: Seq<Seq<usize>>,
    dec: Seq<Seq<Seq<Seq<usize>>>>,
    cands: Seq<(usize, usize, Permutation<N>, Vec<Vec<usize>>)>,
    m0: int,
    m: int,
    a: int,
    b: int,
    t: int,
    a2: int,
    b2: int,
    t2: int,
)
    requires
        scan_state::<N>(g, st, dec, cands, m0, m, a, b, t),
        forall|x: int, y: int| is_row_pair(x, y, N as nat) ==> #[trigger] scanned(x, y, a, b, t) == scanned(x, y, a2, b2, t2),
    ensures
        scan_state::<N>(g, st, dec, cands, m0, m, a2, b2, t2),
{
    if m != m0 {
        let (x, y) = choose|x: int, y: int| is_row_pair(x, y, N as nat) && scanned(x, y, a, b, t) && decomposition_type(st, #[trigger] dec[x][y]) == m;
        assert(scanned(x, y, a2, b2, t2));
    }
    assert forall|x: int, y: int| is_row_pair(x, y, N as nat) && scanned(x, y, a2, b2, t2) && decomposition_type(st, #[trigger] dec[x][y]) == m
        implies exists|k: int| 0 <= k < cands.len() && (#[trigger] cands[k]).0 == x && cands[k].1 == y by {
        assert(scanned(x, y, a, b, t));
    }
    assert forall|k: int| 0 <= k < cands.len() implies scanned((#[trigger] cands[k]).0 as int, cands[k].1 as int, a2, b2, t2) by {
        assert(scanned(cands[k].0 as int, cands[k].1 as int, a, b, t));
    }
}

/// Handling row pair (x, y), whose decomposition `cs` has its type at position `idx`.
proof fn lemma_scan_step<const N: usize>(
    g: Seq<Seq<u8>>,
    st: Seq<Seq<usize>>,
    dec: Seq<Seq<Seq<Seq<usize>>>>,
    dec2: Seq<Seq<Seq<Seq<usize>>>>,
    cands: Seq<(usize, usize, Permutation<N>, Vec<Vec<usize>>)>,
    cands2: Seq<(usize, usize, Permutation<N>, Vec<Vec<usize>>)>,
    m0: int,
    m: int,
    m2: int,
    a: int,
    b: int,
    t: int,
    entry: (usize, usize, Permutation<N>, Vec<Vec<usize>>),
    idx: int,
)
    requires
        scan_state::<N>(g, st, dec, cands, m0, m, a, b, t),
        is_row_pair(entry.0 as int, entry.1 as int, N as nat),
        !scanned(entry.0 as int, entry.1 as int, a, b, t),
        forall|x: int, y: int| is_row_pair(x, y, N as nat) ==> #[trigger] scanned(x, y, a, b, t + 1)
            == (scanned(x, y, a, b, t) || (x == entry.0 && y == entry.1)),
        dec2 == dec.update(entry.0 as int, dec[entry.0 as int].update(entry.1 as int, seqs_of(entry.3@))),
        is_cycle_decomposition(line_perm(g[entry.0 as int], g[entry.1 as int], N as nat), N as nat, seqs_of(entry.3@)),
        entry.2@ == line_perm(g[entry.0 as int], g[entry.1 as int], N as nat),
        idx == decomposition_type(st, seqs_of(entry.3@)),
        (idx < m && m2 == idx && cands2 == seq![entry])
            || (idx == m && m2 == m && cands2 == cands.push(entry))
            || (idx > m && m2 == m && cands2 == cands),
    ensures
        scan_state::<N>(g, st, dec2, cands2, m0, m2, a, b, t + 1),
{
    let x0 = entry.0 as int;
    let y0 = entry.1 as int;
    assert forall|x: int, y: int| is_row_pair(x, y, N as nat) && scanned(x, y, a, b, t) implies #[trigger] dec2[x][y] == dec[x][y] by {
        if x == x0 {
            assert(y != y0);
        }
    }
    assert(dec2[x0][y0] == seqs_of(entry.3@));
    assert forall|i: int| 0 <= i < N implies (#[trigger] dec2[i]).len() == N by {
        assert(dec[i].len() == N);
    }
    assert forall|x: int, y: int| is_row_pair(x, y, N as nat) && scanned(x, y, a, b, t + 1)
        implies is_cycle_decomposition(line_perm(g[x], g[y], N as nat), N as nat, #[trigger] dec2[x][y]) && m2 <= decomposition_type(st, dec2[x][y]) by {
        if x == x0 && y == y0 {
        } else {
            assert(scanned(x, y, a, b, t));
            assert(dec2[x][y] == dec[x][y]);
        }
    }
    if m2 != m0 {
        if m2 == idx {
            assert(is_row_pair(x0, y0, N as nat) && scanned(x0, y0, a, b, t + 1) && decomposition_type(st, dec2[x0][y0]) == m2);
        } else {
            let (x, y) = choose|x: int, y: int| is_row_pair(x, y, N as nat) && scanned(x, y, a, b, t) && decomposition_type(st, #[trigger] dec[x][y]) == m;
            assert(dec2[x][y] == dec[x][y]);
            assert(scanned(x, y, a, b, t + 1));
        }
    }
    assert forall|k: int| 0 <= k < cands2.len() implies is_row_pair((#[trigger] cands2[k]).0 as int, cands2[k].1 as int, N as nat)
        && scanned(cands2[k].0 as int, cands2[k].1 as int, a, b, t + 1)
        && dec2[cands2[k].0 as int][cands2[k].1 as int] == seqs_of(cands2[k].3@)
        && cands2[k].2@ == line_perm(g[cands2[k].0 as int], g[cands2[k].1 as int], N as nat)
        && decomposition_type(st, dec2[cands2[k].0 as int][cands2[k].1 as int]) == m2 by {
        if cands2[k] != entry {
            assert(idx >= m);
            assert(k < cands.len() && cands2[k] == cands[k]);
            assert(scanned(cands[k].0 as int, cands[k].1 as int, a, b, t));
            assert(dec2[cands[k].0 as int][cands[k].1 as int] == dec[cands[k].0 as int][cands[k].1 as int]);
        }
    }
    assert forall|x: int, y: int| is_row_pair(x, y, N as nat) && scanned(x, y, a, b, t + 1) && decomposition_type(st, #[trigger] dec2[x][y]) == m2
        implies exists|k: int| 0 <= k < cands2.len() && (#[trigger] cands2[k]).0 == x && cands2[k].1 == y by {
        if x == x0 && y == y0 {
            if idx < m {
                assert(cands2[0] == entry);
            } else {
                assert(cands2[cands.len() as int] == entry);
            }
        } else {
            assert(scanned(x, y, a, b, t));
            assert(dec2[x][y] == dec[x][y]);
            assert(idx >= m);
            let k = choose|k: int| 0 <= k < cands.len() && (#[trigger] cands[k]).0 == x && cands[k].1 == y;
            assert(cands2[k] == cands[k]);
        }
    }
    assert forall|k: int, l: int| 0 <= k < cands2.len() && 0 <= l < cands2.len() && k != l
        implies (#[trigger] cands2[k]).0 != (#[trigger] cands2[l]).0 || cands2[k].1 != cands2[l].1 by {
        if idx == m {
            if k == cands.len() {
                assert(scanned(cands[l].0 as int, cands[l].1 as int, a, b, t));
            } else if l == cands.len() {
                assert(scanned(cands[k].0 as int, cands[k].1 as int, a, b, t));
            }
        }
    }
}

/// Reading order, equal squares included, is transitive.
pub proof fn lemma_grid_le_trans(a: Seq<Seq<u8>>, b: Seq<Seq<u8>>, c: Seq<Seq<u8>>, n: nat)
    requires
        grid_le(a, b, n),
        grid_le(b, c, n),
    ensures
        grid_le(a, c, n),
{
    if a != b && b != c {
        lemma_grid_less_trans(a, b, c, n);
    }
}

/// Entry `p` of the list for candidate `k` has been tried once the search is at candidate
/// `q` and entry `pp`.
spec fn covered(k: int, p: int, q: int, pp: int, plen: int) -> bool {
    0 <= p < plen && (0 <= k < q || (k == q && p < pp))
}

/// The square made by candidate `k` and entry `p`.
spec fn candidate_image<const N: usize>(
    g: Seq<Seq<u8>>,
    lookup: Seq<Vec<(Permutation<N>, Permutation<N>)>>,
    rel: Seq<Seq<Seq<usize>>>,
    m: int,
    cands: Seq<(usize, usize, Permutation<N>, Vec<Vec<usize>>)>,
    k: int,
    p: int,
) -> Seq<Seq<u8>> {
    search_image::<N>(g, lookup, rel, m, cands[k].0 as int, cands[k].1 as int, p)
}

/// `best` is the least of `best0` and the squares tried so far.
spec fn least_so_far<const N: usize>(
    g: Seq<Seq<u8>>,
    lookup: Seq<Vec<(Permutation<N>, Permutation<N>)>>,
    rel: Seq<Seq<Seq<usize>>>,
    m: int,
    cands: Seq<(usize, usize, Permutation<N>, Vec<Vec<usize>>)>,
    q: int,
    pp: int,
    plen: int,
    best0: Seq<Seq<u8>>,
    best: Seq<Seq<u8>>,
) -> bool {
    &&& grid_le(best, best0, N as nat)
    &&& (best == best0 || exists|k: int, p: int| #[trigger] covered(k, p, q, pp, plen) && best == candidate_image::<N>(g, lookup, rel, m, cands, k, p))
    &&& forall|k: int, p: int| #[trigger] covered(k, p, q, pp, plen) ==> grid_le(best, candidate_image::<N>(g, lookup, rel, m, cands, k, p), N as nat)
}

/// The rows of a Latin square are lines.
pub proof fn lemma_rows_are_lines<const N: usize>(sq: &LatinSquare<N>)
    requires
        sq.is_latin_square(),
    ensures
        forall|i: int| 0 <= i < N ==> #[trigger] crate::cycle_types::is_line(sq@[i], N as nat),
{
    LatinSquare::<N>::lemma_latin(sq);
    assert forall|i: int| 0 <= i < N implies #[trigger] crate::cycle_types::is_line(sq@[i], N as nat) by {
        assert forall|j: int, k: int| 0 <= j < N && 0 <= k < N && j != k implies #[trigger] sq@[i][j] != #[trigger] sq@[i][k] by {}
    }
}

/// Every row pair is handled once the scan is over.
proof fn lemma_scan_complete<const N: usize>(
    g: Seq<Seq<u8>>,
    st: Seq<Seq<usize>>,
    dec: Seq<Seq<Seq<Seq<usize>>>>,
    cands: Seq<(usize, usize, Permutation<N>, Vec<Vec<usize>>)>,
    m0: int,
    m: int,
)
    requires
        scan_state::<N>(g, st, dec, cands, m0, m, N as int, N + 1, 0),
    ensures
        search_valid(g, st, dec, m0, m, N as nat),
        forall|x: int, y: int| is_row_pair(x, y, N as nat) && decomposition_type(st, #[trigger] dec[x][y]) == m
            ==> exists|k: int| 0 <= k < cands.len() && (#[trigger] cands[k]).0 == x && cands[k].1 == y,
{
    assert forall|x: int, y: int| is_row_pair(x, y, N as nat) implies #[trigger] scanned(x, y, N as int, N + 1, 0) by {}
    if m != m0 {
        let (x, y) = choose|x: int, y: int| is_row_pair(x, y, N as nat) && scanned(x, y, N as int, N + 1, 0) && decomposition_type(st, #[trigger] dec[x][y]) == m;
    }
    assert forall|x: int, y: int| is_row_pair(x, y, N as nat) implies is_cycle_decomposition(line_perm(g[x], g[y], N as nat), N as nat, #[trigger] dec[x][y]) by {
        assert(scanned(x, y, N as int, N + 1, 0));
    }
    assert forall|x: int, y: int| is_row_pair(x, y, N as nat) implies m <= decomposition_type(st, #[trigger] dec[x][y]) by {
        assert(scanned(x, y, N as int, N + 1, 0));
    }
    assert forall|x: int, y: int| is_row_pair(x, y, N as nat) && decomposition_type(st, #[trigger] dec[x][y]) == m
        implies exists|k: int| 0 <= k < cands.len() && (#[trigger] cands[k]).0 == x && cands[k].1 == y by {
        assert(scanned(x, y, N as int, N + 1, 0));
    }
}

/// Renaming the values of a new candidate keeps the squares of the earlier ones.
proof fn lemma_least_rel_update<const N: usize>(
    g: Seq<Seq<u8>>,
    lookup: Seq<Vec<(Permutation<N>, Permutation<N>)>>,
    rel: Seq<Seq<Seq<usize>>>,
    rel2: Seq<Seq<Seq<usize>>>,
    m: int,
    cands: Seq<(usize, usize, Permutation<N>, Vec<Vec<usize>>)>,
    q: int,
    plen: int,
    best0: Seq<Seq<u8>>,
    best: Seq<Seq<u8>>,
)
    requires
        least_so_far::<N>(g, lookup, rel, m, cands, q, 0, plen, best0, best),
        0 <= q < cands.len(),
        forall|k: int| 0 <= k < q ==> #[trigger] rel2[cands[k].0 as int][cands[k].1 as int] == rel[cands[k].0 as int][cands[k].1 as int],
    ensures
        least_so_far::<N>(g, lookup, rel2, m, cands, q, 0, plen, best0, best),
        forall|k: int, p: int| #[trigger] covered(k, p, q, 0, plen) ==> candidate_image::<N>(g, lookup, rel2, m, cands, k, p) == candidate_image::<N>(g, lookup, rel, m, cands, k, p),
{
    assert forall|k: int, p: int| #[trigger] covered(k, p, q, 0, plen) implies candidate_image::<N>(g, lookup, rel2, m, cands, k, p) == candidate_image::<N>(g, lookup, rel, m, cands, k, p) by {
        assert(rel2[cands[k].0 as int][cands[k].1 as int] == rel[cands[k].0 as int][cands[k].1 as int]);
    }
    if best != best0 {
        let (k, p) = choose|k: int, p: int| #[trigger] covered(k, p, q, 0, plen) && best == candidate_image::<N>(g, lookup, rel, m, cands, k, p);
        assert(covered(k, p, q, 0, plen) && best == candidate_image::<N>(g, lookup, rel2, m, cands, k, p));
    }
}

/// Trying entry `pp` of candidate `q`, whose square is `img`.
proof fn lemma_least_step<const N: usize>(
    g: Seq<Seq<u8>>,
    lookup: Seq<Vec<(Permutation<N>, Permutation<N>)>>,
    rel: Seq<Seq<Seq<usize>>>,
    m: int,
    cands: Seq<(usize, usize, Permutation<N>, Vec<Vec<usize>>)>,
    q: int,
    pp: int,
    plen: int,
    best0: Seq<Seq<u8>>,
    best: Seq<Seq<u8>>,
    best2: Seq<Seq<u8>>,
    img: Seq<Seq<u8>>,
)
    requires
        least_so_far::<N>(g, lookup, rel, m, cands, q, pp, plen, best0, best),
        0 <= q,
        0 <= pp < plen,
        img == candidate_image::<N>(g, lookup, rel, m, cands, q, pp),
        (best2 == img && grid_less(img, best, N as nat)) || (best2 == best && grid_le(best, img, N as nat)),
    ensures
        least_so_far::<N>(g, lookup, rel, m, cands, q, pp + 1, plen, best0, best2),
{
    assert(covered(q, pp, q, pp + 1, plen));
    assert forall|k: int, p: int| #[trigger] covered(k, p, q, pp + 1, plen) implies grid_le(best2, candidate_image::<N>(g, lookup, rel, m, cands, k, p), N as nat) by {
        if k == q && p == pp {
        } else {
            assert(covered(k, p, q, pp, plen));
            if best2 == img {
                lemma_grid_le_trans(best2, best, candidate_image::<N>(g, lookup, rel, m, cands, k, p), N as nat);
            }
        }
    }
    if best2 == img {
        lemma_grid_le_trans(best2, best, best0, N as nat);
    } else if best2 != best0 {
        let (k, p) = choose|k: int, p: int| #[trigger] covered(k, p, q, pp, plen) && best == candidate_image::<N>(g, lookup, rel, m, cands, k, p);
        assert(covered(k, p, q, pp + 1, plen));
    }
}

/// The triple of candidate `k` and entry `p`.
spec fn candidate_witness<const N: usize>(
    g: Seq<Seq<u8>>,
    lookup: Seq<Vec<(Permutation<N>, Permutation<N>)>>,
    rel: Seq<Seq<Seq<usize>>>,
    m: int,
    cands: Seq<(usize, usize, Permutation<N>, Vec<Vec<usize>>)>,
    k: int,
    p: int,
) -> (Seq<usize>, Seq<usize>, Seq<usize>) {
    search_witness::<N>(g, lookup, rel, m, cands[k].0 as int, cands[k].1 as int, p)
}

/// `found` records the triple of every tried entry whose square is `best`.
spec fn found_complete<const N: usize>(
    g: Seq<Seq<u8>>,
    lookup: Seq<Vec<(Permutation<N>, Permutation<N>)>>,
    rel: Seq<Seq<Seq<usize>>>,
    m: int,
    cands: Seq<(usize, usize, Permutation<N>, Vec<Vec<usize>>)>,
    q: int,
    pp: int,
    plen: int,
    rcs: Seq<usize>,
    found: Seq<(Permutation<3>, [Permutation<N>; 3])>,
    best: Seq<Seq<u8>>,
) -> bool {
    forall|k: int, p: int| #[trigger] covered(k, p, q, pp, plen) && candidate_image::<N>(g, lookup, rel, m, cands, k, p) == best
        ==> exists|i: int| 0 <= i < found.len() && #[trigger] records::<N>(found[i], rcs, candidate_witness::<N>(g, lookup, rel, m, cands, k, p))
}

/// Trying entry `pp` of candidate `q` keeps the record complete.
proof fn lemma_found_step<const N: usize>(
    g: Seq<Seq<u8>>,
    lookup: Seq<Vec<(Permutation<N>, Permutation<N>)>>,
    rel: Seq<Seq<Seq<usize>>>,
    m: int,
    cands: Seq<(usize, usize, Permutation<N>, Vec<Vec<usize>>)>,
    q: int,
    pp: int,
    plen: int,
    best0: Seq<Seq<u8>>,
    rcs: Seq<usize>,
    found: Seq<(Permutation<3>, [Permutation<N>; 3])>,
    found2: Seq<(Permutation<3>, [Permutation<N>; 3])>,
    best: Seq<Seq<u8>>,
    best2: Seq<Seq<u8>>,
    e: (Permutation<3>, [Permutation<N>; 3]),
)
    requires
        found_complete::<N>(g, lookup, rel, m, cands, q, pp, plen, rcs, found, best),
        least_so_far::<N>(g, lookup, rel, m, cands, q, pp, plen, best0, best),
        0 <= q,
        0 <= pp < plen,
        records::<N>(e, rcs, candidate_witness::<N>(g, lookup, rel, m, cands, q, pp)),
        (best2 == candidate_image::<N>(g, lookup, rel, m, cands, q, pp) && grid_less(best2, best, N as nat) && found2 == seq![e])
            || (best2 == best && candidate_image::<N>(g, lookup, rel, m, cands, q, pp) == best && found2 == found.push(e))
            || (best2 == best && grid_less(best, candidate_image::<N>(g, lookup, rel, m, cands, q, pp), N as nat) && found2 == found),
    ensures
        found_complete::<N>(g, lookup, rel, m, cands, q, pp + 1, plen, rcs, found2, best2),
{
    let img = candidate_image::<N>(g, lookup, rel, m, cands, q, pp);
    assert forall|k: int, p: int| #[trigger] covered(k, p, q, pp + 1, plen) && candidate_image::<N>(g, lookup, rel, m, cands, k, p) == best2
        implies exists|i: int| 0 <= i < found2.len() && #[trigger] records::<N>(found2[i], rcs, candidate_witness::<N>(g, lookup, rel, m, cands, k, p)) by {
        if k == q && p == pp {
            if found2 == seq![e] {
                assert(records::<N>(found2[0], rcs, candidate_witness::<N>(g, lookup, rel, m, cands, k, p)));
            } else if found2 == found.push(e) {
                assert(records::<N>(found2[found.len() as int], rcs, candidate_witness::<N>(g, lookup, rel, m, cands, k, p)));
            } else {
                lemma_grid_less_irreflexive(best, N as nat);
            }
        } else {
            assert(covered(k, p, q, pp, plen));
            if found2 == seq![e] && best2 == img && grid_less(best2, best, N as nat) {
                assert(grid_le(best, candidate_image::<N>(g, lookup, rel, m, cands, k, p), N as nat));
                if best != best2 {
                    lemma_grid_less_trans(best2, best, best2, N as nat);
                }
                lemma_grid_less_irreflexive(best2, N as nat);
            } else {
                let i = choose|i: int| 0 <= i < found.len() && #[trigger] records::<N>(found[i], rcs, candidate_witness::<N>(g, lookup, rel, m, cands, k, p));
                if found2 == found.push(e) {
                    assert(found2[i] == found[i]);
                }
            }
        }
    }
}

/// Renaming the values of a new candidate keeps the record of the earlier ones.
proof fn lemma_found_rel_update<const N: usize>(
    g: Seq<Seq<u8>>,
    lookup: Seq<Vec<(Permutation<N>, Permutation<N>)>>,
    rel: Seq<Seq<Seq<usize>>>,
    rel2: Seq<Seq<Seq<usize>>>,
    m: int,
    cands: Seq<(usize, usize, Permutation<N>, Vec<Vec<usize>>)>,
    q: int,
    plen: int,
    rcs: Seq<usize>,
    found: Seq<(Permutation<3>, [Permutation<N>; 3])>,
    best: Seq<Seq<u8>>,
)
    requires
        found_complete::<N>(g, lookup, rel, m, cands, q, 0, plen, rcs, found, best),
        forall|k: int| 0 <= k < q ==> #[trigger] rel2[cands[k].0 as int][cands[k].1 as int] == rel[cands[k].0 as int][cands[k].1 as int],
    ensures
        found_complete::<N>(g, lookup, rel2, m, cands, q, 0, plen, rcs, found, best),
{
    assert forall|k: int, p: int| #[trigger] covered(k, p, q, 0, plen) && candidate_image::<N>(g, lookup, rel2, m, cands, k, p) == best
        implies exists|i: int| 0 <= i < found.len() && #[trigger] records::<N>(found[i], rcs, candidate_witness::<N>(g, lookup, rel2, m, cands, k, p)) by {
        assert(rel2[cands[k].0 as int][cands[k].1 as int] == rel[cands[k].0 as int][cands[k].1 as int]);
        assert(candidate_image::<N>(g, lookup, rel, m, cands, k, p) == best);
        let i = choose|i: int| 0 <= i < found.len() && #[trigger] records::<N>(found[i], rcs, candidate_witness::<N>(g, lookup, rel, m, cands, k, p));
        assert(candidate_witness::<N>(g, lookup, rel2, m, cands, k, p) == candidate_witness::<N>(g, lookup, rel, m, cands, k, p));
    }
}

/// The record moves on with the candidates.
proof fn lemma_found_next<const N: usize>(
    g: Seq<Seq<u8>>,
    lookup: Seq<Vec<(Permutation<N>, Permutation<N>)>>,
    rel: Seq<Seq<Seq<usize>>>,
    m: int,
    cands: Seq<(usize, usize, Permutation<N>, Vec<Vec<usize>>)>,
    q: int,
    plen: int,
    rcs: Seq<usize>,
    found: Seq<(Permutation<3>, [Permutation<N>; 3])>,
    best: Seq<Seq<u8>>,
)
    requires
        found_complete::<N>(g, lookup, rel, m, cands, q, plen, plen, rcs, found, best),
    ensures
        found_complete::<N>(g, lookup, rel, m, cands, q + 1, 0, plen, rcs, found, best),
{
    assert forall|k: int, p: int| #[trigger] covered(k, p, q + 1, 0, plen) && candidate_image::<N>(g, lookup, rel, m, cands, k, p) == best
        implies exists|i: int| 0 <= i < found.len() && #[trigger] records::<N>(found[i], rcs, candidate_witness::<N>(g, lookup, rel, m, cands, k, p)) by {
        assert(covered(k, p, q, plen, plen));
    }
}

/// The record of the candidates is the record of the targets.
proof fn lemma_found_done<const N: usize>(
    g: Seq<Seq<u8>>,
    st: Seq<Seq<usize>>,
    lookup: Seq<Vec<(Permutation<N>, Permutation<N>)>>,
    dec: Seq<Seq<Seq<Seq<usize>>>>,
    rel: Seq<Seq<Seq<usize>>>,
    cands: Seq<(usize, usize, Permutation<N>, Vec<Vec<usize>>)>,
    m0: int,
    m: int,
    rcs: Seq<usize>,
    found: Seq<(Permutation<3>, [Permutation<N>; 3])>,
    best: Seq<Seq<u8>>,
)
    requires
        scan_state::<N>(g, st, dec, cands, m0, m, N as int, N + 1, 0),
        0 <= m < lookup.len(),
        found_complete::<N>(g, lookup, rel, m, cands, cands.len() as int, 0, lookup[m]@.len() as int, rcs, found, best),
    ensures
        lists_witnesses::<N>(g, st, lookup, dec, rel, m, rcs, found, best),
{
    let plen = lookup[m]@.len() as int;
    lemma_scan_complete(g, st, dec, cands, m0, m);
    assert forall|x: int, y: int, p: int| #[trigger] is_search_target::<N>(st, lookup, dec, m, x, y, p)
        && search_image::<N>(g, lookup, rel, m, x, y, p) == best
        implies exists|k: int| 0 <= k < found.len() && #[trigger] records::<N>(found[k], rcs, search_witness::<N>(g, lookup, rel, m, x, y, p)) by {
        let k = choose|k: int| 0 <= k < cands.len() && (#[trigger] cands[k]).0 == x && cands[k].1 == y;
        assert(covered(k, p, cands.len() as int, 0, plen));
        assert(candidate_image::<N>(g, lookup, rel, m, cands, k, p) == best);
        let i = choose|i: int| 0 <= i < found.len() && #[trigger] records::<N>(found[i], rcs, candidate_witness::<N>(g, lookup, rel, m, cands, k, p));
        assert(records::<N>(found[i], rcs, search_witness::<N>(g, lookup, rel, m, x, y, p)));
    }
}

/// Moving on to the next candidate.
proof fn lemma_least_next<const N: usize>(
    g: Seq<Seq<u8>>,
    lookup: Seq<Vec<(Permutation<N>, Permutation<N>)>>,
    rel: Seq<Seq<Seq<usize>>>,
    m: int,
    cands: Seq<(usize, usize, Permutation<N>, Vec<Vec<usize>>)>,
    q: int,
    plen: int,
    best0: Seq<Seq<u8>>,
    best: Seq<Seq<u8>>,
)
    requires
        least_so_far::<N>(g, lookup, rel, m, cands, q, plen, plen, best0, best),
        0 <= q,
    ensures
        least_so_far::<N>(g, lookup, rel, m, cands, q + 1, 0, plen, best0, best),
{
    assert forall|k: int, p: int| #[trigger] covered(k, p, q + 1, 0, plen) implies covered(k, p, q, plen, plen) by {}
    if best != best0 {
        let (k, p) = choose|k: int, p: int| #[trigger] covered(k, p, q, plen, plen) && best == candidate_image::<N>(g, lookup, rel, m, cands, k, p);
        assert(covered(k, p, q + 1, 0, plen));
    }
}

/// The search over every candidate is the search step.
proof fn lemma_search_done<const N: usize>(
    g: Seq<Seq<u8>>,
    st: Seq<Seq<usize>>,
    lookup: Seq<Vec<(Permutation<N>, Permutation<N>)>>,
    dec: Seq<Seq<Seq<Seq<usize>>>>,
    rel: Seq<Seq<Seq<usize>>>,
    cands: Seq<(usize, usize, Permutation<N>, Vec<Vec<usize>>)>,
    m0: int,
    m: int,
    best0: Seq<Seq<u8>>,
    best: Seq<Seq<u8>>,
)
    requires
        scan_state::<N>(g, st, dec, cands, m0, m, N as int, N + 1, 0),
        0 <= m < lookup.len(),
        forall|k: int| 0 <= k < cands.len() ==> is_relabeling(dec[(#[trigger] cands[k]).0 as int][cands[k].1 as int], rel[cands[k].0 as int][cands[k].1 as int], N as nat),
        least_so_far::<N>(g, lookup, rel, m, cands, cands.len() as int, 0, lookup[m]@.len() as int, best0, best),
    ensures
        search_step::<N>(g, st, lookup, m0, m, best0, best),
        search_min::<N>(g, st, lookup, dec, rel, m, best0, best),
{
    let plen = lookup[m]@.len() as int;
    lemma_scan_complete(g, st, dec, cands, m0, m);
    assert forall|x: int, y: int| is_row_pair(x, y, N as nat) && 0 <= m < lookup.len() && decomposition_type(st, #[trigger] dec[x][y]) == m
        implies is_relabeling(dec[x][y], rel[x][y], N as nat) by {
        let k = choose|k: int| 0 <= k < cands.len() && (#[trigger] cands[k]).0 == x && cands[k].1 == y;
        assert(is_relabeling(dec[cands[k].0 as int][cands[k].1 as int], rel[cands[k].0 as int][cands[k].1 as int], N as nat));
    }
    if best != best0 {
        let (k, p) = choose|k: int, p: int| #[trigger] covered(k, p, cands.len() as int, 0, plen) && best == candidate_image::<N>(g, lookup, rel, m, cands, k, p);
        assert(is_search_target::<N>(st, lookup, dec, m, cands[k].0 as int, cands[k].1 as int, p));
    }
    assert forall|x: int, y: int, p: int| #[trigger] is_search_target::<N>(st, lookup, dec, m, x, y, p)
        implies grid_le(best, search_image::<N>(g, lookup, rel, m, x, y, p), N as nat) by {
        let k = choose|k: int| 0 <= k < cands.len() && (#[trigger] cands[k]).0 == x && cands[k].1 == y;
        assert(covered(k, p, cands.len() as int, 0, plen));
    }
    assert(search_min::<N>(g, st, lookup, dec, rel, m, best0, best));
}

/// With no list for the least type the search keeps what it had.
proof fn lemma_search_none<const N: usize>(
    g: Seq<Seq<u8>>,
    st: Seq<Seq<usize>>,
    lookup: Seq<Vec<(Permutation<N>, Permutation<N>)>>,
    dec: Seq<Seq<Seq<Seq<usize>>>>,
    cands: Seq<(usize, usize, Permutation<N>, Vec<Vec<usize>>)>,
    m0: int,
    m: int,
    best: Seq<Seq<u8>>,
)
    requires
        scan_state::<N>(g, st, dec, cands, m0, m, N as int, N + 1, 0),
        m >= lookup.len(),
    ensures
        search_step::<N>(g, st, lookup, m0, m, best, best),
{
    lemma_scan_complete(g, st, dec, cands, m0, m);
    let rel = Seq::new(N as nat, |i: int| Seq::new(N as nat, |j: int| Seq::<usize>::empty()));
    assert(search_min::<N>(g, st, lookup, dec, rel, m, best, best));
}

/// Where the search for the least cycle type starts: the last position in `structures`.
pub open spec fn last_position(structures: Seq<Seq<usize>>) -> int {
    if structures.len() == 0 { 0 } else { structures.len() - 1 }
}

/// `r` is what the isotopy search by the table `lookup` gives for `g`: the least, in
/// reading order, of `g` and the squares that the table makes of it by the row pairs of
/// least cycle type.
pub open spec fn is_isotopy_search_result<const N: usize>(
    g: Seq<Seq<u8>>,
    lookup: Seq<Vec<(Permutation<N>, Permutation<N>)>>,
    r: Seq<Seq<u8>>,
) -> bool {
    exists|st: Seq<Seq<usize>>, m: int| is_structure_list(st, N as nat)
        && #[trigger] search_step::<N>(g, st, lookup, last_position(st), m, g, r)
}

/// `e` is the triple `w` of row, column and value permutations.
pub open spec fn holds_triple<const N: usize>(e: [Permutation<N>; 3], w: (Seq<usize>, Seq<usize>, Seq<usize>)) -> bool {
    e[0]@ == w.0 && e[1]@ == w.1 && e[2]@ == w.2
}

/// `r` is what the isotopy search by the table `lookup` gives for `g`, and `ws` holds the
/// triple of every normalisation of the search that gives `r`.
pub open spec fn is_isotopy_search_listing<const N: usize>(
    g: Seq<Seq<u8>>,
    lookup: Seq<Vec<(Permutation<N>, Permutation<N>)>>,
    r: Seq<Seq<u8>>,
    ws: Seq<[Permutation<N>; 3]>,
) -> bool {
    exists|st: Seq<Seq<usize>>, m: int, dec: Seq<Seq<Seq<Seq<usize>>>>, rel: Seq<Seq<Seq<usize>>>| {
        &&& is_structure_list(st, N as nat)
        &&& search_valid(g, st, dec, last_position(st), m, N as nat)
        &&& #[trigger] search_min::<N>(g, st, lookup, dec, rel, m, g, r)
        &&& forall|x: int, y: int, p: int| #[trigger] is_search_target::<N>(st, lookup, dec, m, x, y, p)
            && search_image::<N>(g, lookup, rel, m, x, y, p) == r
            ==> exists|k: int| 0 <= k < ws.len() && #[trigger] holds_triple::<N>(ws[k], search_witness::<N>(g, lookup, rel, m, x, y, p))
    }
}

/// The arrangement of rows, columns and values that the search over the conjugates takes
/// after `k` steps of lexicographic order from 2, 1, 0 (so the first is the identity).
pub open spec fn arrangement_after(k: nat) -> Seq<usize>
    decreases k,
{
    if k == 0 {
        Seq::new(3, |i: int| (3 - 1 - i) as usize)
    } else {
        next_arrangement(arrangement_after((k - 1) as nat))
    }
}

/// The successor of `s` by its descent start `m` and, when m > 0, the swap partner `j`.
proof fn lemma_next_arrangement_at(s: Seq<usize>, m: int, j: int)
    requires
        is_descent_start(s, m),
        m == 0 || is_swap_partner(s, m - 1, j),
    ensures
        next_arrangement(s) == if m == 0 {
            reverse_from(s, 0)
        } else {
            reverse_from(s.update(m - 1, s[j]).update(j, s[m - 1]), m)
        },
{
    let m2 = choose|m: int| is_descent_start(s, m);
    assert(is_descent_start(s, m2));
    if m2 < m {
        assert(s[m - 1] >= s[m]);
    } else if m < m2 {
        assert(s[m2 - 1] >= s[m2]);
    }
    if m > 0 {
        let j2 = choose|j: int| #[trigger] is_swap_partner(s, m - 1, j);
        assert(is_swap_partner(s, m - 1, j2));
        if j2 < j {
            assert(s[j] <= s[m - 1]);
        } else if j < j2 {
            assert(s[j2] <= s[m - 1]);
        }
    }
}

/// The search over the conjugates takes the six arrangements of rows, columns and values
/// in lexicographic order, each once: RCS, RSC, CRS, CSR, SRC, SCR.
pub proof fn lemma_six_arrangements()
    ensures
        arrangement_after(1) == seq![0usize, 1, 2],
        arrangement_after(2) == seq![0usize, 2, 1],
        arrangement_after(3) == seq![1usize, 0, 2],
        arrangement_after(4) == seq![1usize, 2, 0],
        arrangement_after(5) == seq![2usize, 0, 1],
        arrangement_after(6) == seq![2usize, 1, 0],
{
    let s0 = arrangement_after(0);
    assert(s0 =~= seq![2usize, 1, 0]);
    lemma_next_arrangement_at(s0, 0, 0);
    assert(arrangement_after(1) =~= seq![0usize, 1, 2]);
    let s1 = seq![0usize, 1, 2];
    lemma_next_arrangement_at(s1, 2, 2);
    assert(arrangement_after(2) =~= seq![0usize, 2, 1]);
    let s2 = seq![0usize, 2, 1];
    lemma_next_arrangement_at(s2, 1, 2);
    assert(arrangement_after(3) =~= seq![1usize, 0, 2]);
    let s3 = seq![1usize, 0, 2];
    lemma_next_arrangement_at(s3, 2, 2);
    assert(arrangement_after(4) =~= seq![1usize, 2, 0]);
    let s4 = seq![1usize, 2, 0];
    lemma_next_arrangement_at(s4, 1, 1);
    assert(arrangement_after(5) =~= seq![2usize, 0, 1]);
    let s5 = seq![2usize, 0, 1];
    lemma_next_arrangement_at(s5, 2, 2);
    assert(arrangement_after(6) =~= seq![2usize, 1, 0]);
}

/// The search over the six conjugates of `g` in turn: conjugate `cs[k]` by arrangement
/// k + 1 is searched from the square `bs[k]` and the type position `ms[k]` (when `shared`)
/// or the last one, giving `bs[k + 1]` and `ms[k + 1]`; it starts from `g` itself.
pub open spec fn main_search_chain<const N: usize>(
    g: Seq<Seq<u8>>,
    st: Seq<Seq<usize>>,
    lookup: Seq<Vec<(Permutation<N>, Permutation<N>)>>,
    shared: bool,
    cs: Seq<Seq<Seq<u8>>>,
    ms: Seq<int>,
    bs: Seq<Seq<Seq<u8>>>,
    steps: int,
) -> bool {
    &&& is_structure_list(st, N as nat)
    &&& cs.len() == steps
    &&& ms.len() == steps + 1
    &&& bs.len() == steps + 1
    &&& ms[0] == last_position(st)
    &&& bs[0] == g
    &&& forall|k: int| 0 <= k < steps ==> is_conjugate(g, cs[k], N as nat, arrangement_after((k + 1) as nat))
        && #[trigger] search_step::<N>(cs[k], st, lookup, step_start(shared, ms, st, k), ms[k + 1], bs[k], bs[k + 1])
}

/// The type position that step `k` of the search over the conjugates starts from.
pub open spec fn step_start(shared: bool, ms: Seq<int>, st: Seq<Seq<usize>>, k: int) -> int {
    if shared { ms[k] } else { last_position(st) }
}

/// `r` is what the main-class search by the table `lookup` gives for `g`, the least cycle
/// type carried from one conjugate to the next when `shared`.
pub open spec fn is_main_search_result<const N: usize>(
    g: Seq<Seq<u8>>,
    lookup: Seq<Vec<(Permutation<N>, Permutation<N>)>>,
    shared: bool,
    r: Seq<Seq<u8>>,
) -> bool {
    exists|st: Seq<Seq<usize>>, cs: Seq<Seq<Seq<u8>>>, ms: Seq<int>, bs: Seq<Seq<Seq<u8>>>|
        #[trigger] main_search_chain::<N>(g, st, lookup, shared, cs, ms, bs, 6) && bs[6] == r
}

/// One more conjugate searched.
proof fn lemma_chain_push<const N: usize>(
    g: Seq<Seq<u8>>,
    st: Seq<Seq<usize>>,
    lookup: Seq<Vec<(Permutation<N>, Permutation<N>)>>,
    shared: bool,
    cs: Seq<Seq<Seq<u8>>>,
    ms: Seq<int>,
    bs: Seq<Seq<Seq<u8>>>,
    steps: int,
    c: Seq<Seq<u8>>,
    m: int,
    b: Seq<Seq<u8>>,
)
    requires
        main_search_chain::<N>(g, st, lookup, shared, cs, ms, bs, steps),
        steps >= 0,
        is_conjugate(g, c, N as nat, arrangement_after((steps + 1) as nat)),
        search_step::<N>(c, st, lookup, step_start(shared, ms, st, steps), m, bs[steps], b),
    ensures
        main_search_chain::<N>(g, st, lookup, shared, cs.push(c), ms.push(m), bs.push(b), steps + 1),
{
    let cs2 = cs.push(c);
    let ms2 = ms.push(m);
    let bs2 = bs.push(b);
    assert(ms2[0] == ms[0] && bs2[0] == bs[0]);
    assert forall|k: int| 0 <= k < steps + 1 implies is_conjugate(g, #[trigger] cs2[k], N as nat, arrangement_after((k + 1) as nat)) by {
        if k < steps {
            assert(search_step::<N>(cs[k], st, lookup, step_start(shared, ms, st, k), ms[k + 1], bs[k], bs[k + 1]));
            assert(is_conjugate(g, cs[k], N as nat, arrangement_after((k + 1) as nat)));
            assert(cs2[k] == cs[k]);
        } else {
            assert(cs2[k] == c);
        }
    }
    assert forall|k: int| 0 <= k < steps + 1 implies is_conjugate(g, cs2[k], N as nat, arrangement_after((k + 1) as nat))
        && #[trigger] search_step::<N>(cs2[k], st, lookup, step_start(shared, ms2, st, k), ms2[k + 1], bs2[k], bs2[k + 1]) by {
        assert(step_start(shared, ms2, st, k) == step_start(shared, ms, st, k));
        if k < steps {
            assert(cs2[k] == cs[k] && ms2[k + 1] == ms[k + 1] && bs2[k] == bs[k] && bs2[k + 1] == bs[k + 1]);
            assert(search_step::<N>(cs[k], st, lookup, step_start(shared, ms, st, k), ms[k + 1], bs[k], bs[k + 1]));
        } else {
            assert(cs2[k] == c && ms2[k + 1] == m && bs2[k] == bs[steps] && bs2[k + 1] == b);
        }
    }
}

/// The search over the conjugates taken afresh from the last type position for each one,
/// with what each step used: `decs[k]` and `rels[k]` are the decompositions and renamings
/// of step k, the squares never grow, and `found` records, with arrangement k + 1, the
/// triple of every target of step k whose square is `r`.
pub open spec fn main_chain_listed<const N: usize>(
    g: Seq<Seq<u8>>,
    st: Seq<Seq<usize>>,
    lookup: Seq<Vec<(Permutation<N>, Permutation<N>)>>,
    cs: Seq<Seq<Seq<u8>>>,
    ms: Seq<int>,
    bs: Seq<Seq<Seq<u8>>>,
    decs: Seq<Seq<Seq<Seq<Seq<usize>>>>>,
    rels: Seq<Seq<Seq<Seq<usize>>>>,
    steps: int,
    found: Seq<(Permutation<3>, [Permutation<N>; 3])>,
    r: Seq<Seq<u8>>,
) -> bool {
    &&& is_structure_list(st, N as nat)
    &&& cs.len() == steps
    &&& ms.len() == steps + 1
    &&& bs.len() == steps + 1
    &&& decs.len() == steps
    &&& rels.len() == steps
    &&& ms[0] == last_position(st)
    &&& bs[0] == g
    &&& forall|a: int, b: int| 0 <= a <= b <= steps ==> grid_le(#[trigger] bs[b], #[trigger] bs[a], N as nat)
    &&& forall|k: int| 0 <= k < steps ==> is_conjugate(g, cs[k], N as nat, arrangement_after((k + 1) as nat))
        && search_valid(cs[k], st, decs[k], last_position(st), ms[k + 1], N as nat)
        && #[trigger] search_min::<N>(cs[k], st, lookup, decs[k], rels[k], ms[k + 1], bs[k], bs[k + 1])
    &&& forall|k: int, x: int, y: int, p: int| 0 <= k < steps && #[trigger] is_search_target::<N>(st, lookup, decs[k], ms[k + 1], x, y, p)
        && search_image::<N>(cs[k], lookup, rels[k], ms[k + 1], x, y, p) == r
        ==> exists|i: int| 0 <= i < found.len()
            && #[trigger] records::<N>(found[i], arrangement_after((k + 1) as nat), search_witness::<N>(cs[k], lookup, rels[k], ms[k + 1], x, y, p))
}

/// `r` is what the main-class search by the table `lookup` gives for `g`, each conjugate
/// searched from the last type position, and `found` records every way that the search
/// reaches `r`.
pub open spec fn is_main_search_listing<const N: usize>(
    g: Seq<Seq<u8>>,
    lookup: Seq<Vec<(Permutation<N>, Permutation<N>)>>,
    r: Seq<Seq<u8>>,
    found: Seq<(Permutation<3>, [Permutation<N>; 3])>,
) -> bool {
    exists|st: Seq<Seq<usize>>, cs: Seq<Seq<Seq<u8>>>, ms: Seq<int>, bs: Seq<Seq<Seq<u8>>>,
        decs: Seq<Seq<Seq<Seq<Seq<usize>>>>>, rels: Seq<Seq<Seq<Seq<usize>>>>|
        #[trigger] main_chain_listed::<N>(g, st, lookup, cs, ms, bs, decs, rels, 6, found, r) && bs[6] == r
}

/// One more conjugate searched, with its record.
proof fn lemma_listed_push<const N: usize>(
    g: Seq<Seq<u8>>,
    st: Seq<Seq<usize>>,
    lookup: Seq<Vec<(Permutation<N>, Permutation<N>)>>,
    cs: Seq<Seq<Seq<u8>>>,
    ms: Seq<int>,
    bs: Seq<Seq<Seq<u8>>>,
    decs: Seq<Seq<Seq<Seq<Seq<usize>>>>>,
    rels: Seq<Seq<Seq<Seq<usize>>>>,
    steps: int,
    found: Seq<(Permutation<3>, [Permutation<N>; 3])>,
    found2: Seq<(Permutation<3>, [Permutation<N>; 3])>,
    c: Seq<Seq<u8>>,
    m: int,
    b: Seq<Seq<u8>>,
    dec: Seq<Seq<Seq<Seq<usize>>>>,
    rel: Seq<Seq<Seq<usize>>>,
)
    requires
        main_chain_listed::<N>(g, st, lookup, cs, ms, bs, decs, rels, steps, found, bs[steps]),
        steps >= 0,
        is_conjugate(g, c, N as nat, arrangement_after((steps + 1) as nat)),
        search_valid(c, st, dec, last_position(st), m, N as nat),
        search_min::<N>(c, st, lookup, dec, rel, m, bs[steps], b),
        lists_witnesses::<N>(c, st, lookup, dec, rel, m, arrangement_after((steps + 1) as nat), found2, b),
        b == bs[steps] ==> found2.len() >= found.len() && forall|i: int| 0 <= i < found.len() ==> #[trigger] found2[i] == found[i],
    ensures
        main_chain_listed::<N>(g, st, lookup, cs.push(c), ms.push(m), bs.push(b), decs.push(dec), rels.push(rel), steps + 1, found2, b),
{
    let cs2 = cs.push(c);
    let ms2 = ms.push(m);
    let bs2 = bs.push(b);
    let decs2 = decs.push(dec);
    let rels2 = rels.push(rel);
    assert(ms2[0] == ms[0] && bs2[0] == bs[0]);
    assert forall|a: int, bb: int| 0 <= a <= bb <= steps + 1 implies grid_le(#[trigger] bs2[bb], #[trigger] bs2[a], N as nat) by {
        if bb == steps + 1 {
            if a == steps + 1 {
            } else {
                assert(bs2[a] == bs[a]);
                assert(grid_le(bs[steps], bs[a], N as nat));
                lemma_grid_le_trans(b, bs[steps], bs[a], N as nat);
            }
        } else {
            assert(bs2[a] == bs[a] && bs2[bb] == bs[bb]);
        }
    }
    assert forall|k: int| 0 <= k < steps + 1 implies is_conjugate(g, #[trigger] cs2[k], N as nat, arrangement_after((k + 1) as nat))
        && search_valid(cs2[k], st, decs2[k], last_position(st), ms2[k + 1], N as nat) by {
        if k < steps {
            assert(search_min::<N>(cs[k], st, lookup, decs[k], rels[k], ms[k + 1], bs[k], bs[k + 1]));
            assert(is_conjugate(g, cs[k], N as nat, arrangement_after((k + 1) as nat)));
            assert(search_valid(cs[k], st, decs[k], last_position(st), ms[k + 1], N as nat));
            assert(cs2[k] == cs[k] && decs2[k] == decs[k] && ms2[k + 1] == ms[k + 1]);
        } else {
            assert(cs2[k] == c && decs2[k] == dec && ms2[k + 1] == m);
        }
    }
    assert forall|k: int| 0 <= k < steps + 1 implies is_conjugate(g, cs2[k], N as nat, arrangement_after((k + 1) as nat))
        && search_valid(cs2[k], st, decs2[k], last_position(st), ms2[k + 1], N as nat)
        && #[trigger] search_min::<N>(cs2[k], st, lookup, decs2[k], rels2[k], ms2[k + 1], bs2[k], bs2[k + 1]) by {
        assert(is_conjugate(g, cs2[k], N as nat, arrangement_after((k + 1) as nat)));
        if k < steps {
            assert(cs2[k] == cs[k] && decs2[k] == decs[k] && rels2[k] == rels[k] && ms2[k + 1] == ms[k + 1] && bs2[k] == bs[k] && bs2[k + 1] == bs[k + 1]);
            assert(search_min::<N>(cs[k], st, lookup, decs[k], rels[k], ms[k + 1], bs[k], bs[k + 1]));
        } else {
            assert(cs2[k] == c && decs2[k] == dec && rels2[k] == rel && ms2[k + 1] == m && bs2[k] == bs[steps] && bs2[k + 1] == b);
        }
    }
    assert forall|k: int, x: int, y: int, p: int| 0 <= k < steps + 1 && #[trigger] is_search_target::<N>(st, lookup, decs2[k], ms2[k + 1], x, y, p)
        && search_image::<N>(cs2[k], lookup, rels2[k], ms2[k + 1], x, y, p) == b
        implies exists|i: int| 0 <= i < found2.len()
            && #[trigger] records::<N>(found2[i], arrangement_after((k + 1) as nat), search_witness::<N>(cs2[k], lookup, rels2[k], ms2[k + 1], x, y, p)) by {
        if k == steps {
            assert(cs2[k] == c && decs2[k] == dec && rels2[k] == rel && ms2[k + 1] == m);
            assert(is_search_target::<N>(st, lookup, dec, m, x, y, p));
        } else {
            assert(cs2[k] == cs[k] && decs2[k] == decs[k] && rels2[k] == rels[k] && ms2[k + 1] == ms[k + 1]);
            assert(is_search_target::<N>(st, lookup, decs[k], ms[k + 1], x, y, p));
            assert(search_min::<N>(cs[k], st, lookup, decs[k], rels[k], ms[k + 1], bs[k], bs[k + 1]));
            let img = search_image::<N>(cs[k], lookup, rels[k], ms[k + 1], x, y, p);
            assert(grid_le(bs[k + 1], img, N as nat));
            assert(grid_le(bs[steps], bs[k + 1], N as nat));
            lemma_grid_le_trans(bs[steps], bs[k + 1], img, N as nat);
            if b == bs[steps] {
                let i = choose|i: int| 0 <= i < found.len()
                    && #[trigger] records::<N>(found[i], arrangement_after((k + 1) as nat), search_witness::<N>(cs[k], lookup, rels[k], ms[k + 1], x, y, p));
                assert(found2[i] == found[i]);
            } else {
                assert(grid_le(b, bs[steps], N as nat));
                assert(grid_less(b, bs[steps], N as nat));
                if img != bs[steps] {
                    lemma_grid_less_trans(b, bs[steps], img, N as nat);
                }
                lemma_grid_less_irreflexive(b, N as nat);
                assert(false);
            }
        }
    }
}

/// The structures from `generate_cycle_structures` are the list of cycle types.
pub proof fn lemma_structure_list(structures: Seq<Vec<usize>>, n: nat)
    requires
        strictly_sorted(seqs(structures)),
        forall|k: int| 0 <= k < structures.len() ==> #[trigger] crate::cycles::is_cycle_type(seqs(structures)[k], n),
        forall|c: Seq<usize>| #[trigger] crate::cycles::is_cycle_type(c, n) ==> seqs(structures).contains(c),
    ensures
        is_structure_list(seqs(structures), n),
{
    assert forall|k: int| 0 <= k < seqs(structures).len() implies #[trigger] crate::cycles::is_cycle_type(seqs(structures)[k], n) by {}
}

impl<const N: usize> LatinSquare<N> {
    /// Searches the isotopes of `base`, a conjugate of `self` by `rcs`, that the table
    /// `lookup` gives for the row pairs of the least cycle type, and keeps in `best` the
    /// least square met so far and in `found` every way that reaches it.
    fn reduce_by_lookup(
        &self,
        base: &Self,
        rcs: &Permutation<3>,
        lookup: &Vec<Vec<(Permutation<N>, Permutation<N>)>>,
        structures: &Vec<Vec<usize>>,
        min_index: &mut usize,
        best: &mut Self,
        found: &mut Vec<(Permutation<3>, [Permutation<N>; 3])>,
    )
        requires
            1 <= N <= 16,
            is_conjugate(self@, base@, N as nat, rcs@),
            forall|k: int| 0 <= k < old(found)@.len() ==> #[trigger] is_main_witness(self@, old(found)@[k], old(best)@),
            old(found)@.len() >= 1,
            grid_le(old(best)@, self@, N as nat),
        ensures
            forall|k: int| 0 <= k < final(found)@.len() ==> #[trigger] is_main_witness(self@, final(found)@[k], final(best)@),
            final(found)@.len() >= 1,
            grid_le(final(best)@, self@, N as nat),
            (forall|k: int| 0 <= k < old(found)@.len() ==> (#[trigger] old(found)@[k]).0@ == rcs@)
                ==> (forall|k: int| 0 <= k < final(found)@.len() ==> (#[trigger] final(found)@[k]).0@ == rcs@),
            search_step_listed::<N>(base@, seqs(structures@), lookup@, *old(min_index) as int, *final(min_index) as int, old(best)@, final(best)@,
                rcs@, final(found)@),
            final(best)@ == old(best)@ ==> final(found)@.len() >= old(found)@.len()
                && forall|i: int| 0 <= i < old(found)@.len() ==> #[trigger] final(found)@[i] == old(found)@[i],
    {
        let ghost found0 = found@;
        let ghost g = base@;
        let ghost st = seqs(structures@);
        let ghost m0 = *min_index as int;
        let ghost best0 = best@;
        let ghost mut dec: Seq<Seq<Seq<Seq<usize>>>> = Seq::new(N as nat, |i: int| Seq::new(N as nat, |j: int| Seq::<Seq<usize>>::empty()));
        proof {
            use_type_invariant(base);
            lemma_rows_are_lines(base);
        }
        let mut candidates: Vec<(usize, usize, Permutation<N>, Vec<Vec<usize>>)> = Vec::new();
        let mut a: usize = 0;
        while a < N
            invariant
                N <= 16,
                a <= N,
                g == base@,
                st == seqs(structures@),
                forall|i: int| 0 <= i < N ==> #[trigger] crate::cycle_types::is_line(g[i], N as nat),
                scan_state::<N>(g, st, dec, candidates@, m0, *min_index as int, a as int, a + 1, 0),
            decreases N - a,
        {
            let mut b: usize = a + 1;
            while b < N
                invariant
                    N <= 16,
                    a < N,
                    a + 1 <= b <= N,
                    g == base@,
                    st == seqs(structures@),
                    forall|i: int| 0 <= i < N ==> #[trigger] crate::cycle_types::is_line(g[i], N as nat),
                    scan_state::<N>(g, st, dec, candidates@, m0, *min_index as int, a as int, b as int, 0),
                decreases N - b,
            {
                let mut t: usize = 0;
                while t < 2
                    invariant
                        N <= 16,
                        a < b < N,
                        t <= 2,
                        g == base@,
                        st == seqs(structures@),
                        forall|i: int| 0 <= i < N ==> #[trigger] crate::cycle_types::is_line(g[i], N as nat),
                        scan_state::<N>(g, st, dec, candidates@, m0, *min_index as int, a as int, b as int, t as int),
                    decreases 2 - t,
                {
                    let (x, y) = if t == 0 { (a, b) } else { (b, a) };
                    let pair_permutation = line_permutation(base.get_row(x), base.get_row(y));
                    let pair_cycles = pair_permutation.cycles();
                    let index = cycle_type_index(&pair_cycles, structures);
                    let ghost dec_before = dec;
                    let ghost cands_before = candidates@;
                    let ghost m_before = *min_index as int;
                    proof {
                        dec = dec.update(x as int, dec[x as int].update(y as int, seqs_of(pair_cycles@)));
                    }
                    let entry = (x, y, pair_permutation, pair_cycles);
                    let ghost ge = entry;
                    if index < *min_index {
                        *min_index = index;
                        candidates.clear();
                        candidates.push(entry);
                        proof {
                            assert(candidates@ =~= seq![ge]);
                        }
                    } else if index == *min_index {
                        candidates.push(entry);
                    }
                    proof {
                        assert forall|x2: int, y2: int| is_row_pair(x2, y2, N as nat) implies #[trigger] scanned(x2, y2, a as int, b as int, t + 1)
                            == (scanned(x2, y2, a as int, b as int, t as int) || (x2 == ge.0 && y2 == ge.1)) by {}
                        lemma_scan_step::<N>(g, st, dec_before, dec, cands_before, candidates@, m0, m_before, *min_index as int,
                            a as int, b as int, t as int, ge, index as int);
                    }
                    t += 1;
                }
                proof {
                    assert forall|x2: int, y2: int| is_row_pair(x2, y2, N as nat) implies #[trigger] scanned(x2, y2, a as int, b as int, 2)
                        == scanned(x2, y2, a as int, b + 1, 0) by {}
                    lemma_scan_same::<N>(g, st, dec, candidates@, m0, *min_index as int, a as int, b as int, 2, a as int, b + 1, 0);
                }
                b += 1;
            }
            proof {
                assert forall|x2: int, y2: int| is_row_pair(x2, y2, N as nat) implies #[trigger] scanned(x2, y2, a as int, b as int, 0)
                    == scanned(x2, y2, a + 1, a + 2, 0) by {}
                lemma_scan_same::<N>(g, st, dec, candidates@, m0, *min_index as int, a as int, b as int, 0, a + 1, a + 2, 0);
            }
            a += 1;
        }
        if *min_index >= lookup.len() {
            proof {
                lemma_search_none::<N>(g, st, lookup@, dec, candidates@, m0, *min_index as int, best0);
                let rel = Seq::new(N as nat, |i: int| Seq::new(N as nat, |j: int| Seq::<usize>::empty()));
                lemma_scan_complete(g, st, dec, candidates@, m0, *min_index as int);
                assert(search_min::<N>(g, st, lookup@, dec, rel, *min_index as int, best0, best0));
                assert(lists_witnesses::<N>(g, st, lookup@, dec, rel, *min_index as int, rcs@, found@, best0));
            }
            return;
        }
        let permutations = &lookup[*min_index];
        let ghost m = *min_index as int;
        let ghost plen = permutations@.len() as int;
        let ghost mut rel: Seq<Seq<Seq<usize>>> = Seq::new(N as nat, |i: int| Seq::new(N as nat, |j: int| Seq::<usize>::empty()));
        proof {
            assert forall|k: int, p: int| #[trigger] covered(k, p, 0, 0, plen) implies false by {}
        }
        let mut q: usize = 0;
        while q < candidates.len()
            invariant
                1 <= N <= 16,
                is_conjugate(self@, base@, N as nat, rcs@),
                forall|k: int| 0 <= k < found@.len() ==> #[trigger] is_main_witness(self@, found@[k], best@),
                found@.len() >= 1,
                grid_le(best@, self@, N as nat),
                (forall|k: int| 0 <= k < old(found)@.len() ==> (#[trigger] old(found)@[k]).0@ == rcs@)
                    ==> (forall|k: int| 0 <= k < found@.len() ==> (#[trigger] found@[k]).0@ == rcs@),
                g == base@,
                st == seqs(structures@),
                m == *min_index,
                0 <= m < lookup@.len(),
                permutations@ == lookup@[m]@,
                plen == permutations@.len(),
                q <= candidates@.len(),
                scan_state::<N>(g, st, dec, candidates@, m0, m, N as int, N + 1, 0),
                rel.len() == N,
                forall|i: int| 0 <= i < N ==> (#[trigger] rel[i]).len() == N,
                forall|k: int| 0 <= k < q ==> is_relabeling(dec[(#[trigger] candidates@[k]).0 as int][candidates@[k].1 as int],
                    rel[candidates@[k].0 as int][candidates@[k].1 as int], N as nat),
                least_so_far::<N>(g, lookup@, rel, m, candidates@, q as int, 0, plen, best0, best@),
                found_complete::<N>(g, lookup@, rel, m, candidates@, q as int, 0, plen, rcs@, found@, best@),
                found0 == old(found)@,
                (best@ == best0 && found@.len() >= found0.len() && forall|i: int| 0 <= i < found0.len() ==> #[trigger] found@[i] == found0[i])
                    || grid_less(best@, best0, N as nat),
            decreases candidates@.len() - q,
        {
            let x = candidates[q].0;
            let y = candidates[q].1;
            let symbol_permutation = symbol_relabeling(&candidates[q].2, &candidates[q].3);
            let ghost rel_before = rel;
            proof {
                rel = rel.update(x as int, rel[x as int].update(y as int, symbol_permutation@));
                assert forall|k: int| 0 <= k < q implies #[trigger] rel[candidates@[k].0 as int][candidates@[k].1 as int]
                    == rel_before[candidates@[k].0 as int][candidates@[k].1 as int] by {
                    assert(candidates@[k].0 != candidates@[q as int].0 || candidates@[k].1 != candidates@[q as int].1);
                }
                lemma_least_rel_update::<N>(g, lookup@, rel_before, rel, m, candidates@, q as int, plen, best0, best@);
                lemma_found_rel_update::<N>(g, lookup@, rel_before, rel, m, candidates@, q as int, plen, rcs@, found@, best@);
                assert forall|i: int| 0 <= i < N implies (#[trigger] rel[i]).len() == N by {}
                assert(rel[x as int][y as int] == symbol_permutation@);
                assert forall|k: int| 0 <= k < q + 1 implies is_relabeling(dec[(#[trigger] candidates@[k]).0 as int][candidates@[k].1 as int],
                    rel[candidates@[k].0 as int][candidates@[k].1 as int], N as nat) by {
                    if k < q {
                        assert(rel[candidates@[k].0 as int][candidates@[k].1 as int] == rel_before[candidates@[k].0 as int][candidates@[k].1 as int]);
                    }
                }
            }
            let relabeled = relabeled_row(base, x, &symbol_permutation);
            let ghost rrv = relabeled@;
            proof {
                use_type_invariant(&relabeled);
                Permutation::lemma_wf(&relabeled);
            }
            let column_permutation = relabeled.inverse();
            let ghost colv = column_permutation@;
            let mut sq = *base;
            sq.permute_cols_vals_simd(&column_permutation, &symbol_permutation);
            let ghost t1 = sq@;
            let mut p: usize = 0;
            while p < permutations.len()
                invariant
                    1 <= N <= 16,
                    is_conjugate(self@, base@, N as nat, rcs@),
                    sq@ == t1,
                    forall|i: int, j: int| 0 <= i < N && 0 <= j < N ==> #[trigger] t1[i][j] as int
                        == symbol_permutation@[base@[i][column_permutation@[j] as int] as int] as int,
                    forall|k: int| 0 <= k < found@.len() ==> #[trigger] is_main_witness(self@, found@[k], best@),
                    found@.len() >= 1,
                    grid_le(best@, self@, N as nat),
                    (forall|k: int| 0 <= k < old(found)@.len() ==> (#[trigger] old(found)@[k]).0@ == rcs@)
                        ==> (forall|k: int| 0 <= k < found@.len() ==> (#[trigger] found@[k]).0@ == rcs@),
                    g == base@,
                    m == *min_index,
                    0 <= m < lookup@.len(),
                    permutations@ == lookup@[m]@,
                    plen == permutations@.len(),
                    q < candidates@.len(),
                    x == candidates@[q as int].0,
                    y == candidates@[q as int].1,
                    x < N,
                    rel[x as int][y as int] == symbol_permutation@,
                    is_perm(rrv, N as nat),
                    forall|k: int| 0 <= k < N ==> #[trigger] rrv[k] == symbol_permutation@[base@[x as int][k] as int],
                    forall|i: int| 0 <= i < N ==> #[trigger] rrv[column_permutation@[i] as int] == i,
                    p <= permutations@.len(),
                    least_so_far::<N>(g, lookup@, rel, m, candidates@, q as int, p as int, plen, best0, best@),
                    found_complete::<N>(g, lookup@, rel, m, candidates@, q as int, p as int, plen, rcs@, found@, best@),
                    colv == column_permutation@,
                    forall|i: int| 0 <= i < N ==> #[trigger] colv[rrv[i] as int] == i,
                    found0 == old(found)@,
                    (best@ == best0 && found@.len() >= found0.len() && forall|i: int| 0 <= i < found0.len() ==> #[trigger] found@[i] == found0[i])
                        || grid_less(best@, best0, N as nat),
                decreases permutations@.len() - p,
            {
                let s = &permutations[p].0;
                let inverse_c = &permutations[p].1;
                let mut new_sq = sq;
                new_sq.permute_cols_vals_simd(inverse_c, s);
                let ghost t2 = new_sq@;
                let r = first_column(&new_sq);
                let new_sq = new_sq.permuted_rows(&r);
                let inverse_c_inverse = inverse_c.clone().inverse();
                let symbol_inverse = symbol_permutation.clone().inverse();
                let c_array = column_permutation.apply_array(inverse_c_inverse.clone().into_array());
                let s_array = symbol_inverse.apply_array(s.clone().into_array());
                proof {
                    use_type_invariant(&column_permutation);
                    Permutation::lemma_wf(&column_permutation);
                    use_type_invariant(&symbol_permutation);
                    Permutation::lemma_wf(&symbol_permutation);
                    use_type_invariant(&symbol_inverse);
                    Permutation::lemma_wf(&symbol_inverse);
                    use_type_invariant(&inverse_c_inverse);
                    Permutation::lemma_wf(&inverse_c_inverse);
                    use_type_invariant(s);
                    Permutation::lemma_wf(s);
                    use_type_invariant(inverse_c);
                    Permutation::lemma_wf(inverse_c);
                    lemma_placed_perm(column_permutation@, inverse_c_inverse@, c_array@, N as nat);
                    lemma_placed_perm(symbol_inverse@, s@, s_array@, N as nat);
                }
                let c = Permutation::from_array(c_array);
                let s2 = Permutation::from_array(s_array);
                proof {
                    use_type_invariant(base);
                    LatinSquare::<N>::lemma_latin(base);
                    assert forall|i: int, j: int| 0 <= i < N && 0 <= j < N implies #[trigger] base@[i][j] < N by {}
                    lemma_isotope_chain(base@, t1, t2, new_sq@, column_permutation@, symbol_permutation@, symbol_inverse@,
                        inverse_c@, inverse_c_inverse@, s@, r@, c@, s2@, N as nat);
                    assert(is_isotope(base@, r@, c@, s2@, new_sq@, N as nat));
                }
                let order = new_sq.compare(best);
                proof {
                    use_type_invariant(&r);
                    Permutation::lemma_wf(&r);
                    use_type_invariant(&c);
                    Permutation::lemma_wf(&c);
                    use_type_invariant(&s2);
                    Permutation::lemma_wf(&s2);
                    use_type_invariant(&new_sq);
                    LatinSquare::<N>::lemma_latin(&new_sq);
                    assert forall|k: int| 0 <= k < N implies #[trigger] symbol_permutation@[g[x as int][column_permutation@[k] as int] as int] as int == k by {
                        assert(column_permutation@[k] < N);
                        assert(rrv[column_permutation@[k] as int] == k);
                    }
                    assert forall|c: int, d: int| 0 <= c < N && 0 <= d < N && c != d
                        implies #[trigger] symbol_permutation@[g[x as int][c] as int] != #[trigger] symbol_permutation@[g[x as int][d] as int] by {
                        assert(rrv[c] != rrv[d]);
                    }
                    lemma_normalised(g, x as int, symbol_permutation@, s@, inverse_c@, column_permutation@, t1, t2, r@, new_sq@, N as nat);
                    assert(permutations@[p as int] == lookup@[m]@[p as int]);
                    assert(new_sq@ == candidate_image::<N>(g, lookup@, rel, m, candidates@, q as int, p as int));
                    let w = candidate_witness::<N>(g, lookup@, rel, m, candidates@, q as int, p as int);
                    assert(r@ =~= w.0);
                    assert forall|j: int| 0 <= j < N implies c@[j] == w.1[j] by {
                        let k = rrv[j] as int;
                        assert(colv[k] == j);
                        assert(c_array@[colv[k] as int] == inverse_c_inverse@[k]);
                        assert(inverse_c@[inverse_c_inverse@[k] as int] as int == k);
                        let pos = position_in(inverse_c@, k);
                        assert(inverse_c_inverse@[k] < N);
                        assert(0 <= pos < N && inverse_c@[pos] as int == k);
                        assert(pos == inverse_c_inverse@[k] as int);
                    }
                    assert(c@ =~= w.1);
                    assert forall|v: int| 0 <= v < N implies s2@[v] == w.2[v] by {
                        assert(symbol_permutation@[v] < N);
                        assert(symbol_inverse@[symbol_permutation@[v] as int] == v);
                        assert(s_array@[symbol_inverse@[symbol_permutation@[v] as int] as int] == s@[symbol_permutation@[v] as int]);
                    }
                    assert(s2@ =~= w.2);
                }
                let ghost best_before = best@;
                let ghost rv = r@;
                let ghost cv = c@;
                let ghost sv = s2@;
                let entry = (rcs.clone(), [r, c, s2]);
                let ghost entry_view = entry;
                let ghost found_before = found@;
                proof {
                    assert(records::<N>(entry, rcs@, candidate_witness::<N>(g, lookup@, rel, m, candidates@, q as int, p as int)));
                    assert(entry.0@ == rcs@);
                    assert(entry.1[0]@ == rv && entry.1[1]@ == cv && entry.1[2]@ == sv);
                    assert(is_isotope(base@, entry.1[0]@, entry.1[1]@, entry.1[2]@, new_sq@, N as nat));
                    assert(is_main_witness(self@, entry, new_sq@));
                }
                if order < 0 {
                    proof {
                        if best@ != self@ {
                            lemma_grid_less_trans(new_sq@, best@, self@, N as nat);
                        }
                    }
                    *best = new_sq;
                    found.clear();
                    found.push(entry);
                } else if order == 0 {
                    let ghost before = found@;
                    found.push(entry);
                    proof {
                        assert forall|k: int| 0 <= k < found@.len() implies #[trigger] is_main_witness(self@, found@[k], best@) by {
                            if k < before.len() {
                                assert(found@[k] == before[k]);
                            }
                        }
                        assert((forall|k: int| 0 <= k < old(found)@.len() ==> (#[trigger] old(found)@[k]).0@ == rcs@)
                            ==> (forall|k: int| 0 <= k < found@.len() ==> (#[trigger] found@[k]).0@ == rcs@)) by {
                            if forall|k: int| 0 <= k < old(found)@.len() ==> (#[trigger] old(found)@[k]).0@ == rcs@ {
                                assert forall|k: int| 0 <= k < found@.len() implies (#[trigger] found@[k]).0@ == rcs@ by {
                                    if k < before.len() {
                                        assert(found@[k] == before[k]);
                                    }
                                }
                            }
                        }
                    }
                }
                proof {
                    lemma_least_step::<N>(g, lookup@, rel, m, candidates@, q as int, p as int, plen, best0, best_before, best@, new_sq@);
                    lemma_found_step::<N>(g, lookup@, rel, m, candidates@, q as int, p as int, plen, best0, rcs@, found_before, found@,
                        best_before, best@, entry_view);
                    if best@ != best_before {
                        if best_before != best0 {
                            lemma_grid_less_trans(best@, best_before, best0, N as nat);
                        }
                    } else if best@ == best0 {
                        assert forall|i: int| 0 <= i < found0.len() implies #[trigger] found@[i] == found0[i] by {
                            if found@ != found_before {
                                assert(found@[i] == found_before[i]);
                            }
                        }
                    }
                }
                p += 1;
            }
            proof {
                lemma_least_next::<N>(g, lookup@, rel, m, candidates@, q as int, plen, best0, best@);
                lemma_found_next::<N>(g, lookup@, rel, m, candidates@, q as int, plen, rcs@, found@, best@);
            }
            q += 1;
        }
        proof {
            lemma_search_done::<N>(g, st, lookup@, dec, rel, candidates@, m0, m, best0, best@);
            lemma_found_done::<N>(g, st, lookup@, dec, rel, candidates@, m0, m, rcs@, found@, best@);
            lemma_grid_less_irreflexive(best0, N as nat);
            lemma_scan_complete(g, st, dec, candidates@, m0, m);
            assert(search_min::<N>(g, st, lookup@, dec, rel, m, best0, best@));
        }
    }

    /// The least square, in reading order, among this one and those that the table `lookup`
    /// reaches from it by permuting rows, columns and values (the representative of its
    /// isotopy class when the table lists, for each cycle type, the normalisations of a row
    /// pair of that type), with every row, column and value permutation that gives it.
    pub fn isotopy_class_permutations(
        &self,
        lookup: &Vec<Vec<(Permutation<N>, Permutation<N>)>>,
    ) -> (r: (Self, Vec<[Permutation<N>; 3]>))
        requires
            1 <= N <= 16,
        ensures
            r.1@.len() >= 1,
            forall|k: int| 0 <= k < r.1@.len()
                ==> #[trigger] is_isotope(self@, r.1@[k][0]@, r.1@[k][1]@, r.1@[k][2]@, r.0@, N as nat),
            forall|k: int| 0 <= k < r.1@.len() ==> is_perm((#[trigger] r.1@[k])[0]@, N as nat)
                && is_perm(r.1@[k][1]@, N as nat) && is_perm(r.1@[k][2]@, N as nat),
            grid_le(r.0@, self@, N as nat),
            is_isotopy_search_result::<N>(self@, lookup@, r.0@),
            is_isotopy_search_listing::<N>(self@, lookup@, r.0@, r.1@),
    {
        let structures = generate_cycle_structures(N);
        proof {
            lemma_structure_list(structures@, N as nat);
        }
        let rcs = Permutation::<3>::identity();
        let mut best = *self;
        let mut found: Vec<(Permutation<3>, [Permutation<N>; 3])> = Vec::new();
        let identity = [Permutation::<N>::identity(), Permutation::<N>::identity(), Permutation::<N>::identity()];
        proof {
            crate::set_util::lemma_identity_is_perm(N as nat);
            lemma_identity_conjugate(self@, N as nat);
            use_type_invariant(self);
            LatinSquare::<N>::lemma_latin(self);
            assert forall|i: int, j: int| 0 <= i < N && 0 <= j < N implies #[trigger] self@[identity[0]@[i] as int][identity[1]@[j] as int] as int
                == identity[2]@[self@[i][j] as int] as int by {
                assert(self@[i][j] < N);
            }
        }
        found.push((Permutation::<3>::identity(), identity));
        proof {
            assert(found@[0].0@ == identity_seq(3));
            assert(found@[0].1[0]@ == identity[0]@ && found@[0].1[1]@ == identity[1]@ && found@[0].1[2]@ == identity[2]@);
            assert(is_isotope(self@, found@[0].1[0]@, found@[0].1[1]@, found@[0].1[2]@, best@, N as nat));
            assert(is_main_witness(self@, found@[0], best@));
        }
        let mut min_index = last_index(&structures);
        let ghost start = best@;
        self.reduce_by_lookup(self, &rcs, lookup, &structures, &mut min_index, &mut best, &mut found);
        let ghost st = seqs(structures@);
        proof {
            assert(search_step::<N>(self@, seqs(structures@), lookup@, last_position(seqs(structures@)), min_index as int, self@, best@));
            assert(rcs@ == identity_seq(3));
        }
        let mut out: Vec<[Permutation<N>; 3]> = Vec::new();
        let mut k: usize = 0;
        while k < found.len()
            invariant
                k <= found@.len(),
                out@.len() == k,
                forall|m: int| 0 <= m < found@.len() ==> #[trigger] is_main_witness(self@, found@[m], best@),
                forall|m: int| 0 <= m < found@.len() ==> (#[trigger] found@[m]).0@ == identity_seq(3),
                forall|m: int| 0 <= m < k ==> (#[trigger] out@[m])[0]@ == found@[m].1[0]@
                    && out@[m][1]@ == found@[m].1[1]@ && out@[m][2]@ == found@[m].1[2]@,
            decreases found@.len() - k,
        {
            let entry = [found[k].1[0].clone(), found[k].1[1].clone(), found[k].1[2].clone()];
            out.push(entry);
            k += 1;
        }
        proof {
            assert forall|m: int| 0 <= m < out@.len()
                implies #[trigger] is_isotope(self@, out@[m][0]@, out@[m][1]@, out@[m][2]@, best@, N as nat) by {
                assert(is_main_witness(self@, found@[m], best@));
                let e = found@[m];
                let g = choose|g: Seq<Seq<u8>>| is_conjugate(self@, g, N as nat, e.0@)
                    && #[trigger] is_isotope(g, e.1[0]@, e.1[1]@, e.1[2]@, best@, N as nat);
                lemma_identity_conjugate_cells(self@, g, N as nat);
                assert forall|i: int, j: int| 0 <= i < N && 0 <= j < N implies #[trigger] best@[out@[m][0]@[i] as int][out@[m][1]@[j] as int] as int
                    == out@[m][2]@[self@[i][j] as int] as int by {
                    assert(g[i][j] == self@[i][j]);
                }
            }
        }
        proof {
            assert forall|m: int| 0 <= m < out@.len() implies is_perm((#[trigger] out@[m])[0]@, N as nat)
                && is_perm(out@[m][1]@, N as nat) && is_perm(out@[m][2]@, N as nat) by {
                assert(is_main_witness(self@, found@[m], best@));
            }
            let (dec, rel) = choose|dec: Seq<Seq<Seq<Seq<usize>>>>, rel: Seq<Seq<Seq<usize>>>|
                search_valid(self@, st, dec, last_position(st), min_index as int, N as nat)
                && #[trigger] search_min::<N>(self@, st, lookup@, dec, rel, min_index as int, self@, best@)
                && lists_witnesses::<N>(self@, st, lookup@, dec, rel, min_index as int, identity_seq(3), found@, best@);
            let mi = min_index as int;
            assert forall|x: int, y: int, p: int| #[trigger] is_search_target::<N>(st, lookup@, dec, mi, x, y, p)
                && search_image::<N>(self@, lookup@, rel, mi, x, y, p) == best@
                implies exists|k: int| 0 <= k < out@.len() && #[trigger] holds_triple::<N>(out@[k], search_witness::<N>(self@, lookup@, rel, mi, x, y, p)) by {
                let k = choose|k: int| 0 <= k < found@.len() && #[trigger] records::<N>(found@[k], identity_seq(3), search_witness::<N>(self@, lookup@, rel, mi, x, y, p));
                assert(holds_triple::<N>(out@[k], search_witness::<N>(self@, lookup@, rel, mi, x, y, p)));
            }
            assert(is_structure_list(st, N as nat));
            assert(search_min::<N>(self@, st, lookup@, dec, rel, mi, self@, best@));
        }
        (best, out)
    }

    /// The least square, in reading order, among this one and those that the table `lookup`
    /// reaches from its six conjugates by permuting rows, columns and values (the
    /// representative of its main class when the table is complete), with every arrangement
    /// of rows, columns and values and every row, column and value permutation that gives it.
    pub fn main_class_permutations(
        &self,
        lookup: &Vec<Vec<(Permutation<N>, Permutation<N>)>>,
    ) -> (r: (Self, Vec<(Permutation<3>, [Permutation<N>; 3])>))
        requires
            1 <= N <= 16,
        ensures
            r.1@.len() >= 1,
            forall|k: int| 0 <= k < r.1@.len() ==> #[trigger] is_main_witness(self@, r.1@[k], r.0@),
            grid_le(r.0@, self@, N as nat),
            is_main_search_result::<N>(self@, lookup@, false, r.0@),
            is_main_search_listing::<N>(self@, lookup@, r.0@, r.1@),
    {
        let structures = generate_cycle_structures(N);
        proof {
            lemma_structure_list(structures@, N as nat);
        }
        let ghost st = seqs(structures@);
        let ghost mut cs: Seq<Seq<Seq<u8>>> = Seq::empty();
        let ghost mut ms: Seq<int> = seq![last_position(st)];
        let ghost mut bs: Seq<Seq<Seq<u8>>> = seq![self@];
        let ghost mut decs: Seq<Seq<Seq<Seq<Seq<usize>>>>> = Seq::empty();
        let ghost mut rels: Seq<Seq<Seq<Seq<usize>>>> = Seq::empty();
        let mut best = *self;
        let mut found: Vec<(Permutation<3>, [Permutation<N>; 3])> = Vec::new();
        let identity = [Permutation::<N>::identity(), Permutation::<N>::identity(), Permutation::<N>::identity()];
        proof {
            crate::set_util::lemma_identity_is_perm(N as nat);
            lemma_identity_conjugate(self@, N as nat);
            use_type_invariant(self);
            LatinSquare::<N>::lemma_latin(self);
            assert forall|i: int, j: int| 0 <= i < N && 0 <= j < N implies #[trigger] self@[identity[0]@[i] as int][identity[1]@[j] as int] as int
                == identity[2]@[self@[i][j] as int] as int by {
                assert(self@[i][j] < N);
            }
        }
        found.push((Permutation::<3>::identity(), identity));
        proof {
            assert(found@[0].0@ == identity_seq(3));
            assert(found@[0].1[0]@ == identity[0]@ && found@[0].1[1]@ == identity[1]@ && found@[0].1[2]@ == identity[2]@);
            assert(is_isotope(self@, found@[0].1[0]@, found@[0].1[1]@, found@[0].1[2]@, best@, N as nat));
            assert(is_main_witness(self@, found@[0], best@));
            reveal_with_fuel(fact, 4);
        }
        let mut arrangements = PermutationIter::<3>::new();
        loop
            invariant_except_break
                arrangements.current() == arrangement_after((6 - arrangements.remaining()) as nat),
                arrangements.remaining() <= 6,
                main_search_chain::<N>(self@, st, lookup@, false, cs, ms, bs, 6 - arrangements.remaining()),
                bs[6 - arrangements.remaining()] == best@,
                main_chain_listed::<N>(self@, st, lookup@, cs, ms, bs, decs, rels, 6 - arrangements.remaining(), found@, best@),
            invariant
                1 <= N <= 16,
                forall|k: int| 0 <= k < found@.len() ==> #[trigger] is_main_witness(self@, found@[k], best@),
                found@.len() >= 1,
                grid_le(best@, self@, N as nat),
                st == seqs(structures@),
            ensures
                main_search_chain::<N>(self@, st, lookup@, false, cs, ms, bs, 6),
                bs[6] == best@,
                main_chain_listed::<N>(self@, st, lookup@, cs, ms, bs, decs, rels, 6, found@, best@),
            decreases arrangements.remaining(),
        {
            let ghost j = 6 - arrangements.remaining();
            match arrangements.next() {
                None => {
                    break;
                },
                Some(rcs) => {
                    let sq = self.permuted_rcs(&rcs);
                    let mut min_index = last_index(&structures);
                    let ghost b0 = best@;
                    let ghost f0 = found@;
                    self.reduce_by_lookup(&sq, &rcs, lookup, &structures, &mut min_index, &mut best, &mut found);
                    proof {
                        assert(rcs@ == arrangement_after((j + 1) as nat));
                        assert(step_start(false, ms, st, j) == last_position(st));
                        let (dec, rel) = choose|dec: Seq<Seq<Seq<Seq<usize>>>>, rel: Seq<Seq<Seq<usize>>>|
                            search_valid(sq@, st, dec, last_position(st), min_index as int, N as nat)
                            && #[trigger] search_min::<N>(sq@, st, lookup@, dec, rel, min_index as int, b0, best@)
                            && lists_witnesses::<N>(sq@, st, lookup@, dec, rel, min_index as int, rcs@, found@, best@);
                        lemma_listed_push::<N>(self@, st, lookup@, cs, ms, bs, decs, rels, j, f0, found@, sq@, min_index as int, best@, dec, rel);
                        decs = decs.push(dec);
                        rels = rels.push(rel);
                        lemma_chain_push::<N>(self@, st, lookup@, false, cs, ms, bs, j, sq@, min_index as int, best@);
                        cs = cs.push(sq@);
                        ms = ms.push(min_index as int);
                        bs = bs.push(best@);
                    }
                },
            }
        }
        proof {
            assert(main_chain_listed::<N>(self@, st, lookup@, cs, ms, bs, decs, rels, 6, found@, best@) && bs[6] == best@);
        }
        (best, found)
    }
}

impl<const N: usize> LatinSquare<N> {
    /// The least square, in reading order, among this one and those that the table `lookup`
    /// reaches from it by permuting rows, columns and values: its isotopy-class
    /// representative when the table is complete.
    pub fn isotopy_class_lookup(&self, lookup: &Vec<Vec<(Permutation<N>, Permutation<N>)>>) -> (r: Self)
        requires
            1 <= N <= 16,
        ensures
            exists|p: Seq<usize>, c: Seq<usize>, s: Seq<usize>| #[trigger] is_isotope(self@, p, c, s, r@, N as nat)
                && is_perm(p, N as nat) && is_perm(c, N as nat) && is_perm(s, N as nat),
            grid_le(r@, self@, N as nat),
            is_isotopy_search_result::<N>(self@, lookup@, r@),
    {
        let (best, perms) = self.isotopy_class_permutations(lookup);
        proof {
            let e = perms@[0];
            assert(is_isotope(self@, e[0]@, e[1]@, e[2]@, best@, N as nat));
            assert(is_perm(e[0]@, N as nat) && is_perm(e[1]@, N as nat) && is_perm(e[2]@, N as nat));
        }
        best
    }

    /// The least square, in reading order, among this one and those that the table `lookup`
    /// reaches from its six conjugates by permuting rows, columns and values, the least
    /// cycle type of a row pair being kept from one conjugate to the next: its main-class
    /// representative when the table is complete.
    pub fn main_class_lookup(&self, lookup: &Vec<Vec<(Permutation<N>, Permutation<N>)>>) -> (r: Self)
        requires
            1 <= N <= 16,
        ensures
            exists|e: (Permutation<3>, [Permutation<N>; 3])| #[trigger] is_main_witness(self@, e, r@),
            grid_le(r@, self@, N as nat),
            is_main_search_result::<N>(self@, lookup@, true, r@),
    {
        let structures = generate_cycle_structures(N);
        proof {
            lemma_structure_list(structures@, N as nat);
        }
        let ghost st = seqs(structures@);
        let ghost mut cs: Seq<Seq<Seq<u8>>> = Seq::empty();
        let ghost mut ms: Seq<int> = seq![last_position(st)];
        let ghost mut bs: Seq<Seq<Seq<u8>>> = seq![self@];
        let mut best = *self;
        let mut found: Vec<(Permutation<3>, [Permutation<N>; 3])> = Vec::new();
        let identity = [Permutation::<N>::identity(), Permutation::<N>::identity(), Permutation::<N>::identity()];
        proof {
            crate::set_util::lemma_identity_is_perm(N as nat);
            lemma_identity_conjugate(self@, N as nat);
            use_type_invariant(self);
            LatinSquare::<N>::lemma_latin(self);
            assert forall|i: int, j: int| 0 <= i < N && 0 <= j < N implies #[trigger] self@[identity[0]@[i] as int][identity[1]@[j] as int] as int
                == identity[2]@[self@[i][j] as int] as int by {
                assert(self@[i][j] < N);
            }
        }
        found.push((Permutation::<3>::identity(), identity));
        proof {
            assert(found@[0].0@ == identity_seq(3));
            assert(found@[0].1[0]@ == identity[0]@ && found@[0].1[1]@ == identity[1]@ && found@[0].1[2]@ == identity[2]@);
            assert(is_isotope(self@, found@[0].1[0]@, found@[0].1[1]@, found@[0].1[2]@, best@, N as nat));
            assert(is_main_witness(self@, found@[0], best@));
            reveal_with_fuel(fact, 4);
        }
        let mut min_index = last_index(&structures);
        let mut arrangements = PermutationIter::<3>::new();
        loop
            invariant_except_break
                arrangements.current() == arrangement_after((6 - arrangements.remaining()) as nat),
                arrangements.remaining() <= 6,
                main_search_chain::<N>(self@, st, lookup@, true, cs, ms, bs, 6 - arrangements.remaining()),
                bs[6 - arrangements.remaining()] == best@,
                ms[6 - arrangements.remaining()] == min_index,
            invariant
                1 <= N <= 16,
                forall|k: int| 0 <= k < found@.len() ==> #[trigger] is_main_witness(self@, found@[k], best@),
                found@.len() >= 1,
                grid_le(best@, self@, N as nat),
                st == seqs(structures@),
            ensures
                main_search_chain::<N>(self@, st, lookup@, true, cs, ms, bs, 6),
                bs[6] == best@,
            decreases arrangements.remaining(),
        {
            let ghost j = 6 - arrangements.remaining();
            match arrangements.next() {
                None => {
                    break;
                },
                Some(rcs) => {
                    let sq = self.permuted_rcs(&rcs);
                    let ghost m_before = min_index as int;
                    self.reduce_by_lookup(&sq, &rcs, lookup, &structures, &mut min_index, &mut best, &mut found);
                    proof {
                        assert(rcs@ == arrangement_after((j + 1) as nat));
                        assert(step_start(true, ms, st, j) == m_before);
                        lemma_chain_push::<N>(self@, st, lookup@, true, cs, ms, bs, j, sq@, min_index as int, best@);
                        cs = cs.push(sq@);
                        ms = ms.push(min_index as int);
                        bs = bs.push(best@);
                    }
                },
            }
        }
        proof {
            assert(is_main_witness(self@, found@[0], best@));
        }
        best
    }
}

/// How many different values the sequence holds.
pub open spec fn distinct_count(s: Seq<Seq<Seq<u8>>>) -> nat
    decreases s.len(),
{
    if s.len() == 0 {
        0
    } else {
        distinct_count(s.drop_last()) + if s.drop_last().contains(s.last()) { 0nat } else { 1nat }
    }
}

impl<const N: usize> LatinSquare<N> {
    /// How many different squares the isotopy search by the table `lookup` gives for the
    /// six conjugates of this square: the number of isotopy classes in its main class when
    /// the table is complete.
    pub fn num_isotopy_classes(&self, lookup: &Vec<Vec<(Permutation<N>, Permutation<N>)>>) -> (r: usize)
        requires
            1 <= N <= 16,
        ensures
            exists|cs: Seq<Seq<Seq<u8>>>, reps: Seq<Seq<Seq<u8>>>| {
                &&& cs.len() == 6
                &&& reps.len() == 6
                &&& r == distinct_count(reps)
                &&& forall|k: int| 0 <= k < 6 ==> is_conjugate(self@, cs[k], N as nat, arrangement_after((k + 1) as nat))
                    && #[trigger] is_isotopy_search_result::<N>(cs[k], lookup@, reps[k])
            },
    {
        let mut reps: Vec<LatinSquare<N>> = Vec::new();
        let ghost mut cs: Seq<Seq<Seq<u8>>> = Seq::empty();
        proof {
            reveal_with_fuel(fact, 4);
        }
        let mut arrangements = PermutationIter::<3>::new();
        loop
            invariant_except_break
                reps@.len() + arrangements.remaining() == 6,
                arrangements.current() == arrangement_after(reps@.len()),
            invariant
                1 <= N <= 16,
                cs.len() == reps@.len(),
                forall|k: int| #![trigger cs[k]] 0 <= k < reps@.len() ==> is_conjugate(self@, cs[k], N as nat, arrangement_after((k + 1) as nat))
                    && is_isotopy_search_result::<N>(cs[k], lookup@, reps@[k]@),
            ensures
                reps@.len() == 6,
            decreases arrangements.remaining(),
        {
            let ghost left = arrangements.remaining();
            match arrangements.next() {
                None => {
                    proof {
                        assert(left == 0);
                    }
                    break;
                },
                Some(rcs) => {
                    let conjugate = self.permuted_rcs(&rcs);
                    let rep = conjugate.isotopy_class_lookup(lookup);
                    let ghost before = reps@;
                    let ghost cs_before = cs;
                    let ghost rv = rep@;
                    reps.push(rep);
                    proof {
                        assert(rcs@ == arrangement_after((before.len() + 1) as nat));
                        assert(is_conjugate(self@, conjugate@, N as nat, rcs@));
                        cs = cs.push(conjugate@);
                        assert forall|k: int| #![trigger cs[k]] 0 <= k < reps@.len() implies is_conjugate(self@, cs[k], N as nat, arrangement_after((k + 1) as nat))
                            && is_isotopy_search_result::<N>(cs[k], lookup@, reps@[k]@) by {
                            if k < before.len() {
                                assert(reps@[k] == before[k]);
                                assert(cs[k] == cs_before[k]);
                                assert(is_isotopy_search_result::<N>(cs_before[k], lookup@, before[k]@));
                            } else {
                                assert(reps@[k]@ == rv);
                                assert(cs[k] == conjugate@);
                            }
                        }
                    }
                },
            }
        }
        let ghost views = reps@.map_values(|q: LatinSquare<N>| q@);
        let mut count: usize = 0;
        let mut k: usize = 0;
        while k < reps.len()
            invariant
                k <= reps@.len() == 6,
                views == reps@.map_values(|q: LatinSquare<N>| q@),
                count == distinct_count(views.take(k as int)),
                count <= k,
            decreases reps@.len() - k,
        {
            let mut seen = false;
            let mut j: usize = 0;
            while j < k
                invariant
                    j <= k < reps@.len(),
                    views == reps@.map_values(|q: LatinSquare<N>| q@),
                    seen == exists|m: int| 0 <= m < j && views[m] == views[k as int],
                decreases k - j,
            {
                let order = reps[j].compare(&reps[k]);
                proof {
                    assert(views[j as int] == reps@[j as int]@);
                    assert(views[k as int] == reps@[k as int]@);
                    if order != 0 {
                        if order == -1 {
                            let (a, b) = choose|a: int, b: int| 0 <= a < N && 0 <= b < N
                                && grids_agree_before(reps@[j as int]@, reps@[k as int]@, N as nat, a, b)
                                && #[trigger] reps@[j as int]@[a][b] < #[trigger] reps@[k as int]@[a][b];
                            assert(views[j as int] != views[k as int]);
                        } else {
                            let (a, b) = choose|a: int, b: int| 0 <= a < N && 0 <= b < N
                                && grids_agree_before(reps@[k as int]@, reps@[j as int]@, N as nat, a, b)
                                && #[trigger] reps@[k as int]@[a][b] < #[trigger] reps@[j as int]@[a][b];
                            assert(views[j as int] != views[k as int]);
                        }
                    }
                }
                if order == 0 {
                    seen = true;
                }
                j += 1;
            }
            proof {
                assert(views.take(k + 1).drop_last() =~= views.take(k as int));
                assert(views.take(k + 1).last() == views[k as int]);
                assert(views.take(k as int).contains(views[k as int]) == seen) by {
                    if seen {
                        let m = choose|m: int| 0 <= m < k && views[m] == views[k as int];
                        assert(views.take(k as int)[m] == views[k as int]);
                    }
                    if views.take(k as int).contains(views[k as int]) {
                        let m = choose|m: int| 0 <= m < k && views.take(k as int)[m] == views[k as int];
                        assert(views[m] == views[k as int]);
                    }
                }
            }
            if !seen {
                count += 1;
            }
            k += 1;
        }
        proof {
            assert(views.take(6) =~= views);
            assert(count == distinct_count(views));
            assert(views.len() == 6);
            assert forall|q: int| 0 <= q < 6 implies is_conjugate(self@, cs[q], N as nat, arrangement_after((q + 1) as nat))
                && #[trigger] is_isotopy_search_result::<N>(cs[q], lookup@, views[q]) by {
                assert(views[q] == reps@[q]@);
                assert(is_isotopy_search_result::<N>(cs[q], lookup@, reps@[q]@));
            }
        }
        count
    }
}

} // verus!
