//! Subsquares of a Latin square: k rows and k columns whose k * k cells hold only k values.
use vstd::prelude::*;
use crate::latin_square::{LatinSquare, lemma_index_of_cell};
use crate::latin_square_dyn::LatinSquareDyn;
use crate::latin_square_trait::PartialLatinSquareTrait;
use crate::cycles::{lex_lt, strictly_sorted, seqs, lemma_lex_trichotomy};
use crate::tuple_iterator::is_tuple;
use crate::transversal::lemma_lex_lt_at;
use crate::bitset::{BitSet16, BitSet128};

verus! {

/// `t` is one of the increasing k-tuples of 0..n.
pub open spec fn is_k_tuple(t: Seq<usize>, n: nat, k: nat) -> bool {
    t.len() == k && is_tuple(t, n)
}

/// Appends, in lexicographic order, every increasing k-tuple of 0..n that begins with `prefix`.
fn extend_tuples(n: usize, k: usize, prefix: Vec<usize>, out: &mut Vec<Vec<usize>>)
    requires
        prefix@.len() <= k,
        is_tuple(prefix@, n as nat),
    ensures
        final(out)@.len() >= old(out)@.len(),
        final(out)@.take(old(out)@.len() as int) == old(out)@,
        strictly_sorted(seqs(final(out)@).skip(old(out)@.len() as int)),
        forall|m: int| old(out)@.len() <= m < final(out)@.len() ==> is_k_tuple(#[trigger] final(out)@[m]@, n as nat, k as nat)
            && final(out)@[m]@.take(prefix@.len() as int) == prefix@,
        forall|t: Seq<usize>| is_k_tuple(t, n as nat, k as nat) && #[trigger] t.take(prefix@.len() as int) == prefix@
            ==> seqs(final(out)@).skip(old(out)@.len() as int).contains(t),
    decreases k - prefix@.len(),
{
    let ghost start = out@.len() as int;
    let len = prefix.len();
    if len == k {
        let ghost p = prefix@;
        out.push(prefix);
        proof {
            assert(seqs(out@).skip(start) =~= seq![p]);
            assert(p.take(k as int) =~= p);
            assert forall|t: Seq<usize>| is_k_tuple(t, n as nat, k as nat) && #[trigger] t.take(k as int) == p
                implies seqs(out@).skip(start).contains(t) by {
                assert(t =~= t.take(k as int));
                assert(seqs(out@).skip(start)[0] == t);
            }
            assert(out@.take(start) =~= old(out)@);
        }
        return;
    }
    let first: usize = if len == 0 { 0 } else { prefix[len - 1] + 1 };
    let mut v: usize = first;
    proof {
        assert forall|t: Seq<usize>| is_k_tuple(t, n as nat, k as nat) && #[trigger] t.take(len as int) == prefix@
            implies t[len as int] >= first by {
            if len > 0 {
                assert(t[len - 1] == t.take(len as int)[len - 1]);
                assert(t[len - 1] < t[len as int]);
            }
        }
    }
    while v < n
        invariant
            len == prefix@.len() < k,
            first <= v,
            v <= n || first > n,
            first == (if len == 0 { 0 } else { prefix@[len - 1] + 1 }),
            start == old(out)@.len(),
            is_tuple(prefix@, n as nat),
            forall|t: Seq<usize>| is_k_tuple(t, n as nat, k as nat) && #[trigger] t.take(len as int) == prefix@
                ==> t[len as int] >= first,
            out@.len() >= start,
            out@.take(start) == old(out)@,
            strictly_sorted(seqs(out@).skip(start)),
            forall|m: int| start <= m < out@.len() ==> is_k_tuple(#[trigger] out@[m]@, n as nat, k as nat)
                && out@[m]@.take(len as int) == prefix@ && out@[m]@[len as int] < v,
            forall|t: Seq<usize>| is_k_tuple(t, n as nat, k as nat) && #[trigger] t.take(len as int) == prefix@ && t[len as int] < v
                ==> seqs(out@).skip(start).contains(t),
        decreases n - v,
    {
        let mut next = prefix.clone();
        next.push(v);
        let ghost before = out@;
        let ghost np = next@;
        proof {
            assert(np =~= prefix@.push(v));
            assert forall|i: int, j: int| 0 <= i < j < np.len() implies #[trigger] np[i] < #[trigger] np[j] by {
                if j == len {
                    assert(np[i] == prefix@[i]);
                    if i < len - 1 {
                        assert(prefix@[i] < prefix@[len - 1]);
                    }
                }
            }
        }
        extend_tuples(n, k, next, out);
        proof {
            let old_block = seqs(before).skip(start);
            let block = seqs(out@).skip(before.len() as int);
            let all = seqs(out@).skip(start);
            assert(out@.take(before.len() as int) == before);
            assert(all =~= old_block + block) by {
                assert forall|m: int| 0 <= m < all.len() implies all[m] == (old_block + block)[m] by {
                    if m < old_block.len() {
                        assert(out@.take(before.len() as int)[start + m] == before[start + m]);
                    }
                }
            }
            assert(out@.take(start) =~= old(out)@) by {
                assert forall|m: int| 0 <= m < start implies out@.take(start)[m] == old(out)@[m] by {
                    assert(out@.take(before.len() as int)[m] == before[m]);
                    assert(before.take(start)[m] == old(out)@[m]);
                }
            }
            assert forall|m: int| start <= m < out@.len() implies is_k_tuple(#[trigger] out@[m]@, n as nat, k as nat)
                && out@[m]@.take(len as int) == prefix@ && out@[m]@[len as int] < v + 1 by {
                if m < before.len() {
                    assert(out@.take(before.len() as int)[m] == before[m]);
                } else {
                    assert(out@[m]@.take(len as int + 1) == np);
                    assert(out@[m]@.take(len as int) =~= np.take(len as int));
                    assert(np.take(len as int) =~= prefix@);
                    assert(out@[m]@.take(len as int + 1)[len as int] == np[len as int]);
                }
            }
            assert forall|a: int, b: int| 0 <= a < b < all.len() implies lex_lt(#[trigger] all[a], #[trigger] all[b]) by {
                if b < old_block.len() {
                    assert(all[a] == old_block[a] && all[b] == old_block[b]);
                } else if a >= old_block.len() {
                    assert(all[a] == block[a - old_block.len()] && all[b] == block[b - old_block.len()]);
                } else {
                    assert(all[a] == out@[start + a]@);
                    assert(all[b] == out@[start + b]@);
                    let x = all[a];
                    let y = all[b];
                    assert(x.take(len as int) == prefix@);
                    assert(out@[start + b]@.take(len as int + 1) == np);
                    assert(y.take(len as int) =~= np.take(len as int));
                    assert(np.take(len as int) =~= prefix@);
                    assert(y.take(len as int + 1)[len as int] == np[len as int]);
                    lemma_lex_lt_at(x, y, len as int);
                }
            }
            assert forall|t: Seq<usize>| is_k_tuple(t, n as nat, k as nat) && #[trigger] t.take(len as int) == prefix@ && t[len as int] < v + 1
                implies all.contains(t) by {
                if t[len as int] < v {
                    assert(old_block.contains(t));
                    let m = choose|m: int| 0 <= m < old_block.len() && old_block[m] == t;
                    assert(all[m] == t);
                } else {
                    assert(t.take(len as int + 1) =~= np) by {
                        assert forall|q: int| 0 <= q < len + 1 implies t.take(len as int + 1)[q] == np[q] by {
                            if q < len {
                                assert(t.take(len as int)[q] == prefix@[q]);
                            }
                        }
                    }
                    assert(block.contains(t));
                    let m = choose|m: int| 0 <= m < block.len() && block[m] == t;
                    assert(all[old_block.len() + m] == t);
                }
            }
        }
        v += 1;
    }
    proof {
        assert forall|t: Seq<usize>| is_k_tuple(t, n as nat, k as nat) && #[trigger] t.take(len as int) == prefix@
            implies seqs(out@).skip(start).contains(t) by {
            assert(t[len as int] < n);
        }
        if first > n {
            assert(out@.len() == start) by {
                if out@.len() > start {
                    assert(out@[start]@[len as int] < v);
                }
            }
        }
    }
}

/// The increasing k-tuples of 0..n in lexicographic order.
pub fn k_tuples(n: usize, k: usize) -> (r: Vec<Vec<usize>>)
    ensures
        strictly_sorted(seqs(r@)),
        forall|m: int| 0 <= m < r@.len() ==> is_k_tuple(#[trigger] r@[m]@, n as nat, k as nat),
        forall|t: Seq<usize>| #[trigger] is_k_tuple(t, n as nat, k as nat) ==> seqs(r@).contains(t),
{
    let mut out: Vec<Vec<usize>> = Vec::new();
    let prefix: Vec<usize> = Vec::new();
    extend_tuples(n, k, prefix, &mut out);
    proof {
        assert(seqs(out@).skip(0) =~= seqs(out@));
        assert forall|t: Seq<usize>| #[trigger] is_k_tuple(t, n as nat, k as nat) implies seqs(out@).contains(t) by {
            assert(t.take(0) =~= prefix@);
        }
    }
    out
}

/// The value in row a and column b of the subgrid on `rows` and `cols`.
pub open spec fn sub_cell(s: Seq<Seq<u8>>, rows: Seq<usize>, cols: Seq<usize>, a: int, b: int) -> int {
    s[rows[a] as int][cols[b] as int] as int
}

/// The values in row a of the subgrid.
pub open spec fn sub_row_values(s: Seq<Seq<u8>>, rows: Seq<usize>, cols: Seq<usize>, a: int) -> Set<int> {
    Set::new(|v: int| exists|b: int| 0 <= b < cols.len() && #[trigger] sub_cell(s, rows, cols, a, b) == v)
}

/// The values in column b of the subgrid.
pub open spec fn sub_col_values(s: Seq<Seq<u8>>, rows: Seq<usize>, cols: Seq<usize>, b: int) -> Set<int> {
    Set::new(|v: int| exists|a: int| 0 <= a < rows.len() && #[trigger] sub_cell(s, rows, cols, a, b) == v)
}

/// Every row and every column of the subgrid holds the values of its first row.
pub open spec fn is_subsquare(s: Seq<Seq<u8>>, rows: Seq<usize>, cols: Seq<usize>) -> bool {
    &&& forall|a: int| 0 <= a < rows.len() ==> #[trigger] sub_row_values(s, rows, cols, a) == sub_row_values(s, rows, cols, 0)
    &&& forall|b: int| 0 <= b < cols.len() ==> #[trigger] sub_col_values(s, rows, cols, b) == sub_row_values(s, rows, cols, 0)
}

/// The pairs of k-tuples of rows and columns that carry a subsquare.
pub open spec fn subsquare_pairs(s: Seq<Seq<u8>>, n: nat, k: nat) -> Set<(Seq<usize>, Seq<usize>)> {
    Set::new(|p: (Seq<usize>, Seq<usize>)| is_k_tuple(p.0, n, k) && is_k_tuple(p.1, n, k) && is_subsquare(s, p.0, p.1))
}

/// The cells row * n + col of the subgrid on `p.0` and `p.1`.
pub open spec fn subsquare_cells(n: nat, p: (Seq<usize>, Seq<usize>)) -> Set<int> {
    Set::new(|x: int| exists|a: int, b: int| 0 <= a < p.0.len() && 0 <= b < p.1.len() && x == #[trigger] p.0[a] * n + #[trigger] p.1[b])
}

/// `p` comes before `q`: by rows first, then by columns.
pub open spec fn pair_lt(p: (Seq<usize>, Seq<usize>), q: (Seq<usize>, Seq<usize>)) -> bool {
    lex_lt(p.0, q.0) || (p.0 == q.0 && lex_lt(p.1, q.1))
}

impl<const N: usize> LatinSquare<N> {
    /// The values in row a (or, with `by_col`, column a) of the subgrid.
    fn sub_line_values(&self, rows: &Vec<usize>, cols: &Vec<usize>, a: usize, by_col: bool) -> (r: BitSet16)
        requires
            N < 16,
            rows@.len() == cols@.len(),
            a < rows@.len(),
            forall|i: int| 0 <= i < rows@.len() ==> #[trigger] rows@[i] < N,
            forall|i: int| 0 <= i < cols@.len() ==> #[trigger] cols@[i] < N,
        ensures
            !by_col ==> r@ == sub_row_values(self@, rows@, cols@, a as int),
            by_col ==> r@ == sub_col_values(self@, rows@, cols@, a as int),
    {
        let mut set = BitSet16::empty();
        let mut b: usize = 0;
        while b < rows.len()
            invariant
                N < 16,
                rows@.len() == cols@.len(),
                a < rows@.len(),
                b <= rows@.len(),
                forall|i: int| 0 <= i < rows@.len() ==> #[trigger] rows@[i] < N,
                forall|i: int| 0 <= i < cols@.len() ==> #[trigger] cols@[i] < N,
                !by_col ==> set@ == Set::new(|v: int| exists|c: int| 0 <= c < b && #[trigger] sub_cell(self@, rows@, cols@, a as int, c) == v),
                by_col ==> set@ == Set::new(|v: int| exists|c: int| 0 <= c < b && #[trigger] sub_cell(self@, rows@, cols@, c, a as int) == v),
            decreases rows@.len() - b,
        {
            let value = if by_col { self.get(rows[b], cols[a]) } else { self.get(rows[a], cols[b]) };
            let ghost before = set@;
            set.insert(value);
            proof {
                if by_col {
                    assert(set@ =~= Set::new(|v: int| exists|c: int| 0 <= c < b + 1 && #[trigger] sub_cell(self@, rows@, cols@, c, a as int) == v)) by {
                        assert(sub_cell(self@, rows@, cols@, b as int, a as int) == value);
                    }
                } else {
                    assert(set@ =~= Set::new(|v: int| exists|c: int| 0 <= c < b + 1 && #[trigger] sub_cell(self@, rows@, cols@, a as int, c) == v)) by {
                        assert(sub_cell(self@, rows@, cols@, a as int, b as int) == value);
                    }
                }
            }
            b += 1;
        }
        proof {
            if by_col {
                assert(set@ =~= sub_col_values(self@, rows@, cols@, a as int));
            } else {
                assert(set@ =~= sub_row_values(self@, rows@, cols@, a as int));
            }
        }
        set
    }

    /// Whether the rows and columns carry a subsquare.
    fn carries_subsquare(&self, rows: &Vec<usize>, cols: &Vec<usize>) -> (r: bool)
        requires
            N < 16,
            rows@.len() == cols@.len(),
            rows@.len() >= 1,
            forall|i: int| 0 <= i < rows@.len() ==> #[trigger] rows@[i] < N,
            forall|i: int| 0 <= i < cols@.len() ==> #[trigger] cols@[i] < N,
        ensures
            r == is_subsquare(self@, rows@, cols@),
    {
        let first = self.sub_line_values(rows, cols, 0, false);
        let mut a: usize = 0;
        while a < rows.len()
            invariant
                N < 16,
                rows@.len() == cols@.len(),
                a <= rows@.len(),
                first@ == sub_row_values(self@, rows@, cols@, 0),
                forall|i: int| 0 <= i < rows@.len() ==> #[trigger] rows@[i] < N,
                forall|i: int| 0 <= i < cols@.len() ==> #[trigger] cols@[i] < N,
                forall|c: int| 0 <= c < a ==> #[trigger] sub_row_values(self@, rows@, cols@, c) == first@,
                forall|c: int| 0 <= c < a ==> #[trigger] sub_col_values(self@, rows@, cols@, c) == first@,
            decreases rows@.len() - a,
        {
            let row = self.sub_line_values(rows, cols, a, false);
            let col = self.sub_line_values(rows, cols, a, true);
            proof {
                BitSet16::lemma_eq_iff_view(row, first);
                BitSet16::lemma_eq_iff_view(col, first);
            }
            if row != first || col != first {
                return false;
            }
            a += 1;
        }
        true
    }

    /// The subsquares of order k as sets of cells, by rows and then by columns in
    /// lexicographic order.
    pub fn subsquares_bitset(&self, k: usize) -> (r: Vec<BitSet128>)
        requires
            1 <= k <= N,
            N < 16,
            N * N <= 128,
        ensures
            exists|ps: Seq<(Seq<usize>, Seq<usize>)>| {
                &&& forall|a: int, b: int| 0 <= a < b < ps.len() ==> #[trigger] pair_lt(ps[a], ps[b])
                &&& ps.to_set() == subsquare_pairs(self@, N as nat, k as nat)
                &&& r@.len() == ps.len()
                &&& forall|m: int| 0 <= m < ps.len() ==> #[trigger] r@[m]@ == subsquare_cells(N as nat, ps[m])
            },
    {
        let ts = k_tuples(N, k);
        let ghost tl = seqs(ts@);
        let mut r: Vec<BitSet128> = Vec::new();
        let ghost mut ps: Seq<(Seq<usize>, Seq<usize>)> = Seq::empty();
        let ghost mut pi: Seq<(int, int)> = Seq::empty();
        let mut i: usize = 0;
        while i < ts.len()
            invariant
                1 <= k <= N < 16,
                N * N <= 128,
                i <= ts@.len(),
                tl == seqs(ts@),
                strictly_sorted(tl),
                forall|m: int| 0 <= m < ts@.len() ==> is_k_tuple(#[trigger] ts@[m]@, N as nat, k as nat),
                forall|t: Seq<usize>| #[trigger] is_k_tuple(t, N as nat, k as nat) ==> tl.contains(t),
                r@.len() == ps.len() == pi.len(),
                forall|m: int| 0 <= m < ps.len() ==> #[trigger] r@[m]@ == subsquare_cells(N as nat, ps[m]),
                forall|m: int| 0 <= m < ps.len() ==> #[trigger] ps[m] == (tl[pi[m].0], tl[pi[m].1]),
                forall|m: int| 0 <= m < pi.len() ==> 0 <= #[trigger] pi[m].0 < i && 0 <= pi[m].1 < tl.len(),
                forall|a: int, b: int| 0 <= a < b < ps.len() ==> #[trigger] pi[a].0 < #[trigger] pi[b].0
                    || (pi[a].0 == pi[b].0 && pi[a].1 < pi[b].1),
                forall|m: int| 0 <= m < ps.len() ==> #[trigger] subsquare_pairs(self@, N as nat, k as nat).contains(ps[m]),
                forall|x: int, y: int| 0 <= x < i && 0 <= y < tl.len() && #[trigger] is_subsquare(self@, tl[x], tl[y])
                    ==> ps.contains((tl[x], tl[y])),
            decreases ts@.len() - i,
        {
            let mut j: usize = 0;
            while j < ts.len()
                invariant
                    1 <= k <= N < 16,
                    N * N <= 128,
                    i < ts@.len(),
                    j <= ts@.len(),
                    tl == seqs(ts@),
                    strictly_sorted(tl),
                    forall|m: int| 0 <= m < ts@.len() ==> is_k_tuple(#[trigger] ts@[m]@, N as nat, k as nat),
                    r@.len() == ps.len() == pi.len(),
                    forall|m: int| 0 <= m < ps.len() ==> #[trigger] r@[m]@ == subsquare_cells(N as nat, ps[m]),
                    forall|m: int| 0 <= m < ps.len() ==> #[trigger] ps[m] == (tl[pi[m].0], tl[pi[m].1]),
                    forall|m: int| 0 <= m < pi.len() ==> 0 <= #[trigger] pi[m].0 <= i && 0 <= pi[m].1 < tl.len()
                        && (pi[m].0 == i ==> pi[m].1 < j),
                    forall|a: int, b: int| 0 <= a < b < ps.len() ==> #[trigger] pi[a].0 < #[trigger] pi[b].0
                        || (pi[a].0 == pi[b].0 && pi[a].1 < pi[b].1),
                    forall|m: int| 0 <= m < ps.len() ==> #[trigger] subsquare_pairs(self@, N as nat, k as nat).contains(ps[m]),
                    forall|x: int, y: int| 0 <= x < i && 0 <= y < tl.len() && #[trigger] is_subsquare(self@, tl[x], tl[y])
                        ==> ps.contains((tl[x], tl[y])),
                    forall|y: int| 0 <= y < j && #[trigger] is_subsquare(self@, tl[i as int], tl[y])
                        ==> ps.contains((tl[i as int], tl[y])),
                decreases ts@.len() - j,
            {
                let rows = &ts[i];
                let cols = &ts[j];
                proof {
                    assert(is_k_tuple(ts@[i as int]@, N as nat, k as nat));
                    assert(is_k_tuple(ts@[j as int]@, N as nat, k as nat));
                    assert(tl[i as int] == rows@ && tl[j as int] == cols@);
                }
                if self.carries_subsquare(rows, cols) {
                    let mut set = BitSet128::empty();
                    let mut a: usize = 0;
                    while a < k
                        invariant
                            a <= k <= N,
                            N * N <= 128,
                            rows@.len() == k && cols@.len() == k,
                            forall|q: int| 0 <= q < k ==> #[trigger] rows@[q] < N,
                            forall|q: int| 0 <= q < k ==> #[trigger] cols@[q] < N,
                            set@ == Set::new(|x: int| exists|a2: int, b2: int| 0 <= a2 < a && 0 <= b2 < k && x == #[trigger] rows@[a2] * N + #[trigger] cols@[b2]),
                        decreases k - a,
                    {
                        let mut b: usize = 0;
                        while b < k
                            invariant
                                a < k <= N,
                                b <= k,
                                N * N <= 128,
                                rows@.len() == k && cols@.len() == k,
                                forall|q: int| 0 <= q < k ==> #[trigger] rows@[q] < N,
                                forall|q: int| 0 <= q < k ==> #[trigger] cols@[q] < N,
                                set@ == Set::new(|x: int| exists|a2: int, b2: int| 0 <= a2 < k && 0 <= b2 < k
                                    && (a2 < a || (a2 == a && b2 < b)) && x == #[trigger] rows@[a2] * N + #[trigger] cols@[b2]),
                            decreases k - b,
                        {
                            proof {
                                lemma_index_of_cell(rows@[a as int] as int, cols@[b as int] as int, N as int);
                            }
                            let ghost before = set@;
                            set.insert(rows[a] * N + cols[b]);
                            proof {
                                assert(set@ =~= Set::new(|x: int| exists|a2: int, b2: int| 0 <= a2 < k && 0 <= b2 < k
                                    && (a2 < a || (a2 == a && b2 < b + 1)) && x == #[trigger] rows@[a2] * N + #[trigger] cols@[b2])) by {
                                    assert forall|x: int| (exists|a2: int, b2: int| 0 <= a2 < k && 0 <= b2 < k
                                        && (a2 < a || (a2 == a && b2 < b + 1)) && x == #[trigger] rows@[a2] * N + #[trigger] cols@[b2])
                                        implies set@.contains(x) by {
                                        let (a2, b2) = choose|a2: int, b2: int| 0 <= a2 < k && 0 <= b2 < k
                                            && (a2 < a || (a2 == a && b2 < b + 1)) && x == #[trigger] rows@[a2] * N + #[trigger] cols@[b2];
                                        if !(a2 == a && b2 == b) {
                                            assert(before.contains(x));
                                        }
                                    }
                                }
                            }
                            b += 1;
                        }
                        proof {
                            assert(set@ =~= Set::new(|x: int| exists|a2: int, b2: int| 0 <= a2 < a + 1 && 0 <= b2 < k
                                && x == #[trigger] rows@[a2] * N + #[trigger] cols@[b2]));
                        }
                        a += 1;
                    }
                    let ghost pair = (rows@, cols@);
                    proof {
                        assert(set@ =~= subsquare_cells(N as nat, pair));
                        let old_ps = ps;
                        let old_pi = pi;
                        ps = ps.push(pair);
                        pi = pi.push((i as int, j as int));
                        assert forall|a: int, b: int| 0 <= a < b < ps.len() implies #[trigger] pi[a].0 < #[trigger] pi[b].0
                            || (pi[a].0 == pi[b].0 && pi[a].1 < pi[b].1) by {
                            if b < old_ps.len() {
                                assert(pi[a] == old_pi[a] && pi[b] == old_pi[b]);
                            } else {
                                assert(pi[a] == old_pi[a]);
                                assert(pi[b] == (i as int, j as int));
                                assert(0 <= old_pi[a].0 <= i);
                                assert(old_pi[a].0 == i ==> old_pi[a].1 < j);
                            }
                        }
                        assert forall|m: int| 0 <= m < pi.len() implies 0 <= #[trigger] pi[m].0 <= i && 0 <= pi[m].1 < tl.len()
                            && (pi[m].0 == i ==> pi[m].1 < j + 1) by {
                            if m < old_pi.len() {
                                assert(pi[m] == old_pi[m]);
                            }
                        }
                        assert(subsquare_pairs(self@, N as nat, k as nat).contains(pair));
                        assert forall|x: int, y: int| 0 <= x < i && 0 <= y < tl.len() && #[trigger] is_subsquare(self@, tl[x], tl[y])
                            implies ps.contains((tl[x], tl[y])) by {
                            assert(old_ps.contains((tl[x], tl[y])));
                            let m = choose|m: int| 0 <= m < old_ps.len() && old_ps[m] == (tl[x], tl[y]);
                            assert(ps[m] == old_ps[m]);
                        }
                        assert forall|y: int| 0 <= y < j + 1 && #[trigger] is_subsquare(self@, tl[i as int], tl[y])
                            implies ps.contains((tl[i as int], tl[y])) by {
                            if y < j {
                                assert(old_ps.contains((tl[i as int], tl[y])));
                                let m = choose|m: int| 0 <= m < old_ps.len() && old_ps[m] == (tl[i as int], tl[y]);
                                assert(ps[m] == old_ps[m]);
                            } else {
                                assert(ps[old_ps.len() as int] == pair);
                            }
                        }
                    }
                    r.push(set);
                }
                j += 1;
            }
            i += 1;
        }
        proof {
            assert forall|a: int, b: int| 0 <= a < b < ps.len() implies #[trigger] pair_lt(ps[a], ps[b]) by {
                let (x1, y1) = pi[a];
                let (x2, y2) = pi[b];
                assert(0 <= pi[a].0 < tl.len() && 0 <= pi[a].1 < tl.len());
                assert(0 <= pi[b].0 < tl.len() && 0 <= pi[b].1 < tl.len());
                assert(ps[a] == (tl[x1], tl[y1]));
                assert(ps[b] == (tl[x2], tl[y2]));
                if x1 < x2 {
                    assert(lex_lt(tl[x1], tl[x2]));
                } else {
                    assert(lex_lt(tl[y1], tl[y2]));
                }
            }
            assert(ps.to_set() =~= subsquare_pairs(self@, N as nat, k as nat)) by {
                assert forall|p: (Seq<usize>, Seq<usize>)| ps.to_set().contains(p) implies subsquare_pairs(self@, N as nat, k as nat).contains(p) by {
                    let m = choose|m: int| 0 <= m < ps.len() && ps[m] == p;
                }
                assert forall|p: (Seq<usize>, Seq<usize>)| subsquare_pairs(self@, N as nat, k as nat).contains(p) implies ps.to_set().contains(p) by {
                    assert(tl.contains(p.0));
                    assert(tl.contains(p.1));
                    let x = choose|x: int| 0 <= x < tl.len() && tl[x] == p.0;
                    let y = choose|y: int| 0 <= y < tl.len() && tl[y] == p.1;
                    assert(is_subsquare(self@, tl[x], tl[y]));
                    assert(ps.contains(p));
                }
            }
        }
        r
    }

    /// The number of subsquares of order k.
    pub fn num_subsquares(&self, k: usize) -> (r: usize)
        requires
            1 <= k <= N,
            N < 16,
        ensures
            subsquare_pairs(self@, N as nat, k as nat).finite(),
            r == subsquare_pairs(self@, N as nat, k as nat).len(),
    {
        let ts = k_tuples(N, k);
        let ghost tl = seqs(ts@);
        let mut found: Vec<(usize, usize)> = Vec::new();
        let ghost mut ps: Seq<(Seq<usize>, Seq<usize>)> = Seq::empty();
        let mut i: usize = 0;
        while i < ts.len()
            invariant
                1 <= k <= N < 16,
                i <= ts@.len(),
                tl == seqs(ts@),
                strictly_sorted(tl),
                forall|m: int| 0 <= m < ts@.len() ==> is_k_tuple(#[trigger] ts@[m]@, N as nat, k as nat),
                forall|t: Seq<usize>| #[trigger] is_k_tuple(t, N as nat, k as nat) ==> tl.contains(t),
                found@.len() == ps.len(),
                forall|m: int| 0 <= m < ps.len() ==> #[trigger] ps[m] == (tl[found@[m].0 as int], tl[found@[m].1 as int]),
                forall|m: int| 0 <= m < found@.len() ==> #[trigger] found@[m].0 < i && found@[m].1 < tl.len(),
                forall|a: int, b: int| 0 <= a < b < found@.len() ==> #[trigger] found@[a].0 < #[trigger] found@[b].0
                    || (found@[a].0 == found@[b].0 && found@[a].1 < found@[b].1),
                forall|m: int| 0 <= m < ps.len() ==> #[trigger] subsquare_pairs(self@, N as nat, k as nat).contains(ps[m]),
                forall|x: int, y: int| 0 <= x < i && 0 <= y < tl.len() && #[trigger] is_subsquare(self@, tl[x], tl[y])
                    ==> ps.contains((tl[x], tl[y])),
            decreases ts@.len() - i,
        {
            let mut j: usize = 0;
            while j < ts.len()
                invariant
                    1 <= k <= N < 16,
                    i < ts@.len(),
                    j <= ts@.len(),
                    tl == seqs(ts@),
                    strictly_sorted(tl),
                    forall|m: int| 0 <= m < ts@.len() ==> is_k_tuple(#[trigger] ts@[m]@, N as nat, k as nat),
                    found@.len() == ps.len(),
                    forall|m: int| 0 <= m < ps.len() ==> #[trigger] ps[m] == (tl[found@[m].0 as int], tl[found@[m].1 as int]),
                    forall|m: int| 0 <= m < found@.len() ==> #[trigger] found@[m].0 <= i && found@[m].1 < tl.len()
                        && (found@[m].0 == i ==> found@[m].1 < j),
                    forall|a: int, b: int| 0 <= a < b < found@.len() ==> #[trigger] found@[a].0 < #[trigger] found@[b].0
                        || (found@[a].0 == found@[b].0 && found@[a].1 < found@[b].1),
                    forall|m: int| 0 <= m < ps.len() ==> #[trigger] subsquare_pairs(self@, N as nat, k as nat).contains(ps[m]),
                    forall|x: int, y: int| 0 <= x < i && 0 <= y < tl.len() && #[trigger] is_subsquare(self@, tl[x], tl[y])
                        ==> ps.contains((tl[x], tl[y])),
                    forall|y: int| 0 <= y < j && #[trigger] is_subsquare(self@, tl[i as int], tl[y])
                        ==> ps.contains((tl[i as int], tl[y])),
                decreases ts@.len() - j,
            {
                let rows = &ts[i];
                let cols = &ts[j];
                proof {
                    assert(is_k_tuple(ts@[i as int]@, N as nat, k as nat));
                    assert(is_k_tuple(ts@[j as int]@, N as nat, k as nat));
                    assert(tl[i as int] == rows@ && tl[j as int] == cols@);
                }
                if self.carries_subsquare(rows, cols) {
                    let ghost pair = (rows@, cols@);
                    let ghost old_ps = ps;
                    let ghost old_found = found@;
                    found.push((i, j));
                    proof {
                        ps = ps.push(pair);
                        assert forall|a: int, b: int| 0 <= a < b < found@.len() implies #[trigger] found@[a].0 < #[trigger] found@[b].0
                            || (found@[a].0 == found@[b].0 && found@[a].1 < found@[b].1) by {
                            if b < old_found.len() {
                                assert(found@[a] == old_found[a] && found@[b] == old_found[b]);
                            } else {
                                assert(found@[a] == old_found[a]);
                            }
                        }
                        assert forall|m: int| 0 <= m < ps.len() implies #[trigger] ps[m] == (tl[found@[m].0 as int], tl[found@[m].1 as int]) by {
                            if m < old_ps.len() {
                                assert(found@[m] == old_found[m]);
                            }
                        }
                        assert(subsquare_pairs(self@, N as nat, k as nat).contains(pair));
                        assert forall|x: int, y: int| 0 <= x < i && 0 <= y < tl.len() && #[trigger] is_subsquare(self@, tl[x], tl[y])
                            implies ps.contains((tl[x], tl[y])) by {
                            assert(old_ps.contains((tl[x], tl[y])));
                            let m = choose|m: int| 0 <= m < old_ps.len() && old_ps[m] == (tl[x], tl[y]);
                            assert(ps[m] == old_ps[m]);
                        }
                        assert forall|y: int| 0 <= y < j + 1 && #[trigger] is_subsquare(self@, tl[i as int], tl[y])
                            implies ps.contains((tl[i as int], tl[y])) by {
                            if y < j {
                                assert(old_ps.contains((tl[i as int], tl[y])));
                                let m = choose|m: int| 0 <= m < old_ps.len() && old_ps[m] == (tl[i as int], tl[y]);
                                assert(ps[m] == old_ps[m]);
                            } else {
                                assert(ps[old_ps.len() as int] == pair);
                            }
                        }
                    }
                }
                j += 1;
            }
            i += 1;
        }
        proof {
            assert(ps.no_duplicates()) by {
                assert forall|a: int, b: int| 0 <= a < ps.len() && 0 <= b < ps.len() && a != b implies ps[a] != ps[b] by {
                    let (lo, hi) = if a < b { (a, b) } else { (b, a) };
                    let (x1, y1) = (found@[lo].0 as int, found@[lo].1 as int);
                    let (x2, y2) = (found@[hi].0 as int, found@[hi].1 as int);
                    assert(found@[lo].0 < found@[hi].0 || (found@[lo].0 == found@[hi].0 && found@[lo].1 < found@[hi].1));
                    assert(ps[lo] == (tl[x1], tl[y1]));
                    assert(ps[hi] == (tl[x2], tl[y2]));
                    if x1 < x2 {
                        assert(lex_lt(tl[x1], tl[x2]));
                        lemma_lex_trichotomy(tl[x1], tl[x2]);
                    } else {
                        assert(lex_lt(tl[y1], tl[y2]));
                        lemma_lex_trichotomy(tl[y1], tl[y2]);
                    }
                }
            }
            assert(ps.to_set() =~= subsquare_pairs(self@, N as nat, k as nat)) by {
                assert forall|p: (Seq<usize>, Seq<usize>)| ps.to_set().contains(p) implies subsquare_pairs(self@, N as nat, k as nat).contains(p) by {
                    let m = choose|m: int| 0 <= m < ps.len() && ps[m] == p;
                }
                assert forall|p: (Seq<usize>, Seq<usize>)| subsquare_pairs(self@, N as nat, k as nat).contains(p) implies ps.to_set().contains(p) by {
                    assert(tl.contains(p.0));
                    assert(tl.contains(p.1));
                    let x = choose|x: int| 0 <= x < tl.len() && tl[x] == p.0;
                    let y = choose|y: int| 0 <= y < tl.len() && tl[y] == p.1;
                    assert(is_subsquare(self@, tl[x], tl[y]));
                    assert(ps.contains(p));
                }
            }
            ps.unique_seq_to_set();
            vstd::seq_lib::seq_to_set_is_finite(ps);
        }
        found.len()
    }
}

impl LatinSquareDyn {
    /// The values in row a (or, with `by_col`, column a) of the subgrid.
    fn sub_line_values_dyn(&self, rows: &Vec<usize>, cols: &Vec<usize>, a: usize, by_col: bool) -> (r: BitSet16)
        requires
            self.order() < 16,
            rows@.len() == cols@.len(),
            a < rows@.len(),
            forall|i: int| 0 <= i < rows@.len() ==> #[trigger] rows@[i] < self.order(),
            forall|i: int| 0 <= i < cols@.len() ==> #[trigger] cols@[i] < self.order(),
        ensures
            !by_col ==> r@ == sub_row_values(self.square(), rows@, cols@, a as int),
            by_col ==> r@ == sub_col_values(self.square(), rows@, cols@, a as int),
    {
        let mut set = BitSet16::empty();
        let mut b: usize = 0;
        while b < rows.len()
            invariant
                self.order() < 16,
                rows@.len() == cols@.len(),
                a < rows@.len(),
                b <= rows@.len(),
                forall|i: int| 0 <= i < rows@.len() ==> #[trigger] rows@[i] < self.order(),
                forall|i: int| 0 <= i < cols@.len() ==> #[trigger] cols@[i] < self.order(),
                !by_col ==> set@ == Set::new(|v: int| exists|c: int| 0 <= c < b && #[trigger] sub_cell(self.square(), rows@, cols@, a as int, c) == v),
                by_col ==> set@ == Set::new(|v: int| exists|c: int| 0 <= c < b && #[trigger] sub_cell(self.square(), rows@, cols@, c, a as int) == v),
            decreases rows@.len() - b,
        {
            let value = if by_col { self.entry(rows[b], cols[a]) } else { self.entry(rows[a], cols[b]) };
            let ghost before = set@;
            set.insert(value);
            proof {
                if by_col {
                    assert(set@ =~= Set::new(|v: int| exists|c: int| 0 <= c < b + 1 && #[trigger] sub_cell(self.square(), rows@, cols@, c, a as int) == v)) by {
                        assert(sub_cell(self.square(), rows@, cols@, b as int, a as int) == value);
                    }
                } else {
                    assert(set@ =~= Set::new(|v: int| exists|c: int| 0 <= c < b + 1 && #[trigger] sub_cell(self.square(), rows@, cols@, a as int, c) == v)) by {
                        assert(sub_cell(self.square(), rows@, cols@, a as int, b as int) == value);
                    }
                }
            }
            b += 1;
        }
        proof {
            if by_col {
                assert(set@ =~= sub_col_values(self.square(), rows@, cols@, a as int));
            } else {
                assert(set@ =~= sub_row_values(self.square(), rows@, cols@, a as int));
            }
        }
        set
    }

    /// Whether the rows and columns carry a subsquare.
    fn carries_subsquare_dyn(&self, rows: &Vec<usize>, cols: &Vec<usize>) -> (r: bool)
        requires
            self.order() < 16,
            rows@.len() == cols@.len(),
            rows@.len() >= 1,
            forall|i: int| 0 <= i < rows@.len() ==> #[trigger] rows@[i] < self.order(),
            forall|i: int| 0 <= i < cols@.len() ==> #[trigger] cols@[i] < self.order(),
        ensures
            r == is_subsquare(self.square(), rows@, cols@),
    {
        let first = self.sub_line_values_dyn(rows, cols, 0, false);
        let mut a: usize = 0;
        while a < rows.len()
            invariant
                self.order() < 16,
                rows@.len() == cols@.len(),
                a <= rows@.len(),
                first@ == sub_row_values(self.square(), rows@, cols@, 0),
                forall|i: int| 0 <= i < rows@.len() ==> #[trigger] rows@[i] < self.order(),
                forall|i: int| 0 <= i < cols@.len() ==> #[trigger] cols@[i] < self.order(),
                forall|c: int| 0 <= c < a ==> #[trigger] sub_row_values(self.square(), rows@, cols@, c) == first@,
                forall|c: int| 0 <= c < a ==> #[trigger] sub_col_values(self.square(), rows@, cols@, c) == first@,
            decreases rows@.len() - a,
        {
            let row = self.sub_line_values_dyn(rows, cols, a, false);
            let col = self.sub_line_values_dyn(rows, cols, a, true);
            proof {
                BitSet16::lemma_eq_iff_view(row, first);
                BitSet16::lemma_eq_iff_view(col, first);
            }
            if row != first || col != first {
                return false;
            }
            a += 1;
        }
        true
    }

    /// The number of subsquares of order k.
    pub(crate) fn count_subsquares(&self, k: usize) -> (r: usize)
        requires
            1 <= k <= self.order(),
            self.order() < 16,
        ensures
            subsquare_pairs(self.square(), self.order(), k as nat).finite(),
            r == subsquare_pairs(self.square(), self.order(), k as nat).len(),
    {
        let n = self.n();
        let ts = k_tuples(n, k);
        let ghost tl = seqs(ts@);
        let mut found: Vec<(usize, usize)> = Vec::new();
        let ghost mut ps: Seq<(Seq<usize>, Seq<usize>)> = Seq::empty();
        let mut i: usize = 0;
        while i < ts.len()
            invariant
                1 <= k <= self.order() < 16,
                i <= ts@.len(),
                tl == seqs(ts@),
                strictly_sorted(tl),
                forall|m: int| 0 <= m < ts@.len() ==> is_k_tuple(#[trigger] ts@[m]@, self.order(), k as nat),
                forall|t: Seq<usize>| #[trigger] is_k_tuple(t, self.order(), k as nat) ==> tl.contains(t),
                found@.len() == ps.len(),
                forall|m: int| 0 <= m < ps.len() ==> #[trigger] ps[m] == (tl[found@[m].0 as int], tl[found@[m].1 as int]),
                forall|m: int| 0 <= m < found@.len() ==> #[trigger] found@[m].0 < i && found@[m].1 < tl.len(),
                forall|a: int, b: int| 0 <= a < b < found@.len() ==> #[trigger] found@[a].0 < #[trigger] found@[b].0
                    || (found@[a].0 == found@[b].0 && found@[a].1 < found@[b].1),
                forall|m: int| 0 <= m < ps.len() ==> #[trigger] subsquare_pairs(self.square(), self.order(), k as nat).contains(ps[m]),
                forall|x: int, y: int| 0 <= x < i && 0 <= y < tl.len() && #[trigger] is_subsquare(self.square(), tl[x], tl[y])
                    ==> ps.contains((tl[x], tl[y])),
            decreases ts@.len() - i,
        {
            let mut j: usize = 0;
            while j < ts.len()
                invariant
                    1 <= k <= self.order() < 16,
                    i < ts@.len(),
                    j <= ts@.len(),
                    tl == seqs(ts@),
                    strictly_sorted(tl),
                    forall|m: int| 0 <= m < ts@.len() ==> is_k_tuple(#[trigger] ts@[m]@, self.order(), k as nat),
                    found@.len() == ps.len(),
                    forall|m: int| 0 <= m < ps.len() ==> #[trigger] ps[m] == (tl[found@[m].0 as int], tl[found@[m].1 as int]),
                    forall|m: int| 0 <= m < found@.len() ==> #[trigger] found@[m].0 <= i && found@[m].1 < tl.len()
                        && (found@[m].0 == i ==> found@[m].1 < j),
                    forall|a: int, b: int| 0 <= a < b < found@.len() ==> #[trigger] found@[a].0 < #[trigger] found@[b].0
                        || (found@[a].0 == found@[b].0 && found@[a].1 < found@[b].1),
                    forall|m: int| 0 <= m < ps.len() ==> #[trigger] subsquare_pairs(self.square(), self.order(), k as nat).contains(ps[m]),
                    forall|x: int, y: int| 0 <= x < i && 0 <= y < tl.len() && #[trigger] is_subsquare(self.square(), tl[x], tl[y])
                        ==> ps.contains((tl[x], tl[y])),
                    forall|y: int| 0 <= y < j && #[trigger] is_subsquare(self.square(), tl[i as int], tl[y])
                        ==> ps.contains((tl[i as int], tl[y])),
                decreases ts@.len() - j,
            {
                let rows = &ts[i];
                let cols = &ts[j];
                proof {
                    assert(is_k_tuple(ts@[i as int]@, self.order(), k as nat));
                    assert(is_k_tuple(ts@[j as int]@, self.order(), k as nat));
                    assert(tl[i as int] == rows@ && tl[j as int] == cols@);
                }
                if self.carries_subsquare_dyn(rows, cols) {
                    let ghost pair = (rows@, cols@);
                    let ghost old_ps = ps;
                    let ghost old_found = found@;
                    found.push((i, j));
                    proof {
                        ps = ps.push(pair);
                        assert forall|a: int, b: int| 0 <= a < b < found@.len() implies #[trigger] found@[a].0 < #[trigger] found@[b].0
                            || (found@[a].0 == found@[b].0 && found@[a].1 < found@[b].1) by {
                            if b < old_found.len() {
                                assert(found@[a] == old_found[a] && found@[b] == old_found[b]);
                            } else {
                                assert(found@[a] == old_found[a]);
                            }
                        }
                        assert forall|m: int| 0 <= m < ps.len() implies #[trigger] ps[m] == (tl[found@[m].0 as int], tl[found@[m].1 as int]) by {
                            if m < old_ps.len() {
                                assert(found@[m] == old_found[m]);
                            }
                        }
                        assert(subsquare_pairs(self.square(), self.order(), k as nat).contains(pair));
                        assert forall|x: int, y: int| 0 <= x < i && 0 <= y < tl.len() && #[trigger] is_subsquare(self.square(), tl[x], tl[y])
                            implies ps.contains((tl[x], tl[y])) by {
                            assert(old_ps.contains((tl[x], tl[y])));
                            let m = choose|m: int| 0 <= m < old_ps.len() && old_ps[m] == (tl[x], tl[y]);
                            assert(ps[m] == old_ps[m]);
                        }
                        assert forall|y: int| 0 <= y < j + 1 && #[trigger] is_subsquare(self.square(), tl[i as int], tl[y])
                            implies ps.contains((tl[i as int], tl[y])) by {
                            if y < j {
                                assert(old_ps.contains((tl[i as int], tl[y])));
                                let m = choose|m: int| 0 <= m < old_ps.len() && old_ps[m] == (tl[i as int], tl[y]);
                                assert(ps[m] == old_ps[m]);
                            } else {
                                assert(ps[old_ps.len() as int] == pair);
                            }
                        }
                    }
                }
                j += 1;
            }
            i += 1;
        }
        proof {
            assert(ps.no_duplicates()) by {
                assert forall|a: int, b: int| 0 <= a < ps.len() && 0 <= b < ps.len() && a != b implies ps[a] != ps[b] by {
                    let (lo, hi) = if a < b { (a, b) } else { (b, a) };
                    let (x1, y1) = (found@[lo].0 as int, found@[lo].1 as int);
                    let (x2, y2) = (found@[hi].0 as int, found@[hi].1 as int);
                    assert(found@[lo].0 < found@[hi].0 || (found@[lo].0 == found@[hi].0 && found@[lo].1 < found@[hi].1));
                    assert(ps[lo] == (tl[x1], tl[y1]));
                    assert(ps[hi] == (tl[x2], tl[y2]));
                    if x1 < x2 {
                        assert(lex_lt(tl[x1], tl[x2]));
                        lemma_lex_trichotomy(tl[x1], tl[x2]);
                    } else {
                        assert(lex_lt(tl[y1], tl[y2]));
                        lemma_lex_trichotomy(tl[y1], tl[y2]);
                    }
                }
            }
            assert(ps.to_set() =~= subsquare_pairs(self.square(), self.order(), k as nat)) by {
                assert forall|p: (Seq<usize>, Seq<usize>)| ps.to_set().contains(p) implies subsquare_pairs(self.square(), self.order(), k as nat).contains(p) by {
                    let m = choose|m: int| 0 <= m < ps.len() && ps[m] == p;
                }
                assert forall|p: (Seq<usize>, Seq<usize>)| subsquare_pairs(self.square(), self.order(), k as nat).contains(p) implies ps.to_set().contains(p) by {
                    assert(tl.contains(p.0));
                    assert(tl.contains(p.1));
                    let x = choose|x: int| 0 <= x < tl.len() && tl[x] == p.0;
                    let y = choose|y: int| 0 <= y < tl.len() && tl[y] == p.1;
                    assert(is_subsquare(self.square(), tl[x], tl[y]));
                    assert(ps.contains(p));
                }
            }
            ps.unique_seq_to_set();
            vstd::seq_lib::seq_to_set_is_finite(ps);
        }
        found.len()
    }
}

} // verus!