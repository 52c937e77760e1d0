//! Transversals of a Latin square: one cell in each row, no two in one column, no two
//! with one value.
use vstd::prelude::*;
use crate::latin_square::{LatinSquare, is_latin, lemma_index_of_cell};
use crate::cycles::{lex_lt, strictly_sorted, seqs};
use crate::cycle_types::{position_of, is_line, lemma_position_of};
use crate::bitset::BitSet128;

verus! {

/// The column in which row i holds the value v.
pub open spec fn col_of(s: Seq<Seq<u8>>, i: int, v: int) -> int {
    position_of(s[i], v)
}

/// `t` picks value t[i] in row i, for the first rows, with no value and no column twice.
pub open spec fn is_partial_transversal(s: Seq<Seq<u8>>, n: nat, t: Seq<usize>) -> bool {
    &&& t.len() <= n
    &&& forall|i: int| 0 <= i < t.len() ==> #[trigger] t[i] < n
    &&& forall|i: int, j: int| 0 <= i < j < t.len() ==> #[trigger] t[i] != #[trigger] t[j]
        && col_of(s, i, t[i] as int) != col_of(s, j, t[j] as int)
}

/// `t` picks a value in every row: the cells form a transversal.
pub open spec fn is_transversal(s: Seq<Seq<u8>>, n: nat, t: Seq<usize>) -> bool {
    t.len() == n && is_partial_transversal(s, n, t)
}

/// The cells i * n + (column of t[i] in row i) of a transversal, numbered in reading order.
pub open spec fn transversal_cells(s: Seq<Seq<u8>>, n: nat, t: Seq<usize>) -> Set<int> {
    Set::new(|x: int| exists|i: int| 0 <= i < n && x == i * n + #[trigger] col_of(s, i, t[i] as int))
}

/// The set of all transversals, each given by its values row by row.
pub open spec fn transversal_set(s: Seq<Seq<u8>>, n: nat) -> Set<Seq<usize>> {
    Set::new(|t: Seq<usize>| is_transversal(s, n, t))
}

/// `a` comes before `b` when they agree before position k and a[k] < b[k].
pub proof fn lemma_lex_lt_at(a: Seq<usize>, b: Seq<usize>, k: int)
    requires
        0 <= k < a.len(),
        k < b.len(),
        a.take(k) == b.take(k),
        a[k] < b[k],
    ensures
        lex_lt(a, b),
    decreases k,
{
    if k > 0 {
        assert(a[0] == a.take(k)[0]);
        assert(b[0] == b.take(k)[0]);
        assert(a.drop_first().take(k - 1) =~= a.take(k).drop_first());
        assert(b.drop_first().take(k - 1) =~= b.take(k).drop_first());
        lemma_lex_lt_at(a.drop_first(), b.drop_first(), k - 1);
    }
}

impl<const N: usize> LatinSquare<N> {
    /// Appends, in lexicographic order, every transversal whose first rows pick `prefix`.
    fn extend_transversals(
        &self,
        cols: &[[u8; N]; N],
        prefix: Vec<usize>,
        used_vals: [bool; N],
        used_cols: [bool; N],
        out: &mut Vec<Vec<usize>>,
    )
        requires
            is_latin(self@, N as nat),
            forall|i: int| 0 <= i < N ==> #[trigger] is_line(self@[i], N as nat),
            forall|v: int, i: int| 0 <= v < N && 0 <= i < N ==> #[trigger] cols@[v]@[i] as int == col_of(self@, i, v),
            is_partial_transversal(self@, N as nat, prefix@),
            forall|v: int| 0 <= v < N ==> (#[trigger] used_vals@[v] <==> prefix@.contains(v as usize)),
            forall|c: int| 0 <= c < N ==> (#[trigger] used_cols@[c] <==>
                exists|i: int| 0 <= i < prefix@.len() && col_of(self@, i, prefix@[i] as int) == c),
        ensures
            final(out)@.len() >= old(out)@.len(),
            final(out)@.take(old(out)@.len() as int) == old(out)@,
            strictly_sorted(seqs(final(out)@).skip(old(out)@.len() as int)),
            forall|k: int| old(out)@.len() <= k < final(out)@.len() ==> is_transversal(self@, N as nat, #[trigger] final(out)@[k]@)
                && final(out)@[k]@.take(prefix@.len() as int) == prefix@,
            forall|t: Seq<usize>| is_transversal(self@, N as nat, t) && #[trigger] t.take(prefix@.len() as int) == prefix@
                ==> seqs(final(out)@).skip(old(out)@.len() as int).contains(t),
        decreases N - prefix@.len(),
    {
        let ghost start = out@.len() as int;
        let ghost s = self@;
        let len = prefix.len();
        if len == N {
            let ghost p = prefix@;
            out.push(prefix);
            proof {
                assert(seqs(out@).skip(start) =~= seq![p]);
                assert(p.take(N as int) =~= p);
                assert forall|t: Seq<usize>| is_transversal(s, N as nat, t) && #[trigger] t.take(N as int) == p
                    implies seqs(out@).skip(start).contains(t) by {
                    assert(t =~= t.take(N as int));
                    assert(seqs(out@).skip(start)[0] == t);
                }
                assert(out@.take(start) =~= old(out)@);
            }
            return;
        }
        let mut v: usize = 0;
        while v < N
            invariant
                len == prefix@.len() < N,
                v <= N,
                start == old(out)@.len(),
                s == self@,
                is_latin(s, N as nat),
                forall|i: int| 0 <= i < N ==> #[trigger] is_line(s[i], N as nat),
                forall|w: int, i: int| 0 <= w < N && 0 <= i < N ==> #[trigger] cols@[w]@[i] as int == col_of(s, i, w),
                is_partial_transversal(s, N as nat, prefix@),
                forall|w: int| 0 <= w < N ==> (#[trigger] used_vals@[w] <==> prefix@.contains(w as usize)),
                forall|c: int| 0 <= c < N ==> (#[trigger] used_cols@[c] <==>
                    exists|i: int| 0 <= i < prefix@.len() && col_of(s, i, prefix@[i] as int) == c),
                out@.len() >= start,
                out@.take(start) == old(out)@,
                strictly_sorted(seqs(out@).skip(start)),
                forall|k: int| start <= k < out@.len() ==> is_transversal(s, N as nat, #[trigger] out@[k]@)
                    && out@[k]@.take(len as int) == prefix@ && out@[k]@[len as int] < v,
                forall|t: Seq<usize>| is_transversal(s, N as nat, t) && #[trigger] t.take(len as int) == prefix@ && t[len as int] < v
                    ==> seqs(out@).skip(start).contains(t),
            decreases N - v,
        {
            let c = cols[v][len];
            proof {
                lemma_position_of(s[len as int], N as nat);
                assert(c as int == col_of(s, len as int, v as int));
            }
            if !used_vals[v] && !used_cols[c as usize] {
                let mut next = prefix.clone();
                next.push(v);
                let mut vals2 = used_vals;
                vals2[v] = true;
                let mut cols2 = used_cols;
                cols2[c as usize] = true;
                let ghost before = out@;
                let ghost np = next@;
                proof {
                    assert(np =~= prefix@.push(v));
                    assert(is_partial_transversal(s, N as nat, np)) by {
                        assert forall|i: int, j: int| 0 <= i < j < np.len() implies #[trigger] np[i] != #[trigger] np[j]
                            && col_of(s, i, np[i] as int) != col_of(s, j, np[j] as int) by {
                            if j == len {
                                assert(np[i] == prefix@[i]);
                                if np[i] == v {
                                    assert(prefix@.contains(v));
                                }
                                if col_of(s, i, np[i] as int) == c {
                                    assert(used_cols@[c as int]);
                                }
                            }
                        }
                    }
                    assert forall|w: int| 0 <= w < N implies (#[trigger] vals2@[w] <==> np.contains(w as usize)) by {
                        if np.contains(w as usize) && w != v {
                            let i = choose|i: int| 0 <= i < np.len() && np[i] == w as usize;
                            assert(prefix@[i] == w);
                            assert(prefix@.contains(w as usize));
                        }
                        if prefix@.contains(w as usize) {
                            let i = choose|i: int| 0 <= i < prefix@.len() && prefix@[i] == w as usize;
                            assert(np[i] == w);
                        }
                        if w == v {
                            assert(np[len as int] == v);
                        }
                    }
                    assert forall|cc: int| 0 <= cc < N implies (#[trigger] cols2@[cc] <==>
                        exists|i: int| 0 <= i < np.len() && col_of(s, i, np[i] as int) == cc) by {
                        if cc == c {
                            assert(col_of(s, len as int, np[len as int] as int) == cc);
                        } else {
                            if used_cols@[cc] {
                                let i = choose|i: int| 0 <= i < prefix@.len() && col_of(s, i, prefix@[i] as int) == cc;
                                assert(np[i] == prefix@[i]);
                            }
                            if exists|i: int| 0 <= i < np.len() && col_of(s, i, np[i] as int) == cc {
                                let i = choose|i: int| 0 <= i < np.len() && col_of(s, i, np[i] as int) == cc;
                                assert(i != len);
                                assert(np[i] == prefix@[i]);
                            }
                        }
                    }
                }
                self.extend_transversals(cols, next, vals2, cols2, out);
                proof {
                    let old_block = seqs(before).skip(start);
                    let block = seqs(out@).skip(before.len() as int);
                    let all = seqs(out@).skip(start);
                    assert(out@.take(before.len() as int) == before);
                    assert(all =~= old_block + block) by {
                        assert forall|k: int| 0 <= k < all.len() implies all[k] == (old_block + block)[k] by {
                            if k < old_block.len() {
                                assert(out@.take(before.len() as int)[start + k] == before[start + k]);
                            }
                        }
                    }
                    assert(out@.take(start) =~= old(out)@) by {
                        assert forall|k: int| 0 <= k < start implies out@.take(start)[k] == old(out)@[k] by {
                            assert(out@.take(before.len() as int)[k] == before[k]);
                            assert(before.take(start)[k] == old(out)@[k]);
                        }
                    }
                    assert forall|k: int| start <= k < out@.len() implies is_transversal(s, N as nat, #[trigger] out@[k]@)
                        && out@[k]@.take(len as int) == prefix@ && out@[k]@[len as int] < v + 1 by {
                        if k < before.len() {
                            assert(out@.take(before.len() as int)[k] == before[k]);
                        } else {
                            assert(out@[k]@.take(len as int + 1) == np);
                            assert(out@[k]@.take(len as int) =~= np.take(len as int));
                            assert(np.take(len as int) =~= prefix@);
                            assert(out@[k]@[len as int] == np[len as int]);
                        }
                    }
                    assert forall|a: int, b: int| 0 <= a < b < all.len() implies lex_lt(#[trigger] all[a], #[trigger] all[b]) by {
                        if b < old_block.len() {
                            assert(all[a] == old_block[a] && all[b] == old_block[b]);
                        } else if a >= old_block.len() {
                            assert(all[a] == block[a - old_block.len()] && all[b] == block[b - old_block.len()]);
                        } else {
                            assert(all[a] == out@[start + a]@);
                            assert(all[b] == out@[start + b]@);
                            let x = all[a];
                            let y = all[b];
                            assert(x.take(len as int) == prefix@ && y.take(len as int) == prefix@);
                            assert(x[len as int] < v);
                            assert(start + b >= before.len());
                            assert(out@[start + b]@.take(len as int + 1) == np);
                            assert(y.take(len as int + 1)[len as int] == np[len as int]);
                            assert(y[len as int] == v);
                            lemma_lex_lt_at(x, y, len as int);
                        }
                    }
                    assert forall|t: Seq<usize>| is_transversal(s, N as nat, t) && #[trigger] t.take(len as int) == prefix@ && t[len as int] < v + 1
                        implies all.contains(t) by {
                        if t[len as int] < v {
                            assert(old_block.contains(t));
                            let k = choose|k: int| 0 <= k < old_block.len() && old_block[k] == t;
                            assert(all[k] == t);
                        } else {
                            assert(t.take(len as int + 1) =~= np) by {
                                assert forall|q: int| 0 <= q < len + 1 implies t.take(len as int + 1)[q] == np[q] by {
                                    if q < len {
                                        assert(t.take(len as int)[q] == prefix@[q]);
                                    }
                                }
                            }
                            assert(block.contains(t));
                            let k = choose|k: int| 0 <= k < block.len() && block[k] == t;
                            assert(all[old_block.len() + k] == t);
                        }
                    }
                }
            } else {
                proof {
                    assert forall|t: Seq<usize>| is_transversal(s, N as nat, t) && #[trigger] t.take(len as int) == prefix@ && t[len as int] < v + 1
                        implies seqs(out@).skip(start).contains(t) by {
                        if t[len as int] == v {
                            if used_vals@[v as int] {
                                let i = choose|i: int| 0 <= i < prefix@.len() && prefix@[i] == v;
                                assert(t[i] == t.take(len as int)[i]);
                                assert(t[i] != t[len as int]);
                            } else {
                                let i = choose|i: int| 0 <= i < prefix@.len() && col_of(s, i, prefix@[i] as int) == c;
                                assert(t[i] == t.take(len as int)[i]);
                                assert(col_of(s, i, t[i] as int) != col_of(s, len as int, t[len as int] as int));
                            }
                        }
                    }
                }
            }
            v += 1;
        }
        proof {
            assert forall|t: Seq<usize>| is_transversal(s, N as nat, t) && #[trigger] t.take(len as int) == prefix@
                implies seqs(out@).skip(start).contains(t) by {
                assert(t[len as int] < N);
            }
        }
    }

    /// For each value, the column in which each row holds it.
    pub(crate) fn value_columns(&self) -> (cols: [[u8; N]; N])
        ensures
            forall|w: int, i: int| 0 <= w < N && 0 <= i < N ==> #[trigger] cols@[w]@[i] as int == col_of(self@, i, w),
    {
        proof {
            use_type_invariant(self);
            Self::lemma_latin(self);
            assert forall|i: int| 0 <= i < N implies #[trigger] is_line(self@[i], N as nat) by {}
        }
        let mut cols = [[0u8; N]; N];
        let mut v: usize = 0;
        while v < N
            invariant
                v <= N,
                forall|i: int| 0 <= i < N ==> #[trigger] is_line(self@[i], N as nat),
                forall|w: int, i: int| 0 <= w < v && 0 <= i < N ==> #[trigger] cols@[w]@[i] as int == col_of(self@, i, w),
            decreases N - v,
        {
            let line = self.get_val(v);
            cols[v] = line;
            proof {
                assert forall|w: int, i: int| 0 <= w < v + 1 && 0 <= i < N implies #[trigger] cols@[w]@[i] as int == col_of(self@, i, w) by {
                    if w == v {
                        lemma_position_of(self@[i], N as nat);
                        assert(self@[i][line@[i] as int] == v);
                        assert(position_of(self@[i], self@[i][line@[i] as int] as int) == line@[i] as int);
                    }
                }
            }
            v += 1;
        }
        cols
    }

    /// All transversals, each given by its values row by row, in lexicographic order.
    pub(crate) fn transversal_values(&self) -> (r: Vec<Vec<usize>>)
        ensures
            strictly_sorted(seqs(r@)),
            forall|k: int| 0 <= k < r@.len() ==> is_transversal(self@, N as nat, #[trigger] r@[k]@),
            forall|t: Seq<usize>| #[trigger] is_transversal(self@, N as nat, t) ==> seqs(r@).contains(t),
    {
        proof {
            use_type_invariant(self);
            Self::lemma_latin(self);
            assert forall|i: int| 0 <= i < N implies #[trigger] is_line(self@[i], N as nat) by {}
        }
        let cols = self.value_columns();
        let mut out: Vec<Vec<usize>> = Vec::new();
        let prefix: Vec<usize> = Vec::new();
        proof {
            assert forall|c: int| 0 <= c < N implies (#[trigger] [false; N]@[c] <==>
                exists|i: int| 0 <= i < prefix@.len() && col_of(self@, i, prefix@[i] as int) == c) by {}
        }
        self.extend_transversals(&cols, prefix, [false; N], [false; N], &mut out);
        proof {
            assert(seqs(out@).skip(0) =~= seqs(out@));
            assert forall|t: Seq<usize>| #[trigger] is_transversal(self@, N as nat, t) implies seqs(out@).contains(t) by {
                assert(t.take(0) =~= prefix@);
            }
        }
        out
    }

    /// The transversals as sets of cells numbered in reading order, listed in lexicographic
    /// order of their values row by row.
    pub fn transversals_bitset(&self) -> (r: Vec<BitSet128>)
        requires
            N * N <= 128,
        ensures
            exists|ts: Seq<Seq<usize>>| {
                &&& strictly_sorted(ts)
                &&& forall|k: int| 0 <= k < ts.len() ==> #[trigger] is_transversal(self@, N as nat, ts[k])
                &&& forall|t: Seq<usize>| #[trigger] is_transversal(self@, N as nat, t) ==> ts.contains(t)
                &&& r@.len() == ts.len()
                &&& forall|k: int| 0 <= k < ts.len() ==> #[trigger] r@[k]@ == transversal_cells(self@, N as nat, ts[k])
            },
    {
        proof {
            use_type_invariant(self);
            Self::lemma_latin(self);
            assert forall|i: int| 0 <= i < N implies #[trigger] is_line(self@[i], N as nat) by {}
        }
        let ts = self.transversal_values();
        let cols = self.value_columns();
        let mut r: Vec<BitSet128> = Vec::new();
        let mut k: usize = 0;
        while k < ts.len()
            invariant
                k <= ts@.len(),
                N * N <= 128,
                forall|i: int| 0 <= i < N ==> #[trigger] is_line(self@[i], N as nat),
                r@.len() == k,
                forall|m: int| 0 <= m < ts@.len() ==> is_transversal(self@, N as nat, #[trigger] ts@[m]@),
                forall|w: int, i: int| 0 <= w < N && 0 <= i < N ==> #[trigger] cols@[w]@[i] as int == col_of(self@, i, w),
                forall|m: int| 0 <= m < k ==> #[trigger] r@[m]@ == transversal_cells(self@, N as nat, ts@[m]@),
            decreases ts@.len() - k,
        {
            let t = &ts[k];
            assert(is_transversal(self@, N as nat, ts@[k as int]@));
            let mut set = BitSet128::empty();
            let mut i: usize = 0;
            while i < N
                invariant
                    i <= N,
                    N * N <= 128,
                    forall|i: int| 0 <= i < N ==> #[trigger] is_line(self@[i], N as nat),
                    t@ == ts@[k as int]@,
                    is_transversal(self@, N as nat, t@),
                    forall|w: int, i: int| 0 <= w < N && 0 <= i < N ==> #[trigger] cols@[w]@[i] as int == col_of(self@, i, w),
                    set@ == Set::new(|x: int| exists|a: int| 0 <= a < i && x == a * N + #[trigger] col_of(self@, a, t@[a] as int)),
                decreases N - i,
            {
                let c = cols[t[i]][i] as usize;
                proof {
                    assert(t@[i as int] < N);
                    lemma_position_of(self@[i as int], N as nat);
                    assert(c < N);
                    lemma_index_of_cell(i as int, c as int, N as int);
                }
                let ghost before = set@;
                set.insert(i * N + c);
                proof {
                    assert(set@ =~= Set::new(|x: int| exists|a: int| 0 <= a < i + 1 && x == a * N + #[trigger] col_of(self@, a, t@[a] as int))) by {
                        assert forall|x: int| set@.contains(x) implies exists|a: int| 0 <= a < i + 1 && x == a * N + #[trigger] col_of(self@, a, t@[a] as int) by {
                            if x == i * N + c {
                                assert(x == i * N + col_of(self@, i as int, t@[i as int] as int));
                            } else {
                                assert(before.contains(x));
                            }
                        }
                        assert forall|x: int| (exists|a: int| 0 <= a < i + 1 && x == a * N + #[trigger] col_of(self@, a, t@[a] as int)) implies set@.contains(x) by {
                            let a = choose|a: int| 0 <= a < i + 1 && x == a * N + #[trigger] col_of(self@, a, t@[a] as int);
                            if a < i {
                                assert(before.contains(x));
                            }
                        }
                    }
                }
                i += 1;
            }
            proof {
                assert(set@ =~= transversal_cells(self@, N as nat, ts@[k as int]@));
            }
            r.push(set);
            k += 1;
        }
        proof {
            let w = seqs(ts@);
            assert forall|m: int| 0 <= m < w.len() implies #[trigger] is_transversal(self@, N as nat, w[m]) by {
                assert(w[m] == ts@[m]@);
            }
            assert forall|m: int| 0 <= m < w.len() implies #[trigger] r@[m]@ == transversal_cells(self@, N as nat, w[m]) by {
                assert(w[m] == ts@[m]@);
            }
        }
        r
    }

    /// The number of transversals.
    pub fn num_transversals(&self) -> (r: usize)
        requires
            N * N <= 128,
        ensures
            r == transversal_set(self@, N as nat).len(),
            transversal_set(self@, N as nat).finite(),
    {
        let ts = self.transversal_values();
        proof {
            let w = seqs(ts@);
            assert(w.no_duplicates()) by {
                assert forall|a: int, b: int| 0 <= a < w.len() && 0 <= b < w.len() && a != b implies w[a] != w[b] by {
                    if a < b {
                        assert(lex_lt(w[a], w[b]));
                        crate::cycles::lemma_lex_trichotomy(w[a], w[b]);
                    } else {
                        assert(lex_lt(w[b], w[a]));
                        crate::cycles::lemma_lex_trichotomy(w[a], w[b]);
                    }
                }
            }
            assert(w.to_set() =~= transversal_set(self@, N as nat)) by {
                assert forall|t: Seq<usize>| w.to_set().contains(t) implies is_transversal(self@, N as nat, t) by {
                    let m = choose|m: int| 0 <= m < w.len() && w[m] == t;
                    assert(w[m] == ts@[m]@);
                }
                assert forall|t: Seq<usize>| is_transversal(self@, N as nat, t) implies w.to_set().contains(t) by {
                    assert(w.contains(t));
                }
            }
            w.unique_seq_to_set();
            vstd::seq_lib::seq_to_set_is_finite(w);
        }
        ts.len()
    }

    /// The cells of a transversal as a set of cell numbers.
    pub(crate) fn cells_bitset(&self, t: &Vec<usize>, cols: &[[u8; N]; N]) -> (set: BitSet128)
        requires
            N * N <= 128,
            is_transversal(self@, N as nat, t@),
            forall|i: int| 0 <= i < N ==> #[trigger] is_line(self@[i], N as nat),
            forall|w: int, i: int| 0 <= w < N && 0 <= i < N ==> #[trigger] cols@[w]@[i] as int == col_of(self@, i, w),
        ensures
            set@ == transversal_cells(self@, N as nat, t@),
    {
        let mut set = BitSet128::empty();
        let mut i: usize = 0;
        while i < N
            invariant
                i <= N,
                N * N <= 128,
                forall|i: int| 0 <= i < N ==> #[trigger] is_line(self@[i], N as nat),
                is_transversal(self@, N as nat, t@),
                forall|w: int, i: int| 0 <= w < N && 0 <= i < N ==> #[trigger] cols@[w]@[i] as int == col_of(self@, i, w),
                set@ == Set::new(|x: int| exists|a: int| 0 <= a < i && x == a * N + #[trigger] col_of(self@, a, t@[a] as int)),
            decreases N - i,
        {
            let c = cols[t[i]][i] as usize;
            proof {
                assert(t@[i as int] < N);
                lemma_position_of(self@[i as int], N as nat);
                assert(c < N);
                lemma_index_of_cell(i as int, c as int, N as int);
            }
            let ghost before = set@;
            set.insert(i * N + c);
            proof {
                assert(set@ =~= Set::new(|x: int| exists|a: int| 0 <= a < i + 1 && x == a * N + #[trigger] col_of(self@, a, t@[a] as int))) by {
                    assert forall|x: int| set@.contains(x) implies exists|a: int| 0 <= a < i + 1 && x == a * N + #[trigger] col_of(self@, a, t@[a] as int) by {
                        if x == i * N + c {
                            assert(x == i * N + col_of(self@, i as int, t@[i as int] as int));
                        } else {
                            assert(before.contains(x));
                        }
                    }
                    assert forall|x: int| (exists|a: int| 0 <= a < i + 1 && x == a * N + #[trigger] col_of(self@, a, t@[a] as int)) implies set@.contains(x) by {
                        let a = choose|a: int| 0 <= a < i + 1 && x == a * N + #[trigger] col_of(self@, a, t@[a] as int);
                        if a < i {
                            assert(before.contains(x));
                        }
                    }
                }
            }
            i += 1;
        }
        proof {
            assert(set@ =~= transversal_cells(self@, N as nat, t@));
        }
        set
    }
}

/// The transversals among `ts` that meet the cells of `sub` in exactly k cells.
pub open spec fn meeting(ts: Seq<BitSet128>, sub: BitSet128, k: nat) -> Seq<BitSet128> {
    ts.filter(|t: BitSet128| t@.intersect(sub@).len() == k)
}

/// Each subsquare of `subs` that some transversal of `ts` meets in exactly k cells, in
/// order, with those transversals in their order.
pub open spec fn subtransversal_groups(subs: Seq<BitSet128>, ts: Seq<BitSet128>, k: nat) -> Seq<(BitSet128, Seq<BitSet128>)>
    decreases subs.len(),
{
    if subs.len() == 0 {
        Seq::empty()
    } else {
        let rest = subtransversal_groups(subs.drop_last(), ts, k);
        let m = meeting(ts, subs.last(), k);
        if m.len() > 0 {
            rest.push((subs.last(), m))
        } else {
            rest
        }
    }
}

/// The groups as plain sequences.
pub open spec fn group_views(g: Seq<(BitSet128, Vec<BitSet128>)>) -> Seq<(BitSet128, Seq<BitSet128>)> {
    g.map_values(|e: (BitSet128, Vec<BitSet128>)| (e.0, e.1@))
}

/// For each subsquare, in order, the transversals that meet it in exactly k cells, when
/// there are any.
pub fn group_subtransversals(subsquares: &Vec<BitSet128>, transversals: &Vec<BitSet128>, k: usize) -> (r: Vec<(BitSet128, Vec<BitSet128>)>)
    ensures
        group_views(r@) == subtransversal_groups(subsquares@, transversals@, k as nat),
        forall|i: int| 0 <= i < r@.len() ==> {
            let g = #[trigger] r@[i];
            &&& subsquares@.contains(g.0)
            &&& g.1@.len() > 0
            &&& forall|j: int| 0 <= j < g.1@.len() ==> transversals@.contains(#[trigger] g.1@[j]) && g.1@[j]@.intersect(g.0@).len() == k
            &&& forall|t: int| 0 <= t < transversals@.len() && (#[trigger] transversals@[t])@.intersect(g.0@).len() == k
                ==> g.1@.contains(transversals@[t])
        },
        forall|a: int, t: int| 0 <= a < subsquares@.len() && 0 <= t < transversals@.len()
            && (#[trigger] transversals@[t])@.intersect((#[trigger] subsquares@[a])@).len() == k
            ==> exists|i: int| 0 <= i < r@.len() && (#[trigger] r@[i]).0 == subsquares@[a],
{
    let mut groups: Vec<(BitSet128, Vec<BitSet128>)> = Vec::new();
    let mut a: usize = 0;
    while a < subsquares.len()
        invariant
            a <= subsquares@.len(),
            group_views(groups@) == subtransversal_groups(subsquares@.take(a as int), transversals@, k as nat),
        decreases subsquares@.len() - a,
    {
        let subsquare = subsquares[a];
        let mut found: Vec<BitSet128> = Vec::new();
        let mut b: usize = 0;
        while b < transversals.len()
            invariant
                b <= transversals@.len(),
                found@ == meeting(transversals@.take(b as int), subsquare, k as nat),
            decreases transversals@.len() - b,
        {
            proof {
                reveal(Seq::filter);
                assert(transversals@.take(b + 1).drop_last() =~= transversals@.take(b as int));
                assert(transversals@.take(b + 1).last() == transversals@[b as int]);
            }
            if subsquare.intersect(transversals[b]).len() == k {
                found.push(transversals[b]);
            }
            proof {
                assert(transversals@[b as int]@.intersect(subsquare@) =~= subsquare@.intersect(transversals@[b as int]@));
            }
            b += 1;
        }
        proof {
            assert(transversals@.take(b as int) =~= transversals@);
            assert(subsquares@.take(a + 1).drop_last() =~= subsquares@.take(a as int));
            assert(subsquares@.take(a + 1).last() == subsquare);
        }
        let ghost before = groups@;
        if found.len() > 0 {
            groups.push((subsquare, found));
            proof {
                assert(group_views(groups@) =~= group_views(before).push((subsquare, meeting(transversals@, subsquare, k as nat))));
            }
        }
        a += 1;
    }
    proof {
        assert(subsquares@.take(a as int) =~= subsquares@);
        lemma_subtransversal_groups(subsquares@, transversals@, k as nat);
        let gv = group_views(groups@);
        assert forall|i: int| 0 <= i < groups@.len() implies {
            let g = #[trigger] groups@[i];
            &&& subsquares@.contains(g.0)
            &&& g.1@.len() > 0
            &&& forall|j: int| 0 <= j < g.1@.len() ==> transversals@.contains(#[trigger] g.1@[j]) && g.1@[j]@.intersect(g.0@).len() == k
            &&& forall|t: int| 0 <= t < transversals@.len() && (#[trigger] transversals@[t])@.intersect(g.0@).len() == k
                ==> g.1@.contains(transversals@[t])
        } by {
            assert(gv[i] == (groups@[i].0, groups@[i].1@));
        }
        assert forall|a: int, t: int| 0 <= a < subsquares@.len() && 0 <= t < transversals@.len()
            && (#[trigger] transversals@[t])@.intersect((#[trigger] subsquares@[a])@).len() == k
            implies exists|i: int| 0 <= i < groups@.len() && (#[trigger] groups@[i]).0 == subsquares@[a] by {
            let i = choose|i: int| 0 <= i < gv.len() && (#[trigger] gv[i]).0 == subsquares@[a];
            assert(gv[i] == (groups@[i].0, groups@[i].1@));
        }
    }
    groups
}


/// The transversals that `meeting` keeps are those of `ts` that meet `sub` in exactly k
/// cells, and only those.
pub proof fn lemma_meeting(ts: Seq<BitSet128>, sub: BitSet128, k: nat)
    ensures
        forall|i: int| 0 <= i < meeting(ts, sub, k).len() ==> ts.contains(#[trigger] meeting(ts, sub, k)[i])
            && meeting(ts, sub, k)[i]@.intersect(sub@).len() == k,
        forall|i: int| 0 <= i < ts.len() && (#[trigger] ts[i])@.intersect(sub@).len() == k
            ==> meeting(ts, sub, k).contains(ts[i]),
    decreases ts.len(),
{
    reveal(Seq::filter);
    let m = meeting(ts, sub, k);
    if ts.len() > 0 {
        let d = ts.drop_last();
        lemma_meeting(d, sub, k);
        let md = meeting(d, sub, k);
        assert forall|i: int| 0 <= i < m.len() implies ts.contains(#[trigger] m[i]) && m[i]@.intersect(sub@).len() == k by {
            if i < md.len() {
                assert(m[i] == md[i]);
                let j = choose|j: int| 0 <= j < d.len() && d[j] == md[i];
                assert(ts[j] == d[j]);
            } else {
                assert(m[i] == ts.last());
                assert(ts[ts.len() - 1] == ts.last());
            }
        }
        assert forall|i: int| 0 <= i < ts.len() && (#[trigger] ts[i])@.intersect(sub@).len() == k implies m.contains(ts[i]) by {
            if i < ts.len() - 1 {
                assert(d[i] == ts[i]);
                assert(md.contains(d[i]));
                let j = choose|j: int| 0 <= j < md.len() && md[j] == d[i];
                assert(m[j] == md[j]);
            } else {
                assert(m[m.len() - 1] == ts[i]);
            }
        }
    }
}

/// The groups of sub-transversals: each group is one of the subsquares, in the order of
/// `subs`, with every transversal of `ts` that meets it in exactly k cells and nothing else,
/// and is never empty; every subsquare that some transversal meets in exactly k cells has a
/// group.
pub proof fn lemma_subtransversal_groups(subs: Seq<BitSet128>, ts: Seq<BitSet128>, k: nat)
    ensures
        subtransversal_groups(subs, ts, k).len() <= subs.len(),
        forall|i: int| 0 <= i < subtransversal_groups(subs, ts, k).len() ==> {
            let g = #[trigger] subtransversal_groups(subs, ts, k)[i];
            &&& subs.contains(g.0)
            &&& g.1.len() > 0
            &&& forall|j: int| 0 <= j < g.1.len() ==> ts.contains(#[trigger] g.1[j]) && g.1[j]@.intersect(g.0@).len() == k
            &&& forall|t: int| 0 <= t < ts.len() && (#[trigger] ts[t])@.intersect(g.0@).len() == k ==> g.1.contains(ts[t])
        },
        forall|a: int, t: int| 0 <= a < subs.len() && 0 <= t < ts.len() && (#[trigger] ts[t])@.intersect((#[trigger] subs[a])@).len() == k
            ==> exists|i: int| 0 <= i < subtransversal_groups(subs, ts, k).len() && (#[trigger] subtransversal_groups(subs, ts, k)[i]).0 == subs[a],
        forall|i: int, j: int| 0 <= i < j < subtransversal_groups(subs, ts, k).len()
            ==> exists|a: int, b: int| 0 <= a < b < subs.len() && subs[a] == (#[trigger] subtransversal_groups(subs, ts, k)[i]).0
                && subs[b] == (#[trigger] subtransversal_groups(subs, ts, k)[j]).0,
    decreases subs.len(),
{
    let g = subtransversal_groups(subs, ts, k);
    if subs.len() > 0 {
        let d = subs.drop_last();
        lemma_subtransversal_groups(d, ts, k);
        let gd = subtransversal_groups(d, ts, k);
        let l = subs.last();
        lemma_meeting(ts, l, k);
        let m = meeting(ts, l, k);
        assert forall|i: int| 0 <= i < g.len() implies {
            let e = #[trigger] g[i];
            &&& subs.contains(e.0)
            &&& e.1.len() > 0
            &&& forall|j: int| 0 <= j < e.1.len() ==> ts.contains(#[trigger] e.1[j]) && e.1[j]@.intersect(e.0@).len() == k
            &&& forall|t: int| 0 <= t < ts.len() && (#[trigger] ts[t])@.intersect(e.0@).len() == k ==> e.1.contains(ts[t])
        } by {
            if i < gd.len() {
                assert(g[i] == gd[i]);
                let e = gd[i];
                assert(subs.contains(e.0)) by {
                    let a = choose|a: int| 0 <= a < d.len() && d[a] == e.0;
                    assert(subs[a] == d[a]);
                }
            } else {
                assert(g[i] == (l, m));
                assert(subs[subs.len() - 1] == l);
            }
        }
        assert forall|a: int, t: int| 0 <= a < subs.len() && 0 <= t < ts.len() && (#[trigger] ts[t])@.intersect((#[trigger] subs[a])@).len() == k
            implies exists|i: int| 0 <= i < g.len() && (#[trigger] g[i]).0 == subs[a] by {
            if a < subs.len() - 1 {
                assert(d[a] == subs[a]);
                let i = choose|i: int| 0 <= i < gd.len() && (#[trigger] gd[i]).0 == d[a];
                assert(g[i] == gd[i]);
            } else {
                assert(m.contains(ts[t]));
                assert(g[g.len() - 1] == (l, m));
            }
        }
        assert forall|i: int, j: int| 0 <= i < j < g.len()
            implies exists|a: int, b: int| 0 <= a < b < subs.len() && subs[a] == (#[trigger] g[i]).0 && subs[b] == (#[trigger] g[j]).0 by {
            if j < gd.len() {
                assert(g[i] == gd[i] && g[j] == gd[j]);
                let (a, b) = choose|a: int, b: int| 0 <= a < b < d.len() && d[a] == (#[trigger] gd[i]).0 && d[b] == (#[trigger] gd[j]).0;
                assert(subs[a] == d[a] && subs[b] == d[b]);
            } else {
                assert(g[i] == gd[i]);
                assert(g[j] == (l, m));
                assert(gd[i] == gd[i]);
                assert(subs.contains(gd[i].0)) by {
                    assert(0 <= i < gd.len());
                }
                let a = choose|a: int| 0 <= a < d.len() && d[a] == gd[i].0;
                assert(subs[a] == d[a]);
                assert(subs[subs.len() - 1] == l);
            }
        }
    }
}


/// `idx` picks out, in increasing order, every position of `ts` whose transversal meets
/// `sub` in exactly k cells, and `m` lists the transversals at those positions.
pub open spec fn picks_meeting(ts: Seq<BitSet128>, sub: BitSet128, k: nat, idx: Seq<int>, m: Seq<BitSet128>) -> bool {
    &&& idx.len() == m.len()
    &&& forall|j: int| 0 <= j < idx.len() ==> 0 <= #[trigger] idx[j] < ts.len() && m[j] == ts[idx[j]]
    &&& forall|j1: int, j2: int| 0 <= j1 < j2 < idx.len() ==> #[trigger] idx[j1] < #[trigger] idx[j2]
    &&& forall|t: int| 0 <= t < ts.len() ==> ((#[trigger] ts[t])@.intersect(sub@).len() == k
        <==> exists|j: int| 0 <= j < idx.len() && idx[j] == t)
}

/// The transversals of a group come in the order of `ts`, each position of `ts` that meets
/// the subsquare in exactly k cells once.
pub proof fn lemma_meeting_in_order(ts: Seq<BitSet128>, sub: BitSet128, k: nat)
    ensures
        exists|idx: Seq<int>| #[trigger] picks_meeting(ts, sub, k, idx, meeting(ts, sub, k)),
    decreases ts.len(),
{
    reveal(Seq::filter);
    let m = meeting(ts, sub, k);
    if ts.len() == 0 {
        assert(picks_meeting(ts, sub, k, Seq::empty(), m));
    } else {
        let d = ts.drop_last();
        lemma_meeting_in_order(d, sub, k);
        let md = meeting(d, sub, k);
        let idd = choose|idx: Seq<int>| #[trigger] picks_meeting(d, sub, k, idx, md);
        let l = ts.len() - 1;
        if ts[l]@.intersect(sub@).len() == k {
            let idx = idd.push(l);
            assert(m == md.push(ts.last()));
            assert forall|t: int| 0 <= t < ts.len() implies ((#[trigger] ts[t])@.intersect(sub@).len() == k
                <==> exists|j: int| 0 <= j < idx.len() && idx[j] == t) by {
                if t < l {
                    assert(d[t] == ts[t]);
                    if d[t]@.intersect(sub@).len() == k {
                        let j = choose|j: int| 0 <= j < idd.len() && idd[j] == t;
                        assert(idx[j] == t);
                    }
                    if exists|j: int| 0 <= j < idx.len() && idx[j] == t {
                        let j = choose|j: int| 0 <= j < idx.len() && idx[j] == t;
                        assert(j < idd.len());
                        assert(idd[j] == t);
                    }
                } else {
                    assert(idx[idx.len() - 1] == t);
                }
            }
            assert forall|j: int| 0 <= j < idx.len() implies 0 <= #[trigger] idx[j] < ts.len() && m[j] == ts[idx[j]] by {
                if j < idd.len() {
                    assert(idx[j] == idd[j]);
                    assert(md[j] == d[idd[j]]);
                }
            }
            assert(picks_meeting(ts, sub, k, idx, m));
        } else {
            assert(m == md);
            assert forall|t: int| 0 <= t < ts.len() implies ((#[trigger] ts[t])@.intersect(sub@).len() == k
                <==> exists|j: int| 0 <= j < idd.len() && idd[j] == t) by {
                if t < l {
                    assert(d[t] == ts[t]);
                } else {
                    if exists|j: int| 0 <= j < idd.len() && idd[j] == t {
                        let j = choose|j: int| 0 <= j < idd.len() && idd[j] == t;
                        assert(idd[j] < d.len());
                    }
                }
            }
            assert forall|j: int| 0 <= j < idd.len() implies 0 <= #[trigger] idd[j] < ts.len() && m[j] == ts[idd[j]] by {
                assert(d[idd[j]] == ts[idd[j]]);
            }
            assert(picks_meeting(ts, sub, k, idd, m));
        }
    }
}

/// `idx` picks out, in increasing order, every position of `subs` whose subsquare some
/// transversal of `ts` meets in exactly k cells, and `g` lists those subsquares.
pub open spec fn picks_groups(subs: Seq<BitSet128>, ts: Seq<BitSet128>, k: nat, idx: Seq<int>, g: Seq<(BitSet128, Seq<BitSet128>)>) -> bool {
    &&& idx.len() == g.len()
    &&& forall|i: int| 0 <= i < idx.len() ==> 0 <= #[trigger] idx[i] < subs.len() && g[i].0 == subs[idx[i]]
    &&& forall|i1: int, i2: int| 0 <= i1 < i2 < idx.len() ==> #[trigger] idx[i1] < #[trigger] idx[i2]
    &&& forall|a: int| 0 <= a < subs.len() ==> ((exists|t: int| 0 <= t < ts.len() && (#[trigger] ts[t])@.intersect((#[trigger] subs[a])@).len() == k)
        <==> exists|i: int| 0 <= i < idx.len() && idx[i] == a)
}

/// The groups come in the order of `subs`: each position of `subs` whose subsquare some
/// transversal meets in exactly k cells gives one group, and no other position gives one.
pub proof fn lemma_subtransversal_groups_in_order(subs: Seq<BitSet128>, ts: Seq<BitSet128>, k: nat)
    ensures
        exists|idx: Seq<int>| #[trigger] picks_groups(subs, ts, k, idx, subtransversal_groups(subs, ts, k)),
    decreases subs.len(),
{
    let g = subtransversal_groups(subs, ts, k);
    if subs.len() == 0 {
        assert(picks_groups(subs, ts, k, Seq::empty(), g));
    } else {
        let d = subs.drop_last();
        lemma_subtransversal_groups_in_order(d, ts, k);
        let gd = subtransversal_groups(d, ts, k);
        let idd = choose|idx: Seq<int>| #[trigger] picks_groups(d, ts, k, idx, gd);
        let l = subs.len() - 1;
        let last = subs.last();
        lemma_meeting(ts, last, k);
        let m = meeting(ts, last, k);
        let met = exists|t: int| 0 <= t < ts.len() && (#[trigger] ts[t])@.intersect((#[trigger] subs[l])@).len() == k;
        assert(met <==> m.len() > 0) by {
            if met {
                let t = choose|t: int| 0 <= t < ts.len() && (#[trigger] ts[t])@.intersect((#[trigger] subs[l])@).len() == k;
                assert(m.contains(ts[t]));
            }
            if m.len() > 0 {
                assert(ts.contains(m[0]));
                let t = choose|t: int| 0 <= t < ts.len() && ts[t] == m[0];
                assert(ts[t]@.intersect(subs[l]@).len() == k);
            }
        }
        let idx = if m.len() > 0 { idd.push(l) } else { idd };
        assert forall|a: int| 0 <= a < subs.len() implies ((exists|t: int| 0 <= t < ts.len() && (#[trigger] ts[t])@.intersect((#[trigger] subs[a])@).len() == k)
            <==> exists|i: int| 0 <= i < idx.len() && idx[i] == a) by {
            if a < l {
                assert(d[a] == subs[a]);
                if exists|t: int| 0 <= t < ts.len() && (#[trigger] ts[t])@.intersect((#[trigger] subs[a])@).len() == k {
                    let t = choose|t: int| 0 <= t < ts.len() && (#[trigger] ts[t])@.intersect((#[trigger] subs[a])@).len() == k;
                    assert(ts[t]@.intersect(d[a]@).len() == k);
                    let i = choose|i: int| 0 <= i < idd.len() && idd[i] == a;
                    assert(idx[i] == a);
                }
                if exists|i: int| 0 <= i < idx.len() && idx[i] == a {
                    let i = choose|i: int| 0 <= i < idx.len() && idx[i] == a;
                    assert(i < idd.len());
                    assert(idd[i] == a);
                    let t = choose|t: int| 0 <= t < ts.len() && (#[trigger] ts[t])@.intersect((#[trigger] d[a])@).len() == k;
                    assert(ts[t]@.intersect(subs[a]@).len() == k);
                }
            } else {
                if m.len() > 0 {
                    assert(idx[idx.len() - 1] == a);
                } else {
                    if exists|i: int| 0 <= i < idx.len() && idx[i] == a {
                        let i = choose|i: int| 0 <= i < idx.len() && idx[i] == a;
                        assert(idd[i] < d.len());
                    }
                }
            }
        }
        assert forall|i: int| 0 <= i < idx.len() implies 0 <= #[trigger] idx[i] < subs.len() && g[i].0 == subs[idx[i]] by {
            if i < idd.len() {
                assert(idx[i] == idd[i]);
                assert(g[i] == gd[i]);
                assert(d[idd[i]] == subs[idd[i]]);
            } else {
                assert(g[i] == (last, m));
            }
        }
        assert(picks_groups(subs, ts, k, idx, g));
    }
}

} // verus!
