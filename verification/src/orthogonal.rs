//! Orthogonal mates of a Latin square, built from N pairwise disjoint transversals.
use vstd::prelude::*;
use crate::latin_square::{LatinSquare, is_latin, grid, lemma_grid, row_has, col_has, are_orthogonal, pair_occurs};
use crate::set_util::{index_of, lemma_perm_surjective};

use crate::cycles::{lex_lt, seqs, strictly_sorted};
use crate::cycle_types::{is_line, lemma_position_of};
use crate::transversal::{col_of, is_transversal, transversal_cells};
use crate::bitset::BitSet128;

verus! {

/// Transversal t comes before u: first by the column of its cell in row 1, then in
/// value order.
pub open spec fn key_lt(s: Seq<Seq<u8>>, t: Seq<usize>, u: Seq<usize>) -> bool {
    col_of(s, 1, t[1] as int) < col_of(s, 1, u[1] as int)
        || (col_of(s, 1, t[1] as int) == col_of(s, 1, u[1] as int) && lex_lt(t, u))
}

/// No cell lies in both transversals: they pick different values in every row.
pub open spec fn are_disjoint(t: Seq<usize>, u: Seq<usize>, n: nat) -> bool {
    forall|i: int| 0 <= i < n ==> #[trigger] t[i] != u[i]
}

/// The first transversals of a set of pairwise disjoint ones, transversal k through
/// cell (0, k).
pub open spec fn is_partial_mate(s: Seq<Seq<u8>>, n: nat, tup: Seq<Seq<usize>>) -> bool {
    &&& tup.len() <= n
    &&& forall|k: int| 0 <= k < tup.len() ==> #[trigger] is_transversal(s, n, tup[k]) && col_of(s, 0, tup[k][0] as int) == k
    &&& forall|k: int, l: int| 0 <= k < l < tup.len() ==> are_disjoint(#[trigger] tup[k], #[trigger] tup[l], n)
}

/// n pairwise disjoint transversals, transversal k through cell (0, k): they split the
/// cells, and numbering them gives an orthogonal mate.
pub open spec fn is_mate_tuple(s: Seq<Seq<u8>>, n: nat, tup: Seq<Seq<usize>>) -> bool {
    tup.len() == n && is_partial_mate(s, n, tup)
}

/// `a` comes before `b`: they agree on the first k transversals and transversal k of `a`
/// comes first.
pub open spec fn tuple_lt(s: Seq<Seq<u8>>, a: Seq<Seq<usize>>, b: Seq<Seq<usize>>) -> bool {
    exists|k: int| 0 <= k < a.len() && k < b.len() && a.take(k) == b.take(k) && #[trigger] key_lt(s, a[k], b[k])
}

/// The transversals that a list of positions in `tl` names.
pub open spec fn picked(tl: Seq<Seq<usize>>, idx: Seq<usize>) -> Seq<Seq<usize>> {
    Seq::new(idx.len(), |k: int| tl[idx[k] as int])
}

/// `ords[k]` lists the positions in `tl` of the transversals through cell (0, k), each
/// once, in key order.
pub open spec fn groups_ordered(s: Seq<Seq<u8>>, n: nat, tl: Seq<Seq<usize>>, ords: Seq<Seq<usize>>) -> bool {
    &&& ords.len() == n
    &&& forall|k: int, q: int| 0 <= k < n && 0 <= q < ords[k].len() ==> #[trigger] ords[k][q] < tl.len()
        && col_of(s, 0, tl[ords[k][q] as int][0] as int) == k
    &&& forall|k: int, q1: int, q2: int| 0 <= k < n && 0 <= q1 < q2 < ords[k].len()
        ==> key_lt(s, tl[#[trigger] ords[k][q1] as int], tl[#[trigger] ords[k][q2] as int])
    &&& forall|k: int, x: int| 0 <= k < n && 0 <= x < tl.len() && col_of(s, 0, tl[x][0] as int) == k
        ==> #[trigger] listed(ords[k], x)
}

/// `l` holds the position `x`.
pub open spec fn listed(l: Seq<usize>, x: int) -> bool {
    exists|q: int| 0 <= q < l.len() && l[q] == x
}

/// `m` numbers the cells of the transversals: the cell of transversal k in row i holds k.
pub open spec fn is_mate_of(s: Seq<Seq<u8>>, m: Seq<Seq<u8>>, n: nat, tup: Seq<Seq<usize>>) -> bool {
    forall|k: int, i: int| 0 <= k < n && 0 <= i < n ==> #[trigger] m[i][col_of(s, i, tup[k][i] as int)] as int == k
}

/// Cell (i, c) lies on one of the transversals.
pub open spec fn on_some(s: Seq<Seq<u8>>, n: nat, tup: Seq<Seq<usize>>, i: int, c: int) -> bool {
    exists|q: int| 0 <= q < n && #[trigger] col_of(s, i, tup[q][i] as int) == c
}

/// Some position before q of `l` holds `v`.
pub open spec fn came_before(l: Seq<usize>, q: int, v: int) -> bool {
    exists|q2: int| 0 <= q2 < q && l[q2] == v
}

/// `tl` lists every transversal once, in lexicographic order.
pub open spec fn all_transversals(s: Seq<Seq<u8>>, n: nat, tl: Seq<Seq<usize>>) -> bool {
    &&& strictly_sorted(tl)
    &&& forall|m: int| 0 <= m < tl.len() ==> #[trigger] is_transversal(s, n, tl[m])
    &&& forall|t: Seq<usize>| #[trigger] is_transversal(s, n, t) ==> tl.contains(t)
}

impl<const N: usize> LatinSquare<N> {
    /// For each k, the positions of the transversals through cell (0, k), by the column of
    /// their cell in row 1 and then in value order.
    fn ordered_groups(&self, ts: &Vec<Vec<usize>>, cols: &[[u8; N]; N]) -> (ords: Vec<Vec<usize>>)
        requires
            2 <= N,
            all_transversals(self@, N as nat, seqs(ts@)),
            forall|i: int| 0 <= i < N ==> #[trigger] is_line(self@[i], N as nat),
            forall|w: int, i: int| 0 <= w < N && 0 <= i < N ==> #[trigger] cols@[w]@[i] as int == col_of(self@, i, w),
        ensures
            groups_ordered(self@, N as nat, seqs(ts@), seqs(ords@)),
    {
        let ghost s = self@;
        let ghost tl = seqs(ts@);
        let mut ords: Vec<Vec<usize>> = Vec::new();
        let mut k: usize = 0;
        while k < N
            invariant
                2 <= N,
                k <= N,
                s == self@,
                tl == seqs(ts@),
                all_transversals(s, N as nat, tl),
                forall|i: int| 0 <= i < N ==> #[trigger] is_line(s[i], N as nat),
                forall|w: int, i: int| 0 <= w < N && 0 <= i < N ==> #[trigger] cols@[w]@[i] as int == col_of(s, i, w),
                ords@.len() == k,
                forall|g: int, q: int| 0 <= g < k && 0 <= q < ords@[g]@.len() ==> #[trigger] ords@[g]@[q] < tl.len()
                    && col_of(s, 0, tl[ords@[g]@[q] as int][0] as int) == g,
                forall|g: int, q1: int, q2: int| 0 <= g < k && 0 <= q1 < q2 < ords@[g]@.len()
                    ==> key_lt(s, tl[#[trigger] ords@[g]@[q1] as int], tl[#[trigger] ords@[g]@[q2] as int]),
                forall|g: int, x: int| 0 <= g < k && 0 <= x < tl.len() && col_of(s, 0, tl[x][0] as int) == g
                    ==> #[trigger] listed(ords@[g]@, x),
            decreases N - k,
        {
            let mut list: Vec<usize> = Vec::new();
            let mut c: usize = 0;
            proof {
                lemma_position_of(s[1], N as nat);
                assert forall|x: int| 0 <= x < tl.len() implies #[trigger] col_of(s, 1, tl[x][1] as int) >= 0 by {
                    assert(is_transversal(s, N as nat, tl[x]));
                    assert(tl[x][1] < N);
                }
            }
            while c < N
                invariant
                    2 <= N,
                    k < N,
                    c <= N,
                    s == self@,
                    tl == seqs(ts@),
                    all_transversals(s, N as nat, tl),
                    forall|i: int| 0 <= i < N ==> #[trigger] is_line(s[i], N as nat),
                    forall|w: int, i: int| 0 <= w < N && 0 <= i < N ==> #[trigger] cols@[w]@[i] as int == col_of(s, i, w),
                    forall|q: int| 0 <= q < list@.len() ==> #[trigger] list@[q] < tl.len()
                        && col_of(s, 0, tl[list@[q] as int][0] as int) == k
                        && col_of(s, 1, tl[list@[q] as int][1] as int) < c,
                    forall|q1: int, q2: int| 0 <= q1 < q2 < list@.len()
                        ==> key_lt(s, tl[#[trigger] list@[q1] as int], tl[#[trigger] list@[q2] as int]),
                    forall|x: int| 0 <= x < tl.len() && col_of(s, 0, tl[x][0] as int) == k && col_of(s, 1, tl[x][1] as int) < c
                        ==> #[trigger] listed(list@, x),
                decreases N - c,
            {
                let ghost start = list@.len();
                let mut x: usize = 0;
                while x < ts.len()
                    invariant
                        2 <= N,
                        k < N,
                        c < N,
                        x <= ts@.len(),
                        s == self@,
                        tl == seqs(ts@),
                        start <= list@.len(),
                        all_transversals(s, N as nat, tl),
                        forall|i: int| 0 <= i < N ==> #[trigger] is_line(s[i], N as nat),
                        forall|w: int, i: int| 0 <= w < N && 0 <= i < N ==> #[trigger] cols@[w]@[i] as int == col_of(s, i, w),
                        forall|q: int| 0 <= q < start ==> #[trigger] list@[q] < tl.len()
                            && col_of(s, 0, tl[list@[q] as int][0] as int) == k
                            && col_of(s, 1, tl[list@[q] as int][1] as int) < c,
                        forall|q: int| start <= q < list@.len() ==> #[trigger] list@[q] < x
                            && col_of(s, 0, tl[list@[q] as int][0] as int) == k
                            && col_of(s, 1, tl[list@[q] as int][1] as int) == c,
                        forall|q1: int, q2: int| 0 <= q1 < q2 < list@.len()
                            ==> key_lt(s, tl[#[trigger] list@[q1] as int], tl[#[trigger] list@[q2] as int]),
                        forall|y: int| 0 <= y < tl.len() && col_of(s, 0, tl[y][0] as int) == k && col_of(s, 1, tl[y][1] as int) < c
                            ==> #[trigger] listed(list@, y),
                        forall|y: int| 0 <= y < x && col_of(s, 0, tl[y][0] as int) == k && col_of(s, 1, tl[y][1] as int) == c
                            ==> #[trigger] listed(list@, y),
                    decreases ts@.len() - x,
                {
                    let t = &ts[x];
                    proof {
                        assert(tl[x as int] == t@);
                        assert(is_transversal(s, N as nat, t@));
                        assert(t@[0] < N && t@[1] < N);
                    }
                    if cols[t[0]][0] as usize == k && cols[t[1]][1] as usize == c {
                        let ghost before = list@;
                        list.push(x);
                        proof {
                            assert forall|q1: int, q2: int| 0 <= q1 < q2 < list@.len()
                                implies key_lt(s, tl[#[trigger] list@[q1] as int], tl[#[trigger] list@[q2] as int]) by {
                                if q2 == before.len() {
                                    let e = list@[q1] as int;
                                    assert(list@[q1] == before[q1]);
                                    if q1 >= start {
                                        assert(e < x);
                                        assert(lex_lt(tl[e], tl[x as int]));
                                    }
                                } else {
                                    assert(list@[q1] == before[q1] && list@[q2] == before[q2]);
                                }
                            }
                            assert forall|y: int| 0 <= y < x + 1 && col_of(s, 0, tl[y][0] as int) == k && col_of(s, 1, tl[y][1] as int) == c
                                implies #[trigger] listed(list@, y) by {
                                if y == x {
                                    assert(list@[before.len() as int] == y);
                                } else {
                                    assert(listed(before, y));
                                    let q = choose|q: int| 0 <= q < before.len() && before[q] == y;
                                    assert(list@[q] == y);
                                }
                            }
                            assert forall|y: int| 0 <= y < tl.len() && col_of(s, 0, tl[y][0] as int) == k && col_of(s, 1, tl[y][1] as int) < c
                                implies #[trigger] listed(list@, y) by {
                                assert(listed(before, y));
                                let q = choose|q: int| 0 <= q < before.len() && before[q] == y;
                                assert(list@[q] == y);
                            }
                        }
                    }
                    x += 1;
                }
                c += 1;
            }
            proof {
                assert forall|x: int| 0 <= x < tl.len() && col_of(s, 0, tl[x][0] as int) == k
                    implies #[trigger] listed(list@, x) by {
                    assert(is_transversal(s, N as nat, tl[x]));
                    assert(tl[x][1] < N);
                    lemma_position_of(s[1], N as nat);
                }
            }
            let ghost before = ords@;
            ords.push(list);
            proof {
                assert forall|g: int, q: int| 0 <= g < k + 1 && 0 <= q < ords@[g]@.len() implies #[trigger] ords@[g]@[q] < tl.len()
                    && col_of(s, 0, tl[ords@[g]@[q] as int][0] as int) == g by {
                    if g < k {
                        assert(ords@[g] == before[g]);
                    }
                }
                assert forall|g: int, q1: int, q2: int| 0 <= g < k + 1 && 0 <= q1 < q2 < ords@[g]@.len()
                    implies key_lt(s, tl[#[trigger] ords@[g]@[q1] as int], tl[#[trigger] ords@[g]@[q2] as int]) by {
                    if g < k {
                        assert(ords@[g] == before[g]);
                    }
                }
                assert forall|g: int, x: int| 0 <= g < k + 1 && 0 <= x < tl.len() && col_of(s, 0, tl[x][0] as int) == g
                    implies #[trigger] listed(ords@[g]@, x) by {
                    if g < k {
                        assert(ords@[g] == before[g]);
                        assert(listed(before[g]@, x));
                        let q = choose|q: int| 0 <= q < before[g]@.len() && before[g]@[q] == x;
                        assert(ords@[g]@[q] == x);
                    } else {
                        assert(listed(list@, x));
                        let q = choose|q: int| 0 <= q < list@.len() && list@[q] == x;
                        assert(ords@[g]@[q] == x);
                    }
                }
            }
            k += 1;
        }
        proof {
            let o = seqs(ords@);
            assert forall|g: int, q: int| 0 <= g < N && 0 <= q < o[g].len() implies #[trigger] o[g][q] < tl.len()
                && col_of(s, 0, tl[o[g][q] as int][0] as int) == g by {
                assert(o[g] == ords@[g]@);
            }
            assert forall|g: int, q1: int, q2: int| 0 <= g < N && 0 <= q1 < q2 < o[g].len()
                implies key_lt(s, tl[#[trigger] o[g][q1] as int], tl[#[trigger] o[g][q2] as int]) by {
                assert(o[g] == ords@[g]@);
                assert(key_lt(s, tl[ords@[g]@[q1] as int], tl[ords@[g]@[q2] as int]));
            }
            assert forall|g: int, x: int| 0 <= g < N && 0 <= x < tl.len() && col_of(s, 0, tl[x][0] as int) == g
                implies #[trigger] listed(o[g], x) by {
                assert(o[g] == ords@[g]@);
                assert(listed(ords@[g]@, x));
                let q = choose|q: int| 0 <= q < ords@[g]@.len() && ords@[g]@[q] == x;
                assert(o[g][q] == x);
            }
        }
        ords
    }

    /// Whether transversal `x` differs in every row from each of the chosen ones.
    fn disjoint_from_chosen(ts: &Vec<Vec<usize>>, x: usize, chosen: &Vec<usize>) -> (r: bool)
        requires
            x < ts@.len(),
            ts@[x as int]@.len() == N,
            forall|k: int| 0 <= k < chosen@.len() ==> #[trigger] chosen@[k] < ts@.len() && ts@[chosen@[k] as int]@.len() == N,
        ensures
            r <==> forall|l: int| 0 <= l < chosen@.len() ==> #[trigger] are_disjoint(ts@[x as int]@, ts@[chosen@[l] as int]@, N as nat),
    {
        let mut l: usize = 0;
        while l < chosen.len()
            invariant
                l <= chosen@.len(),
                x < ts@.len(),
                ts@[x as int]@.len() == N,
                forall|k: int| 0 <= k < chosen@.len() ==> #[trigger] chosen@[k] < ts@.len() && ts@[chosen@[k] as int]@.len() == N,
                forall|k: int| 0 <= k < l ==> #[trigger] are_disjoint(ts@[x as int]@, ts@[chosen@[k] as int]@, N as nat),
            decreases chosen@.len() - l,
        {
            assert(chosen@[l as int] < ts@.len());
            let other = &ts[chosen[l]];
            let mine = &ts[x];
            let mut i: usize = 0;
            while i < N
                invariant
                    i <= N,
                    l < chosen@.len(),
                    x < ts@.len(),
                    mine@ == ts@[x as int]@,
                    other@ == ts@[chosen@[l as int] as int]@,
                    mine@.len() == N && other@.len() == N,
                    forall|k: int| 0 <= k < chosen@.len() ==> #[trigger] chosen@[k] < ts@.len() && ts@[chosen@[k] as int]@.len() == N,
                    forall|k: int| 0 <= k < l ==> #[trigger] are_disjoint(ts@[x as int]@, ts@[chosen@[k] as int]@, N as nat),
                    forall|j: int| 0 <= j < i ==> #[trigger] mine@[j] != other@[j],
                decreases N - i,
            {
                if mine[i] == other[i] {
                    proof {
                        assert(mine@[i as int] == other@[i as int]);
                        assert(!are_disjoint(ts@[x as int]@, ts@[chosen@[l as int] as int]@, N as nat));
                    }
                    return false;
                }
                i += 1;
            }
            l += 1;
        }
        true
    }

    /// Appends, in order, every set of N pairwise disjoint transversals whose first ones
    /// are the transversals at the positions `chosen`.
    #[verifier::rlimit(40)]
    fn extend_mates(&self, ts: &Vec<Vec<usize>>, ords: &Vec<Vec<usize>>, chosen: Vec<usize>, out: &mut Vec<Vec<usize>>)
        requires
            2 <= N,
            all_transversals(self@, N as nat, seqs(ts@)),
            groups_ordered(self@, N as nat, seqs(ts@), seqs(ords@)),
            forall|k: int| 0 <= k < chosen@.len() ==> #[trigger] chosen@[k] < ts@.len(),
            is_partial_mate(self@, N as nat, picked(seqs(ts@), chosen@)),
        ensures
            final(out)@.len() >= old(out)@.len(),
            final(out)@.take(old(out)@.len() as int) == old(out)@,
            forall|m: int| old(out)@.len() <= m < final(out)@.len() ==> #[trigger] final(out)@[m]@.len() == N,
            forall|m: int, k: int| old(out)@.len() <= m < final(out)@.len() && 0 <= k < N ==> #[trigger] final(out)@[m]@[k] < ts@.len(),
            forall|m: int| old(out)@.len() <= m < final(out)@.len() ==> #[trigger] is_mate_tuple(self@, N as nat, picked(seqs(ts@), final(out)@[m]@)),
            forall|m: int| old(out)@.len() <= m < final(out)@.len()
                ==> #[trigger] picked(seqs(ts@), final(out)@[m]@).take(chosen@.len() as int) == picked(seqs(ts@), chosen@),
            forall|a: int, b: int| old(out)@.len() <= a < b < final(out)@.len()
                ==> tuple_lt(self@, picked(seqs(ts@), #[trigger] final(out)@[a]@), picked(seqs(ts@), #[trigger] final(out)@[b]@)),
            forall|tup: Seq<Seq<usize>>| is_mate_tuple(self@, N as nat, tup)
                && #[trigger] tup.take(chosen@.len() as int) == picked(seqs(ts@), chosen@)
                ==> exists|m: int| old(out)@.len() <= m < final(out)@.len() && picked(seqs(ts@), final(out)@[m]@) == tup,
        decreases N - chosen@.len(),
    {
        let ghost start = out@.len() as int;
        let ghost tl = seqs(ts@);
        let ghost s = self@;
        let ghost pp = picked(tl, chosen@);
        let len = chosen.len();
        if len == N {
            let ghost c = chosen@;
            out.push(chosen);
            proof {
                assert(out@.take(start) =~= old(out)@);
                assert(pp.take(N as int) =~= pp);
                assert forall|tup: Seq<Seq<usize>>| is_mate_tuple(s, N as nat, tup) && #[trigger] tup.take(N as int) == pp
                    implies exists|m: int| start <= m < out@.len() && picked(tl, out@[m]@) == tup by {
                    assert(tup =~= tup.take(N as int));
                    assert(picked(tl, out@[start]@) == tup);
                }
            }
            return;
        }
        let ghost list = seqs(ords@)[len as int];
        assert(ords@[len as int]@ == list);
        let mut q: usize = 0;
        while q < ords[len].len()
            invariant
                2 <= N,
                len == chosen@.len() < N,
                start == old(out)@.len(),
                tl == seqs(ts@),
                s == self@,
                pp == picked(tl, chosen@),
                list == ords@[len as int]@,
                q <= list.len(),
                all_transversals(s, N as nat, tl),
                groups_ordered(s, N as nat, tl, seqs(ords@)),
                forall|k: int| 0 <= k < chosen@.len() ==> #[trigger] chosen@[k] < ts@.len(),
                is_partial_mate(s, N as nat, pp),
                out@.len() >= start,
                out@.take(start) == old(out)@,
                forall|m: int| start <= m < out@.len() ==> #[trigger] out@[m]@.len() == N,
                forall|m: int, k: int| start <= m < out@.len() && 0 <= k < N ==> #[trigger] out@[m]@[k] < ts@.len(),
                forall|m: int| start <= m < out@.len() ==> #[trigger] is_mate_tuple(s, N as nat, picked(tl, out@[m]@)),
                forall|m: int| start <= m < out@.len() ==> #[trigger] picked(tl, out@[m]@).take(len as int) == pp,
                forall|m: int| start <= m < out@.len() ==> #[trigger] came_before(list, q as int, out@[m]@[len as int] as int),
                forall|a: int, b: int| start <= a < b < out@.len()
                    ==> tuple_lt(s, picked(tl, #[trigger] out@[a]@), picked(tl, #[trigger] out@[b]@)),
                forall|tup: Seq<Seq<usize>>, q2: int| 0 <= q2 < q && is_mate_tuple(s, N as nat, tup)
                    && #[trigger] tup.take(len as int) == pp && tup[len as int] == tl[#[trigger] list[q2] as int]
                    ==> exists|m: int| start <= m < out@.len() && picked(tl, out@[m]@) == tup,
            decreases list.len() - q,
        {
            let x = ords[len][q];
            proof {
                assert(list[q as int] == x);
                assert(seqs(ords@)[len as int][q as int] == x);
                assert(x < tl.len() && col_of(s, 0, tl[x as int][0] as int) == len);
                assert(is_transversal(s, N as nat, tl[x as int]));
                assert(tl[x as int] == ts@[x as int]@);
                assert forall|k: int| 0 <= k < chosen@.len() implies #[trigger] chosen@[k] < ts@.len() && ts@[chosen@[k] as int]@.len() == N by {
                    assert(pp[k] == tl[chosen@[k] as int]);
                    assert(tl[chosen@[k] as int] == ts@[chosen@[k] as int]@);
                    assert(is_transversal(s, N as nat, pp[k]));
                }
            }
            let ok = Self::disjoint_from_chosen(ts, x, &chosen);
            if ok {
                let mut next = chosen.clone();
                next.push(x);
                let ghost np = picked(tl, next@);
                proof {
                    assert(next@ =~= chosen@.push(x));
                    assert(np =~= pp.push(tl[x as int]));
                    assert forall|k: int, l: int| 0 <= k < l < np.len() implies are_disjoint(#[trigger] np[k], #[trigger] np[l], N as nat) by {
                        if l == len {
                            assert(are_disjoint(ts@[x as int]@, ts@[chosen@[k] as int]@, N as nat));
                            assert forall|i: int| 0 <= i < N implies #[trigger] np[k][i] != np[l][i] by {
                                assert(ts@[x as int]@[i] != ts@[chosen@[k] as int]@[i]);
                            }
                        } else {
                            assert(np[k] == pp[k] && np[l] == pp[l]);
                        }
                    }
                    assert forall|k: int| 0 <= k < np.len() implies #[trigger] is_transversal(s, N as nat, np[k]) && col_of(s, 0, np[k][0] as int) == k by {
                        if k < len {
                            assert(np[k] == pp[k]);
                        }
                    }
                    assert forall|k: int| 0 <= k < next@.len() implies #[trigger] next@[k] < ts@.len() by {
                        if k < len {
                            assert(next@[k] == chosen@[k]);
                        }
                    }
                }
                let ghost before = out@;
                self.extend_mates(ts, ords, next, out);
                proof {
                    assert(out@.take(before.len() as int) == before);
                    assert(out@.take(start) =~= old(out)@) by {
                        assert forall|m: int| 0 <= m < start implies out@.take(start)[m] == old(out)@[m] by {
                            assert(out@.take(before.len() as int)[m] == before[m]);
                            assert(before.take(start)[m] == old(out)@[m]);
                        }
                    }
                    assert forall|m: int| start <= m < out@.len() implies #[trigger] came_before(list, q + 1, out@[m]@[len as int] as int) by {
                        if m < before.len() {
                            assert(out@.take(before.len() as int)[m] == before[m]);
                            assert(out@[m] == before[m]);
                            assert(came_before(list, q as int, before[m]@[len as int] as int));
                            let q2 = choose|q2: int| 0 <= q2 < q && list[q2] == before[m]@[len as int];
                            assert(list[q2] == out@[m]@[len as int]);
                        } else {
                            let pm = picked(tl, out@[m]@);
                            assert(pm.take(len as int + 1) == np);
                            assert(pm.take(len as int + 1)[len as int] == np[len as int]);
                            assert(out@[m]@[len as int] < ts@.len());
                            assert(pm[len as int] == tl[out@[m]@[len as int] as int]);
                            assert(tl[out@[m]@[len as int] as int] == tl[x as int]);
                            if out@[m]@[len as int] != x {
                                let (lo, hi) = if out@[m]@[len as int] < x { (out@[m]@[len as int] as int, x as int) } else { (x as int, out@[m]@[len as int] as int) };
                                assert(lex_lt(tl[lo], tl[hi]));
                                crate::cycles::lemma_lex_trichotomy(tl[lo], tl[hi]);
                            }
                            assert(list[q as int] == out@[m]@[len as int]);
                        }
                    }
                    assert forall|m: int| start <= m < out@.len() implies #[trigger] out@[m]@.len() == N by {
                        if m < before.len() {
                            assert(out@.take(before.len() as int)[m] == before[m]);
                        }
                    }
                    assert forall|m: int, k: int| start <= m < out@.len() && 0 <= k < N implies #[trigger] out@[m]@[k] < ts@.len() by {
                        if m < before.len() {
                            assert(out@.take(before.len() as int)[m] == before[m]);
                        }
                    }
                    assert forall|m: int| start <= m < out@.len() implies #[trigger] is_mate_tuple(s, N as nat, picked(tl, out@[m]@)) by {
                        if m < before.len() {
                            assert(out@.take(before.len() as int)[m] == before[m]);
                        }
                    }
                    assert forall|m: int| start <= m < out@.len() implies #[trigger] picked(tl, out@[m]@).take(len as int) == pp by {
                        if m < before.len() {
                            assert(out@.take(before.len() as int)[m] == before[m]);
                        } else {
                            let pm = picked(tl, out@[m]@);
                            assert(pm.take(len as int + 1) == np);
                            assert(pm.take(len as int) =~= np.take(len as int));
                            assert(np.take(len as int) =~= pp);
                        }
                    }
                    assert forall|a: int, b: int| start <= a < b < out@.len()
                        implies tuple_lt(s, picked(tl, #[trigger] out@[a]@), picked(tl, #[trigger] out@[b]@)) by {
                        if b < before.len() {
                            assert(out@[a] == out@.take(before.len() as int)[a]);
                            assert(out@[b] == out@.take(before.len() as int)[b]);
                        } else if a >= before.len() {
                        } else {
                            assert(out@[a] == out@.take(before.len() as int)[a]);
                            let pa = picked(tl, out@[a]@);
                            let pb = picked(tl, out@[b]@);
                            assert(came_before(list, q as int, before[a]@[len as int] as int));
                            let q2 = choose|q2: int| 0 <= q2 < q && list[q2] == before[a]@[len as int];
                            assert(pa.take(len as int) == pp);
                            assert(pb.take(len as int + 1) == np);
                            assert(pb.take(len as int) =~= np.take(len as int));
                            assert(np.take(len as int) =~= pp);
                            assert(pb.take(len as int + 1)[len as int] == np[len as int]);
                            assert(pa[len as int] == tl[list[q2] as int]);
                            assert(pb[len as int] == tl[list[q as int] as int]);
                            assert(key_lt(s, tl[list[q2] as int], tl[list[q as int] as int]));
                            assert(key_lt(s, pa[len as int], pb[len as int]));
                        }
                    }
                    assert forall|tup: Seq<Seq<usize>>, q2: int| 0 <= q2 < q + 1 && is_mate_tuple(s, N as nat, tup)
                        && #[trigger] tup.take(len as int) == pp && tup[len as int] == tl[#[trigger] list[q2] as int]
                        implies exists|m: int| start <= m < out@.len() && picked(tl, out@[m]@) == tup by {
                        if q2 < q {
                            let m = choose|m: int| start <= m < before.len() && picked(tl, before[m]@) == tup;
                            assert(out@[m] == out@.take(before.len() as int)[m]);
                        } else {
                            assert(tup.take(len as int + 1) =~= np) by {
                                assert forall|r: int| 0 <= r < len + 1 implies tup.take(len as int + 1)[r] == np[r] by {
                                    if r < len {
                                        assert(tup.take(len as int)[r] == pp[r]);
                                    }
                                }
                            }
                        }
                    }
                }
            } else {
                proof {
                    assert forall|m: int| start <= m < out@.len() implies #[trigger] came_before(list, q + 1, out@[m]@[len as int] as int) by {
                        assert(came_before(list, q as int, out@[m]@[len as int] as int));
                    }
                    assert forall|tup: Seq<Seq<usize>>, q2: int| 0 <= q2 < q + 1 && is_mate_tuple(s, N as nat, tup)
                        && #[trigger] tup.take(len as int) == pp && tup[len as int] == tl[#[trigger] list[q2] as int]
                        implies exists|m: int| start <= m < out@.len() && picked(tl, out@[m]@) == tup by {
                        if q2 == q {
                            let l = choose|l: int| 0 <= l < chosen@.len() && !are_disjoint(ts@[x as int]@, ts@[chosen@[l] as int]@, N as nat);
                            assert(tup[l] == tup.take(len as int)[l]);
                            assert(tup[l] == tl[chosen@[l] as int]);
                            assert(are_disjoint(tup[l], tup[len as int], N as nat));
                            assert forall|i: int| 0 <= i < N implies ts@[x as int]@[i] != ts@[chosen@[l] as int]@[i] by {
                                assert(tup[l][i] != tup[len as int][i]);
                            }
                        }
                    }
                }
            }
            q += 1;
        }
        proof {
            assert forall|tup: Seq<Seq<usize>>| is_mate_tuple(s, N as nat, tup) && #[trigger] tup.take(len as int) == pp
                implies exists|m: int| start <= m < out@.len() && picked(tl, out@[m]@) == tup by {
                let t = tup[len as int];
                assert(is_transversal(s, N as nat, t));
                assert(tl.contains(t));
                let xx = choose|xx: int| 0 <= xx < tl.len() && tl[xx] == t;
                assert(col_of(s, 0, tl[xx][0] as int) == len);
                assert(listed(seqs(ords@)[len as int], xx));
                let q2 = choose|q2: int| 0 <= q2 < list.len() && list[q2] == xx;
                assert(tup[len as int] == tl[list[q2] as int]);
            }
        }
    }

    /// The square that numbers the cells of the chosen transversals.
    #[verifier::rlimit(30)]
    fn mate_square(&self, ts: &Vec<Vec<usize>>, cols: &[[u8; N]; N], idx: &Vec<usize>) -> (r: Self)
        requires
            2 <= N,
            all_transversals(self@, N as nat, seqs(ts@)),
            forall|i: int| 0 <= i < N ==> #[trigger] is_line(self@[i], N as nat),
            forall|w: int, i: int| 0 <= w < N && 0 <= i < N ==> #[trigger] cols@[w]@[i] as int == col_of(self@, i, w),
            idx@.len() == N,
            forall|k: int| 0 <= k < N ==> #[trigger] idx@[k] < ts@.len(),
            is_mate_tuple(self@, N as nat, picked(seqs(ts@), idx@)),
        ensures
            is_mate_of(self@, r@, N as nat, picked(seqs(ts@), idx@)),
            are_orthogonal(self@, r@, N as nat),
    {
        let ghost s = self@;
        let ghost tup = picked(seqs(ts@), idx@);
        proof {
            use_type_invariant(self);
            Self::lemma_latin(self);
            assert forall|k: int| 0 <= k < N implies #[trigger] tup[k] == ts@[idx@[k] as int]@ by {}
        }
        let mut rows = [[0u8; N]; N];
        let mut k: usize = 0;
        while k < N
            invariant
                2 <= N <= 256,
                k <= N,
                s == self@,
                tup == picked(seqs(ts@), idx@),
                idx@.len() == N,
                forall|q: int| 0 <= q < N ==> #[trigger] idx@[q] < ts@.len(),
                forall|q: int| 0 <= q < N ==> #[trigger] tup[q] == ts@[idx@[q] as int]@,
                is_mate_tuple(s, N as nat, tup),
                forall|i: int| 0 <= i < N ==> #[trigger] is_line(s[i], N as nat),
                forall|w: int, i: int| 0 <= w < N && 0 <= i < N ==> #[trigger] cols@[w]@[i] as int == col_of(s, i, w),
                forall|q: int, i: int| 0 <= q < k && 0 <= i < N ==> #[trigger] rows@[i]@[col_of(s, i, tup[q][i] as int)] as int == q,
            decreases N - k,
        {
            let t = &ts[idx[k]];
            let mut i: usize = 0;
            while i < N
                invariant
                    2 <= N <= 256,
                    k < N,
                    i <= N,
                    s == self@,
                    t@ == tup[k as int],
                    is_mate_tuple(s, N as nat, tup),
                    forall|i: int| 0 <= i < N ==> #[trigger] is_line(s[i], N as nat),
                    forall|w: int, i: int| 0 <= w < N && 0 <= i < N ==> #[trigger] cols@[w]@[i] as int == col_of(s, i, w),
                    forall|q: int, j: int| ((0 <= q < k && 0 <= j < N) || (q == k && 0 <= j < i))
                        ==> #[trigger] rows@[j]@[col_of(s, j, tup[q][j] as int)] as int == q,
                decreases N - i,
            {
                proof {
                    assert(is_transversal(s, N as nat, tup[k as int]));
                    assert(t@[i as int] < N);
                    lemma_position_of(s[i as int], N as nat);
                }
                let c = cols[t[i]][i] as usize;
                let ghost before = rows;
                rows[i][c] = k as u8;
                proof {
                    assert forall|q: int, j: int| ((0 <= q < k && 0 <= j < N) || (q == k && 0 <= j < i + 1))
                        implies #[trigger] rows@[j]@[col_of(s, j, tup[q][j] as int)] as int == q by {
                        if !(q == k && j == i) {
                            assert(is_transversal(s, N as nat, tup[q]));
                            assert(tup[q][j] < N);
                            lemma_position_of(s[j], N as nat);
                            if j == i {
                                assert(are_disjoint(tup[q], tup[k as int], N as nat));
                                assert(tup[q][j] != tup[k as int][j]);
                                assert(col_of(s, j, tup[q][j] as int) != c);
                            }
                            assert(rows@[j]@[col_of(s, j, tup[q][j] as int)] == before@[j]@[col_of(s, j, tup[q][j] as int)]);
                        }
                    }
                }
                i += 1;
            }
            k += 1;
        }
        proof {
            lemma_grid(rows);
            let g = grid(rows);
            let n = N as nat;
            // every cell of row i belongs to one of the transversals
            assert forall|i: int, c: int| 0 <= i < N && 0 <= c < N implies #[trigger] on_some(s, n, tup, i, c) by {
                lemma_position_of(s[i], n);
                let f = Seq::new(n, |q: int| col_of(s, i, tup[q][i] as int) as usize);
                assert forall|q: int| 0 <= q < n implies #[trigger] f[q] < n by {
                    assert(is_transversal(s, n, tup[q]));
                    assert(tup[q][i] < n);
                }
                assert forall|q1: int, q2: int| 0 <= q1 < n && 0 <= q2 < n && q1 != q2 implies #[trigger] f[q1] != #[trigger] f[q2] by {
                    assert(is_transversal(s, n, tup[q1]) && is_transversal(s, n, tup[q2]));
                    if q1 < q2 {
                        assert(are_disjoint(tup[q1], tup[q2], n));
                    } else {
                        assert(are_disjoint(tup[q2], tup[q1], n));
                    }
                    assert(tup[q1][i] != tup[q2][i]);
                    assert(s[i][col_of(s, i, tup[q1][i] as int)] as int == tup[q1][i]);
                    assert(s[i][col_of(s, i, tup[q2][i] as int)] as int == tup[q2][i]);
                }
                lemma_perm_surjective(f, n);
                let q = index_of(f, c);
                assert(0 <= q < n && f[q] as int == c);
                assert(is_transversal(s, n, tup[q]));
                assert(tup[q][i] < n);
                assert(0 <= col_of(s, i, tup[q][i] as int) < n);
                assert(f[q] as int == col_of(s, i, tup[q][i] as int));
                assert(col_of(s, i, tup[q][i] as int) == c);
            }
            assert forall|i: int, c: int| 0 <= i < N && 0 <= c < N implies #[trigger] g[i][c] < N by {
                assert(on_some(s, n, tup, i, c));
                let q = choose|q: int| 0 <= q < N && #[trigger] col_of(s, i, tup[q][i] as int) == c;
                assert(rows@[i]@[col_of(s, i, tup[q][i] as int)] as int == q);
            }
            assert forall|i: int, v: int| 0 <= i < N && 0 <= v < N implies #[trigger] row_has(g, i, v) by {
                assert(is_transversal(s, n, tup[v]));
                assert(tup[v][i] < n);
                lemma_position_of(s[i], n);
                let c = col_of(s, i, tup[v][i] as int);
                assert(rows@[i]@[c] as int == v);
                assert(g[i][c] as int == v);
            }
            assert forall|c: int, v: int| 0 <= c < N && 0 <= v < N implies #[trigger] col_has(g, c, v) by {
                let t = tup[v];
                assert(is_transversal(s, n, t));
                let f = Seq::new(n, |i: int| col_of(s, i, t[i] as int) as usize);
                assert forall|i: int| 0 <= i < n implies #[trigger] f[i] < n by {
                    assert(t[i] < n);
                    lemma_position_of(s[i], n);
                }
                assert forall|i1: int, i2: int| 0 <= i1 < n && 0 <= i2 < n && i1 != i2 implies #[trigger] f[i1] != #[trigger] f[i2] by {
                    assert(t[i1] < n && t[i2] < n);
                    lemma_position_of(s[i1], n);
                    lemma_position_of(s[i2], n);
                    if i1 < i2 {
                        assert(col_of(s, i1, t[i1] as int) != col_of(s, i2, t[i2] as int));
                    } else {
                        assert(col_of(s, i2, t[i2] as int) != col_of(s, i1, t[i1] as int));
                    }
                }
                lemma_perm_surjective(f, n);
                let i = index_of(f, c);
                assert(0 <= i < n && f[i] as int == c);
                assert(t[i] < n);
                lemma_position_of(s[i], n);
                assert(f[i] as int == col_of(s, i, t[i] as int));
                assert(rows@[i]@[col_of(s, i, tup[v][i] as int)] as int == v);
                assert(g[i][c] as int == v);
            }
            assert(is_latin(g, n));
            assert forall|v: int, w: int| 0 <= v < N && 0 <= w < N implies #[trigger] pair_occurs(s, g, n, v, w) by {
                let t = tup[w];
                assert(is_transversal(s, n, t));
                assert forall|i1: int, i2: int| 0 <= i1 < n && 0 <= i2 < n && i1 != i2 implies #[trigger] t[i1] != #[trigger] t[i2] by {
                    if i1 < i2 {
                        assert(t[i1] != t[i2]);
                    } else {
                        assert(t[i2] != t[i1]);
                    }
                }
                lemma_perm_surjective(t, n);
                let i = index_of(t, v);
                lemma_position_of(s[i], n);
                let c = col_of(s, i, t[i] as int);
                assert(rows@[i]@[c] as int == w);
                assert(s[i][c] as int == v);
                assert(g[i][c] as int == w);
            }
        }
        Self::new(rows)
    }

    /// Every set of N pairwise disjoint transversals, transversal k through cell (0, k), as
    /// sets of cells; ordered transversal by transversal, each by the column of its cell in
    /// row 1 and then in value order.
    pub fn full_disjoint_transversals_bitset(&self) -> (r: Vec<[BitSet128; N]>)
        requires
            2 <= N,
            N * N <= 128,
        ensures
            exists|tups: Seq<Seq<Seq<usize>>>| {
                &&& forall|a: int, b: int| 0 <= a < b < tups.len() ==> #[trigger] tuple_lt(self@, tups[a], tups[b])
                &&& forall|m: int| 0 <= m < tups.len() ==> #[trigger] is_mate_tuple(self@, N as nat, tups[m])
                &&& forall|tup: Seq<Seq<usize>>| #[trigger] is_mate_tuple(self@, N as nat, tup) ==> tups.contains(tup)
                &&& r@.len() == tups.len()
                &&& forall|m: int, k: int| 0 <= m < tups.len() && 0 <= k < N
                    ==> #[trigger] r@[m]@[k]@ == transversal_cells(self@, N as nat, tups[m][k])
            },
    {
        proof {
            use_type_invariant(self);
            Self::lemma_latin(self);
            assert forall|i: int| 0 <= i < N implies #[trigger] is_line(self@[i], N as nat) by {}
        }
        let ts = self.transversal_values();
        let cols = self.value_columns();
        let ghost tl = seqs(ts@);
        let ords = self.ordered_groups(&ts, &cols);
        let mut found: Vec<Vec<usize>> = Vec::new();
        let chosen: Vec<usize> = Vec::new();
        proof {
            assert(picked(tl, chosen@) =~= Seq::<Seq<usize>>::empty());
        }
        self.extend_mates(&ts, &ords, chosen, &mut found);
        let ghost tups = Seq::new(found@.len(), |m: int| picked(tl, found@[m]@));
        let mut r: Vec<[BitSet128; N]> = Vec::new();
        let mut m: usize = 0;
        while m < found.len()
            invariant
                2 <= N,
                N * N <= 128,
                m <= found@.len(),
                tl == seqs(ts@),
                tups == Seq::new(found@.len(), |m: int| picked(tl, found@[m]@)),
                all_transversals(self@, N as nat, tl),
                forall|i: int| 0 <= i < N ==> #[trigger] is_line(self@[i], N as nat),
                forall|w: int, i: int| 0 <= w < N && 0 <= i < N ==> #[trigger] cols@[w]@[i] as int == col_of(self@, i, w),
                forall|a: int| 0 <= a < found@.len() ==> #[trigger] found@[a]@.len() == N,
                forall|a: int, k: int| 0 <= a < found@.len() && 0 <= k < N ==> #[trigger] found@[a]@[k] < ts@.len(),
                r@.len() == m,
                forall|a: int, k: int| 0 <= a < m && 0 <= k < N ==> #[trigger] r@[a]@[k]@ == transversal_cells(self@, N as nat, tups[a][k]),
            decreases found@.len() - m,
        {
            let mut arr = [BitSet128::empty(); N];
            let mut k: usize = 0;
            while k < N
                invariant
                    N * N <= 128,
                    m < found@.len(),
                    k <= N,
                    tl == seqs(ts@),
                    tups == Seq::new(found@.len(), |m: int| picked(tl, found@[m]@)),
                    all_transversals(self@, N as nat, tl),
                    forall|i: int| 0 <= i < N ==> #[trigger] is_line(self@[i], N as nat),
                    forall|w: int, i: int| 0 <= w < N && 0 <= i < N ==> #[trigger] cols@[w]@[i] as int == col_of(self@, i, w),
                    found@[m as int]@.len() == N,
                    forall|k2: int| 0 <= k2 < N ==> #[trigger] found@[m as int]@[k2] < ts@.len(),
                    forall|k2: int| 0 <= k2 < k ==> #[trigger] arr@[k2]@ == transversal_cells(self@, N as nat, tups[m as int][k2]),
                decreases N - k,
            {
                let x = found[m][k];
                proof {
                    assert(found@[m as int]@[k as int] < ts@.len());
                    assert(tl[x as int] == ts@[x as int]@);
                    assert(is_transversal(self@, N as nat, tl[x as int]));
                    assert(tups[m as int][k as int] == tl[x as int]);
                }
                let set = self.cells_bitset(&ts[x], &cols);
                arr[k] = set;
                k += 1;
            }
            r.push(arr);
            m += 1;
        }
        proof {
            assert forall|a: int, b: int| 0 <= a < b < tups.len() implies #[trigger] tuple_lt(self@, tups[a], tups[b]) by {
                assert(tuple_lt(self@, picked(tl, found@[a]@), picked(tl, found@[b]@)));
            }
            assert forall|a: int| 0 <= a < tups.len() implies #[trigger] is_mate_tuple(self@, N as nat, tups[a]) by {
                assert(is_mate_tuple(self@, N as nat, picked(tl, found@[a]@)));
            }
            assert forall|tup: Seq<Seq<usize>>| #[trigger] is_mate_tuple(self@, N as nat, tup) implies tups.contains(tup) by {
                assert(tup.take(0) =~= picked(tl, chosen@));
                let a = choose|a: int| 0 <= a < found@.len() && picked(tl, found@[a]@) == tup;
                assert(tups[a] == tup);
            }
            assert(r@.len() == tups.len());
            assert({
                &&& forall|a: int, b: int| 0 <= a < b < tups.len() ==> #[trigger] tuple_lt(self@, tups[a], tups[b])
                &&& forall|a: int| 0 <= a < tups.len() ==> #[trigger] is_mate_tuple(self@, N as nat, tups[a])
                &&& forall|tup: Seq<Seq<usize>>| #[trigger] is_mate_tuple(self@, N as nat, tup) ==> tups.contains(tup)
                &&& r@.len() == tups.len()
                &&& forall|a: int, k: int| 0 <= a < tups.len() && 0 <= k < N
                    ==> #[trigger] r@[a]@[k]@ == transversal_cells(self@, N as nat, tups[a][k])
            });
        }
        r
    }

    /// The orthogonal mates that number the cells of each set of N pairwise disjoint
    /// transversals, in the order of `full_disjoint_transversals_bitset`.
    pub fn orthogonal_squares(&self) -> (r: Vec<Self>)
        requires
            2 <= N,
            N * N <= 128,
        ensures
            exists|tups: Seq<Seq<Seq<usize>>>| {
                &&& forall|a: int, b: int| 0 <= a < b < tups.len() ==> #[trigger] tuple_lt(self@, tups[a], tups[b])
                &&& forall|m: int| 0 <= m < tups.len() ==> #[trigger] is_mate_tuple(self@, N as nat, tups[m])
                &&& forall|tup: Seq<Seq<usize>>| #[trigger] is_mate_tuple(self@, N as nat, tup) ==> tups.contains(tup)
                &&& r@.len() == tups.len()
                &&& forall|m: int| 0 <= m < tups.len() ==> #[trigger] is_mate_of(self@, r@[m]@, N as nat, tups[m])
                    && are_orthogonal(self@, r@[m]@, N as nat)
            },
    {
        proof {
            use_type_invariant(self);
            Self::lemma_latin(self);
            assert forall|i: int| 0 <= i < N implies #[trigger] is_line(self@[i], N as nat) by {}
        }
        let ts = self.transversal_values();
        let cols = self.value_columns();
        let ghost tl = seqs(ts@);
        let ords = self.ordered_groups(&ts, &cols);
        let mut found: Vec<Vec<usize>> = Vec::new();
        let chosen: Vec<usize> = Vec::new();
        proof {
            assert(picked(tl, chosen@) =~= Seq::<Seq<usize>>::empty());
        }
        self.extend_mates(&ts, &ords, chosen, &mut found);
        let ghost tups = Seq::new(found@.len(), |m: int| picked(tl, found@[m]@));
        let mut r: Vec<Self> = Vec::new();
        let mut m: usize = 0;
        while m < found.len()
            invariant
                2 <= N,
                N * N <= 128,
                m <= found@.len(),
                tl == seqs(ts@),
                tups == Seq::new(found@.len(), |m: int| picked(tl, found@[m]@)),
                all_transversals(self@, N as nat, tl),
                forall|i: int| 0 <= i < N ==> #[trigger] is_line(self@[i], N as nat),
                forall|w: int, i: int| 0 <= w < N && 0 <= i < N ==> #[trigger] cols@[w]@[i] as int == col_of(self@, i, w),
                forall|a: int| 0 <= a < found@.len() ==> #[trigger] found@[a]@.len() == N,
                forall|a: int, k: int| 0 <= a < found@.len() && 0 <= k < N ==> #[trigger] found@[a]@[k] < ts@.len(),
                forall|a: int| 0 <= a < found@.len() ==> #[trigger] is_mate_tuple(self@, N as nat, picked(tl, found@[a]@)),
                r@.len() == m,
                forall|a: int| 0 <= a < m ==> #[trigger] is_mate_of(self@, r@[a]@, N as nat, tups[a])
                    && are_orthogonal(self@, r@[a]@, N as nat),
            decreases found@.len() - m,
        {
            let sq = self.mate_square(&ts, &cols, &found[m]);
            r.push(sq);
            m += 1;
        }
        proof {
            assert forall|a: int, b: int| 0 <= a < b < tups.len() implies #[trigger] tuple_lt(self@, tups[a], tups[b]) by {
                assert(tuple_lt(self@, picked(tl, found@[a]@), picked(tl, found@[b]@)));
            }
            assert forall|a: int| 0 <= a < tups.len() implies #[trigger] is_mate_tuple(self@, N as nat, tups[a]) by {
                assert(is_mate_tuple(self@, N as nat, picked(tl, found@[a]@)));
            }
            assert forall|tup: Seq<Seq<usize>>| #[trigger] is_mate_tuple(self@, N as nat, tup) implies tups.contains(tup) by {
                assert(tup.take(0) =~= picked(tl, chosen@));
                let a = choose|a: int| 0 <= a < found@.len() && picked(tl, found@[a]@) == tup;
                assert(tups[a] == tup);
            }
            assert({
                &&& forall|a: int, b: int| 0 <= a < b < tups.len() ==> #[trigger] tuple_lt(self@, tups[a], tups[b])
                &&& forall|a: int| 0 <= a < tups.len() ==> #[trigger] is_mate_tuple(self@, N as nat, tups[a])
                &&& forall|tup: Seq<Seq<usize>>| #[trigger] is_mate_tuple(self@, N as nat, tup) ==> tups.contains(tup)
                &&& r@.len() == tups.len()
                &&& forall|a: int| 0 <= a < tups.len() ==> #[trigger] is_mate_of(self@, r@[a]@, N as nat, tups[a])
                    && are_orthogonal(self@, r@[a]@, N as nat)
            });
        }
        r
    }

    /// The most transversals that can follow the chosen ones, all pairwise disjoint, the
    /// k-th through cell (0, k).
    fn deepest_chain(&self, ts: &Vec<Vec<usize>>, ords: &Vec<Vec<usize>>, chosen: Vec<usize>) -> (r: usize)
        requires
            2 <= N,
            all_transversals(self@, N as nat, seqs(ts@)),
            groups_ordered(self@, N as nat, seqs(ts@), seqs(ords@)),
            forall|k: int| 0 <= k < chosen@.len() ==> #[trigger] chosen@[k] < ts@.len(),
            is_partial_mate(self@, N as nat, picked(seqs(ts@), chosen@)),
        ensures
            chosen@.len() <= r <= N,
            exists|tup: Seq<Seq<usize>>| is_partial_mate(self@, N as nat, tup) && tup.len() == r
                && tup.take(chosen@.len() as int) == picked(seqs(ts@), chosen@),
            forall|tup: Seq<Seq<usize>>| is_partial_mate(self@, N as nat, tup)
                && #[trigger] tup.take(chosen@.len() as int) == picked(seqs(ts@), chosen@) ==> tup.len() <= r,
        decreases N - chosen@.len(),
    {
        let ghost tl = seqs(ts@);
        let ghost s = self@;
        let ghost pp = picked(tl, chosen@);
        let len = chosen.len();
        proof {
            assert(pp.take(len as int) =~= pp);
        }
        if len == N {
            proof {
                assert forall|tup: Seq<Seq<usize>>| is_partial_mate(s, N as nat, tup)
                    && #[trigger] tup.take(len as int) == pp implies tup.len() <= N by {}
            }
            return N;
        }
        let mut best: usize = len;
        let ghost mut witness: Seq<Seq<usize>> = pp;
        let ghost list = seqs(ords@)[len as int];
        assert(ords@[len as int]@ == list);
        let mut q: usize = 0;
        while q < ords[len].len()
            invariant
                2 <= N,
                len == chosen@.len() < N,
                tl == seqs(ts@),
                s == self@,
                pp == picked(tl, chosen@),
                list == ords@[len as int]@,
                q <= list.len(),
                all_transversals(s, N as nat, tl),
                groups_ordered(s, N as nat, tl, seqs(ords@)),
                forall|k: int| 0 <= k < chosen@.len() ==> #[trigger] chosen@[k] < ts@.len(),
                is_partial_mate(s, N as nat, pp),
                len <= best < N,
                is_partial_mate(s, N as nat, witness) && witness.len() == best && witness.take(len as int) == pp,
                forall|tup: Seq<Seq<usize>>, q2: int| 0 <= q2 < q && is_partial_mate(s, N as nat, tup)
                    && #[trigger] tup.take(len as int) == pp && tup.len() > len && tup[len as int] == tl[#[trigger] list[q2] as int]
                    ==> tup.len() <= best,
            decreases list.len() - q,
        {
            let x = ords[len][q];
            proof {
                assert(list[q as int] == x);
                assert(seqs(ords@)[len as int][q as int] == x);
                assert(x < tl.len() && col_of(s, 0, tl[x as int][0] as int) == len);
                assert(is_transversal(s, N as nat, tl[x as int]));
                assert(tl[x as int] == ts@[x as int]@);
                assert forall|k: int| 0 <= k < chosen@.len() implies #[trigger] chosen@[k] < ts@.len() && ts@[chosen@[k] as int]@.len() == N by {
                    assert(pp[k] == tl[chosen@[k] as int]);
                    assert(tl[chosen@[k] as int] == ts@[chosen@[k] as int]@);
                    assert(is_transversal(s, N as nat, pp[k]));
                }
            }
            let ok = Self::disjoint_from_chosen(ts, x, &chosen);
            if ok {
                let mut next = chosen.clone();
                next.push(x);
                let ghost np = picked(tl, next@);
                proof {
                    assert(next@ =~= chosen@.push(x));
                    assert(np =~= pp.push(tl[x as int]));
                    assert forall|k: int, l: int| 0 <= k < l < np.len() implies are_disjoint(#[trigger] np[k], #[trigger] np[l], N as nat) by {
                        if l == len {
                            assert(are_disjoint(ts@[x as int]@, ts@[chosen@[k] as int]@, N as nat));
                            assert forall|i: int| 0 <= i < N implies #[trigger] np[k][i] != np[l][i] by {
                                assert(ts@[x as int]@[i] != ts@[chosen@[k] as int]@[i]);
                            }
                        } else {
                            assert(np[k] == pp[k] && np[l] == pp[l]);
                        }
                    }
                    assert forall|k: int| 0 <= k < np.len() implies #[trigger] is_transversal(s, N as nat, np[k]) && col_of(s, 0, np[k][0] as int) == k by {
                        if k < len {
                            assert(np[k] == pp[k]);
                        }
                    }
                    assert forall|k: int| 0 <= k < next@.len() implies #[trigger] next@[k] < ts@.len() by {
                        if k < len {
                            assert(next@[k] == chosen@[k]);
                        }
                    }
                }
                let d = self.deepest_chain(ts, ords, next);
                proof {
                    let w = choose|tup: Seq<Seq<usize>>| is_partial_mate(s, N as nat, tup) && tup.len() == d
                        && tup.take(len as int + 1) == np;
                    if d > best {
                        assert(w.take(len as int) =~= np.take(len as int));
                        assert(np.take(len as int) =~= pp);
                        witness = w;
                    }
                    assert forall|tup: Seq<Seq<usize>>, q2: int| 0 <= q2 < q + 1 && is_partial_mate(s, N as nat, tup)
                        && #[trigger] tup.take(len as int) == pp && tup.len() > len && tup[len as int] == tl[#[trigger] list[q2] as int]
                        implies tup.len() <= (if d > best { d } else { best }) by {
                        if q2 == q {
                            assert(tup.take(len as int + 1) =~= np) by {
                                assert forall|r: int| 0 <= r < len + 1 implies tup.take(len as int + 1)[r] == np[r] by {
                                    if r < len {
                                        assert(tup.take(len as int)[r] == pp[r]);
                                    }
                                }
                            }
                        }
                    }
                }
                if d > best {
                    best = d;
                }
                if best == N {
                    proof {
                        assert forall|tup: Seq<Seq<usize>>| is_partial_mate(s, N as nat, tup)
                            && #[trigger] tup.take(len as int) == pp implies tup.len() <= N by {}
                    }
                    return N;
                }
            } else {
                proof {
                    assert forall|tup: Seq<Seq<usize>>, q2: int| 0 <= q2 < q + 1 && is_partial_mate(s, N as nat, tup)
                        && #[trigger] tup.take(len as int) == pp && tup.len() > len && tup[len as int] == tl[#[trigger] list[q2] as int]
                        implies tup.len() <= best by {
                        if q2 == q {
                            let l = choose|l: int| 0 <= l < chosen@.len() && !are_disjoint(ts@[x as int]@, ts@[chosen@[l] as int]@, N as nat);
                            assert(tup[l] == tup.take(len as int)[l]);
                            assert(tup[l] == tl[chosen@[l] as int]);
                            assert(are_disjoint(tup[l], tup[len as int], N as nat));
                            assert forall|i: int| 0 <= i < N implies ts@[x as int]@[i] != ts@[chosen@[l] as int]@[i] by {
                                assert(tup[l][i] != tup[len as int][i]);
                            }
                        }
                    }
                }
            }
            q += 1;
        }
        proof {
            assert forall|tup: Seq<Seq<usize>>| is_partial_mate(s, N as nat, tup) && #[trigger] tup.take(len as int) == pp
                implies tup.len() <= best by {
                if tup.len() > len {
                    let t = tup[len as int];
                    assert(is_transversal(s, N as nat, t));
                    assert(tl.contains(t));
                    let xx = choose|xx: int| 0 <= xx < tl.len() && tl[xx] == t;
                    assert(col_of(s, 0, tl[xx][0] as int) == len);
                    assert(listed(seqs(ords@)[len as int], xx));
                    let q2 = choose|q2: int| 0 <= q2 < list.len() && list[q2] == xx;
                    assert(tup[len as int] == tl[list[q2] as int]);
                }
            }
        }
        best
    }

    /// The most pairwise disjoint transversals, the k-th through cell (0, k), that can be
    /// found together.
    pub fn max_disjoint_transversals(&self) -> (r: usize)
        requires
            2 <= N,
            N * N <= 128,
        ensures
            exists|tup: Seq<Seq<usize>>| is_partial_mate(self@, N as nat, tup) && tup.len() == r,
            forall|tup: Seq<Seq<usize>>| #[trigger] is_partial_mate(self@, N as nat, tup) ==> tup.len() <= r,
    {
        proof {
            use_type_invariant(self);
            Self::lemma_latin(self);
            assert forall|i: int| 0 <= i < N implies #[trigger] is_line(self@[i], N as nat) by {}
        }
        let ts = self.transversal_values();
        let cols = self.value_columns();
        let ghost tl = seqs(ts@);
        let ords = self.ordered_groups(&ts, &cols);
        let chosen: Vec<usize> = Vec::new();
        proof {
            assert(picked(tl, chosen@) =~= Seq::<Seq<usize>>::empty());
        }
        let r = self.deepest_chain(&ts, &ords, chosen);
        proof {
            assert forall|tup: Seq<Seq<usize>>| #[trigger] is_partial_mate(self@, N as nat, tup) implies tup.len() <= r by {
                assert(tup.take(0) =~= picked(tl, chosen@));
            }
        }
        r
    }
}

} // verus!
