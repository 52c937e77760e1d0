//! The cells in which a Latin square can be changed when three of its rows, columns or
//! values are filled in again.
use vstd::prelude::*;
use crate::bitset::BitSet128;
use crate::completion::{completes, entries_below, lemma_latin_distinct};
use crate::latin_square::is_latin;
use crate::latin_square_dyn::LatinSquareDyn;
use crate::latin_square_generator::LatinSquareGeneratorDyn;
use crate::partial_latin_square::is_partial_latin;
use crate::partial_latin_square_dyn::{unflatten, PartialLatinSquareDyn};
use crate::latin_square_trait::PartialLatinSquareTrait;
use crate::tuple_iterator::is_tuple;
use crate::latin_square::lemma_cell_of_index;
use crate::latin_square_generator::is_completion;

verus! {

/// The cells, by reading-order index, in which `f` differs from `s`.
pub open spec fn difference_set(s: Seq<u8>, f: Seq<u8>, n: nat) -> Set<int> {
    Set::new(|x: int| 0 <= x < n * n && s[x] != f[x])
}

/// The grid `s` with the rows (kind 0), the columns (kind 1) or the values (kind 2) listed
/// in `t` emptied.
pub open spec fn without_lines_grid(s: Seq<Seq<u8>>, n: nat, t: Seq<usize>, kind: int) -> Seq<Seq<Option<u8>>> {
    Seq::new(n, |i: int| Seq::new(n, |j: int|
        if (kind == 0 && t.contains(i as usize)) || (kind == 1 && t.contains(j as usize)) || (kind == 2 && t.contains(s[i][j] as usize)) {
            None::<u8>
        } else {
            Some(s[i][j])
        }))
}

/// The Latin square `f` agrees with `s` outside three of its rows, columns or values
/// (those of the tuple `t`, by `kind`), and `m` is where the two differ.
pub open spec fn is_trade_witness(s: Seq<u8>, n: nat, m: Set<int>, f: Seq<u8>, t: Seq<usize>, kind: int) -> bool {
    &&& f.len() == n * n
    &&& 0 <= kind < 3
    &&& t.len() == 3
    &&& is_tuple(t, n)
    &&& is_latin(unflatten(f, n), n)
    &&& completes(unflatten(f, n), without_lines_grid(unflatten(s, n), n, t, kind), n)
    &&& m == difference_set(s, f, n)
}

/// `m` is the set of cells in which the square `s` differs from some Latin square that
/// agrees with it outside three of its rows, columns or values.
pub open spec fn is_trade_difference(s: Seq<u8>, n: nat, m: Set<int>) -> bool {
    exists|f: Seq<u8>, t: Seq<usize>, kind: int| #[trigger] is_trade_witness(s, n, m, f, t, kind)
}

/// `a` comes before `b`: it has fewer elements, or as many and a smaller word.
pub open spec fn mask_before(a: BitSet128, b: BitSet128) -> bool {
    a@.len() < b@.len() || (a@.len() == b@.len() && a.raw() < b.raw())
}

/// A partial square that a Latin square completes holds no value twice in a line and
/// only values below n.
proof fn lemma_sub_of_latin(l: Seq<Seq<u8>>, p: Seq<Seq<Option<u8>>>, n: nat)
    requires
        is_latin(l, n),
        completes(l, p, n),
    ensures
        is_partial_latin(p, n),
        entries_below(p, n),
{
    lemma_latin_distinct(l, n);
    assert forall|i: int, j: int, k: int|
        0 <= i < n && 0 <= j < n && 0 <= k < n && j != k && #[trigger] p[i][j] is Some implies #[trigger] p[i][k] != p[i][j] by {
        assert(l[i][j] != l[i][k]);
        if p[i][k] is Some {
            assert(p[i][k] == Some(l[i][k]));
        }
    }
    assert forall|i: int, j: int, k: int|
        0 <= i < n && 0 <= j < n && 0 <= k < n && j != k && #[trigger] p[j][i] is Some implies #[trigger] p[k][i] != p[j][i] by {
        assert(l[j][i] != l[k][i]);
        if p[k][i] is Some {
            assert(p[k][i] == Some(l[k][i]));
        }
    }
}

/// The sets in sorted order: by size, then by word, each once.
fn sort_masks(sets: &Vec<BitSet128>) -> (r: Vec<BitSet128>)
    ensures
        forall|a: int, b: int| 0 <= a < b < r@.len() ==> #[trigger] mask_before(r@[a], r@[b]),
        forall|k: int| 0 <= k < r@.len() ==> sets@.contains(#[trigger] r@[k]),
        forall|k: int| 0 <= k < sets@.len() ==> r@.contains(#[trigger] sets@[k]),
{
    let mut out: Vec<BitSet128> = Vec::new();
    let mut k: usize = 0;
    while k < sets.len()
        invariant
            k <= sets@.len(),
            forall|a: int, b: int| 0 <= a < b < out@.len() ==> #[trigger] mask_before(out@[a], out@[b]),
            forall|m: int| 0 <= m < out@.len() ==> sets@.contains(#[trigger] out@[m]),
            forall|m: int| 0 <= m < k ==> out@.contains(#[trigger] sets@[m]),
        decreases sets@.len() - k,
    {
        let s = sets[k];
        let len = s.len();
        let bits = s.bits();
        let mut p: usize = 0;
        while p < out.len() && (out[p].len() < len || (out[p].len() == len && out[p].bits() < bits))
            invariant
                p <= out@.len(),
                len == s@.len(),
                bits == s.raw(),
                forall|m: int| 0 <= m < p ==> #[trigger] mask_before(out@[m], s),
            decreases out@.len() - p,
        {
            p += 1;
        }
        let ghost before = out@;
        if p < out.len() && out[p] == s {
        } else {
            proof {
                if p < out@.len() {
                    let o = out@[p as int];
                    assert(!mask_before(o, s));
                    assert(o != s);
                    if o@.len() == s@.len() && o.raw() == s.raw() {
                        o.lemma_raw_determines(s);
                    }
                    assert(mask_before(s, o));
                }
            }
            out.insert(p, s);
            proof {
                assert forall|a: int, b: int| 0 <= a < b < out@.len() implies #[trigger] mask_before(out@[a], out@[b]) by {
                    if b < p {
                        assert(out@[a] == before[a] && out@[b] == before[b]);
                    } else if b == p {
                        assert(out@[a] == before[a]);
                    } else if a == p {
                        assert(out@[b] == before[b - 1]);
                        if b - 1 > p {
                            assert(mask_before(before[p as int], before[b - 1]));
                        }
                    } else if a < p {
                        assert(out@[a] == before[a] && out@[b] == before[b - 1]);
                    } else {
                        assert(out@[a] == before[a - 1] && out@[b] == before[b - 1]);
                    }
                }
                assert(out@[p as int] == s);
                assert forall|m: int| 0 <= m < out@.len() implies sets@.contains(#[trigger] out@[m]) by {
                    if m < p {
                        assert(out@[m] == before[m]);
                    } else if m > p {
                        assert(out@[m] == before[m - 1]);
                    } else {
                        assert(sets@[k as int] == s);
                    }
                }
                assert forall|m: int| 0 <= m < k implies out@.contains(#[trigger] sets@[m]) by {
                    assert(before.contains(sets@[m]));
                    let x = choose|x: int| 0 <= x < before.len() && before[x] == sets@[m];
                    if x < p {
                        assert(out@[x] == before[x]);
                    } else {
                        assert(out@[x + 1] == before[x]);
                    }
                }
            }
        }
        proof {
            assert(out@.contains(sets@[k as int])) by {
                assert(out@[p as int] == s);
            }
        }
        k += 1;
    }
    out
}

/// Every set is nonempty and a trade difference of `s`, and none holds another.
pub open spec fn minimal_family(sets: Seq<BitSet128>, s: Seq<u8>, n: nat) -> bool {
    &&& forall|k: int| 0 <= k < sets.len() ==> (#[trigger] sets[k])@ != Set::<int>::empty()
        && is_trade_difference(s, n, sets[k]@)
    &&& forall|a: int, b: int| 0 <= a < sets.len() && 0 <= b < sets.len() && a != b
        ==> !(#[trigger] sets[a])@.subset_of((#[trigger] sets[b])@)
}

/// Whether one of the sets is a subset of `d`.
fn holds_subset_of(sets: &Vec<BitSet128>, d: BitSet128) -> (r: bool)
    ensures
        r == exists|k: int| 0 <= k < sets@.len() && (#[trigger] sets@[k])@.subset_of(d@),
{
    let mut k: usize = 0;
    while k < sets.len()
        invariant
            k <= sets@.len(),
            forall|m: int| 0 <= m < k ==> !(#[trigger] sets@[m])@.subset_of(d@),
        decreases sets@.len() - k,
    {
        if sets[k].is_subset_of(d) {
            return true;
        }
        k += 1;
    }
    false
}

/// Whether a set of the family lies inside `m`.
pub open spec fn family_covers(sets: Seq<BitSet128>, m: Set<int>) -> bool {
    exists|k: int| 0 <= k < sets.len() && (#[trigger] sets[k])@.subset_of(m)
}

/// The sets that do not hold `d`.
pub open spec fn not_above(d: BitSet128) -> spec_fn(BitSet128) -> bool {
    |x: BitSet128| !d@.subset_of(x@)
}

/// Dropping the sets that hold `d` and adding `d` keeps every set that was covered
/// covered, and covers `d`.
proof fn lemma_add_keeps_cover(sets: Seq<BitSet128>, d: BitSet128, m: Set<int>)
    ensures
        family_covers(sets, m) ==> family_covers(sets.filter(not_above(d)).push(d), m),
        family_covers(sets.filter(not_above(d)).push(d), d@),
{
    let out = sets.filter(not_above(d)).push(d);
    assert(out[out.len() - 1] == d);
    assert(d@.subset_of(d@));
    if family_covers(sets, m) {
        let k = choose|k: int| 0 <= k < sets.len() && (#[trigger] sets[k])@.subset_of(m);
        let x = sets[k];
        if d@.subset_of(x@) {
            assert(d@.subset_of(m)) by {
                assert forall|e: int| d@.contains(e) implies m.contains(e) by {
                    assert(x@.contains(e));
                }
            }
        } else {
            sets.lemma_filter_contains(not_above(d), k);
            let f = sets.filter(not_above(d));
            assert(f.contains(x));
            let y = choose|y: int| 0 <= y < f.len() && f[y] == x;
            assert(out[y] == x);
        }
    }
}

/// Two grids of order n read from lists of n * n cells are equal only when the lists are.
proof fn lemma_unflatten_injective(f: Seq<u8>, g: Seq<u8>, n: nat)
    requires
        f.len() == n * n,
        g.len() == n * n,
        unflatten(f, n) == unflatten(g, n),
    ensures
        f == g,
{
    assert forall|k: int| 0 <= k < f.len() implies f[k] == g[k] by {
        lemma_cell_of_index(k, n as int);
        let i = k / (n as int);
        let j = k % (n as int);
        assert(unflatten(f, n)[i][j] == f[i * n + j]);
        assert(unflatten(g, n)[i][j] == g[i * n + j]);
    }
    assert(f =~= g);
}

/// Adds `d` to a family that holds no subset of it, dropping the sets that hold it.
fn add_minimal(sets: &mut Vec<BitSet128>, d: BitSet128, Ghost(s): Ghost<Seq<u8>>, Ghost(n): Ghost<nat>)
    requires
        minimal_family(old(sets)@, s, n),
        d@ != Set::<int>::empty(),
        is_trade_difference(s, n, d@),
        forall|k: int| 0 <= k < old(sets)@.len() ==> !(#[trigger] old(sets)@[k])@.subset_of(d@),
    ensures
        minimal_family(final(sets)@, s, n),
        final(sets)@ == old(sets)@.filter(not_above(d)).push(d),
{
    let mut kept: Vec<BitSet128> = Vec::new();
    let ghost mut idx: Seq<int> = Seq::empty();
    let mut k: usize = 0;
    while k < sets.len()
        invariant
            k <= sets@.len(),
            minimal_family(sets@, s, n),
            forall|m: int| 0 <= m < sets@.len() ==> !(#[trigger] sets@[m])@.subset_of(d@),
            forall|m: int| 0 <= m < kept@.len() ==> !d@.subset_of((#[trigger] kept@[m])@),
            idx.len() == kept@.len(),
            forall|m: int| 0 <= m < kept@.len() ==> 0 <= #[trigger] idx[m] < k && sets@[idx[m]] == kept@[m],
            forall|a: int, b: int| 0 <= a < b < kept@.len() ==> #[trigger] idx[a] < #[trigger] idx[b],
            kept@ == sets@.take(k as int).filter(not_above(d)),
        decreases sets@.len() - k,
    {
        proof {
            reveal(Seq::filter);
            assert(sets@.take(k + 1).drop_last() =~= sets@.take(k as int));
            assert(sets@.take(k + 1).last() == sets@[k as int]);
        }
        if !d.is_subset_of(sets[k]) {
            kept.push(sets[k]);
            proof {
                idx = idx.push(k as int);
            }
        }
        k += 1;
    }
    proof {
        assert(sets@.take(k as int) =~= sets@);
    }
    proof {
        assert forall|m: int| 0 <= m < kept@.len() implies (#[trigger] kept@[m])@ != Set::<int>::empty()
            && is_trade_difference(s, n, kept@[m]@) && !kept@[m]@.subset_of(d@) by {
            assert(sets@[idx[m]] == kept@[m]);
        }
        assert forall|a: int, b: int| 0 <= a < kept@.len() && 0 <= b < kept@.len() && a != b
            implies !(#[trigger] kept@[a])@.subset_of((#[trigger] kept@[b])@) by {
            assert(sets@[idx[a]] == kept@[a] && sets@[idx[b]] == kept@[b]);
            if a < b {
                assert(idx[a] < idx[b]);
            } else {
                assert(idx[b] < idx[a]);
            }
        }
    }
    let ghost before = kept@;
    kept.push(d);
    proof {
        assert forall|m: int| 0 <= m < kept@.len() implies (#[trigger] kept@[m])@ != Set::<int>::empty()
            && is_trade_difference(s, n, kept@[m]@) by {
            if m < before.len() {
                assert(kept@[m] == before[m]);
            }
        }
        assert forall|a: int, b: int| 0 <= a < kept@.len() && 0 <= b < kept@.len() && a != b
            implies !(#[trigger] kept@[a])@.subset_of((#[trigger] kept@[b])@) by {
            if a < before.len() && b < before.len() {
                assert(kept@[a] == before[a] && kept@[b] == before[b]);
                assert(!before[a]@.subset_of(before[b]@));
            } else if a < before.len() {
                assert(kept@[a] == before[a] && kept@[b] == d);
                assert(!before[a]@.subset_of(d@));
            } else {
                assert(kept@[a] == d && kept@[b] == before[b]);
                assert(!d@.subset_of(before[b]@));
            }
        }
    }
    *sets = kept;
}

/// Every nonempty difference that the rows, columns or values of `t` give holds a set of
/// the family.
pub open spec fn tuple_covered(sets: Seq<BitSet128>, s: Seq<u8>, n: nat, t: Seq<usize>) -> bool {
    forall|m: Set<int>, f: Seq<u8>, kind: int| #[trigger] is_trade_witness(s, n, m, f, t, kind)
        && m != Set::<int>::empty() ==> family_covers(sets, m)
}

/// A three-element tuple is the sequence of its three elements.
proof fn lemma_tuple_of(t: Seq<usize>, a: usize, b: usize, c: usize)
    requires
        t.len() == 3,
        t[0] == a,
        t[1] == b,
        t[2] == c,
    ensures
        t == seq![a, b, c],
{
    assert(t =~= seq![a, b, c]);
}

impl LatinSquareDyn {
    /// Adds the differences between the square and the completions of `partial`, the square
    /// with the lines or values of the tuple `t` (by `kind`) emptied.
    fn add_differences_of(
        &self,
        partial: &PartialLatinSquareDyn,
        sets: &mut Vec<BitSet128>,
        Ghost(t): Ghost<Seq<usize>>,
        Ghost(kind): Ghost<int>,
    )
        requires
            3 <= self.order(),
            self.order() * self.order() <= 128,
            partial.order() == self.order(),
            partial.grid() == without_lines_grid(self.square(), self.order(), t, kind),
            0 <= kind < 3,
            t.len() == 3,
            is_tuple(t, self.order()),
            minimal_family(old(sets)@, self.flat(), self.order()),
        ensures
            minimal_family(final(sets)@, self.flat(), self.order()),
            forall|m: Set<int>| family_covers(old(sets)@, m) ==> #[trigger] family_covers(final(sets)@, m),
            forall|m: Set<int>, f: Seq<u8>| #[trigger] is_trade_witness(self.flat(), self.order(), m, f, t, kind)
                && m != Set::<int>::empty() ==> family_covers(final(sets)@, m),
    {
        let ghost n = self.order();
        let ghost sets0 = sets@;
        proof {
            use_type_invariant(self);
            LatinSquareDyn::lemma_latin(self);
            lemma_sub_of_latin(self.square(), partial.grid(), n);
            assert(n <= 11) by (nonlinear_arith)
                requires
                    n * n <= 128,
            ;
        }
        let mut solutions = LatinSquareGeneratorDyn::from_partial_sq(partial);
        loop
            invariant
                3 <= n,
                n * n <= 128,
                self.order() == n,
                solutions.order() == n,
                solutions.initial() == partial.grid(),
                partial.grid() == without_lines_grid(self.square(), n, t, kind),
                0 <= kind < 3,
                t.len() == 3,
                is_tuple(t, n),
                solutions.remaining() >= 0,
                minimal_family(sets@, self.flat(), n),
                old(sets)@ == sets0,
                forall|m: Set<int>| family_covers(sets0, m) ==> #[trigger] family_covers(sets@, m),
                forall|f: Seq<u8>| f.len() == n * n && #[trigger] solutions.handed_out().contains(unflatten(f, n))
                    && difference_set(self.flat(), f, n) != Set::<int>::empty()
                    ==> family_covers(sets@, difference_set(self.flat(), f, n)),
            ensures
                minimal_family(sets@, self.flat(), n),
                forall|m: Set<int>| family_covers(sets0, m) ==> #[trigger] family_covers(sets@, m),
                forall|m: Set<int>, f: Seq<u8>| #[trigger] is_trade_witness(self.flat(), n, m, f, t, kind)
                    && m != Set::<int>::empty() ==> family_covers(sets@, m),
            decreases solutions.remaining(),
        {
            let ghost before = sets@;
            let ghost handed = solutions.handed_out();
            match solutions.next() {
                None => {
                    proof {
                        assert forall|m: Set<int>, f: Seq<u8>| #[trigger] is_trade_witness(self.flat(), n, m, f, t, kind)
                            && m != Set::<int>::empty() implies family_covers(sets@, m) by {
                            assert(is_completion(unflatten(f, n), partial.grid(), n));
                            assert(handed.contains(unflatten(f, n)));
                        }
                    }
                    break;
                },
                Some(solution) => {
                    let difference = self.difference_mask(&solution);
                    proof {
                        use_type_invariant(&solution);
                        LatinSquareDyn::lemma_latin(&solution);
                        assert(difference@ =~= difference_set(self.flat(), solution.flat(), n));
                        assert(is_trade_witness(self.flat(), n, difference@, solution.flat(), t, kind));
                    }
                    let empty = difference.is_empty();
                    let held = if empty { false } else { holds_subset_of(sets, difference) };
                    if !empty && !held {
                        add_minimal(sets, difference, Ghost(self.flat()), Ghost(n));
                        proof {
                            assert forall|m: Set<int>| family_covers(before, m) implies #[trigger] family_covers(sets@, m) by {
                                lemma_add_keeps_cover(before, difference, m);
                            }
                            lemma_add_keeps_cover(before, difference, difference@);
                        }
                    }
                    proof {
                        if !empty && held {
                            let k = choose|k: int| 0 <= k < sets@.len() && (#[trigger] sets@[k])@.subset_of(difference@);
                            assert(family_covers(sets@, difference@));
                        }
                        assert forall|f: Seq<u8>| f.len() == n * n && #[trigger] solutions.handed_out().contains(unflatten(f, n))
                            && difference_set(self.flat(), f, n) != Set::<int>::empty()
                            implies family_covers(sets@, difference_set(self.flat(), f, n)) by {
                            if handed.contains(unflatten(f, n)) {
                                assert(family_covers(before, difference_set(self.flat(), f, n)));
                            } else {
                                assert(unflatten(f, n) == solution.square());
                                lemma_unflatten_injective(f, solution.flat(), n);
                            }
                        }
                    }
                },
            }
        }
    }

    /// The sets of cells in which the square differs from a Latin square that agrees with
    /// it outside three of its rows, three of its columns or three of its values: of the
    /// nonempty ones, those that hold no other, sorted by size and then by word.
    pub fn differences(&self) -> (r: Vec<BitSet128>)
        requires
            self.order() * self.order() <= 128,
        ensures
            forall|k: int| 0 <= k < r@.len() ==> (#[trigger] r@[k])@ != Set::<int>::empty()
                && is_trade_difference(self.flat(), self.order(), r@[k]@),
            forall|a: int, b: int| 0 <= a < b < r@.len() ==> #[trigger] mask_before(r@[a], r@[b]),
            forall|a: int, b: int| 0 <= a < r@.len() && 0 <= b < r@.len() && a != b
                ==> !(#[trigger] r@[a])@.subset_of((#[trigger] r@[b])@),
            forall|m: Set<int>| #[trigger] is_trade_difference(self.flat(), self.order(), m) && m != Set::<int>::empty()
                ==> exists|k: int| 0 <= k < r@.len() && (#[trigger] r@[k])@.subset_of(m),
    {
        let n = self.n();
        let ghost g = self.square();
        let ghost s = self.flat();
        let mut sets: Vec<BitSet128> = Vec::new();
        let mut a: usize = 0;
        while a < n
            invariant
                n == self.order(),
                n * n <= 128,
                g == self.square(),
                s == self.flat(),
                minimal_family(sets@, self.flat(), n as nat),
                forall|t: Seq<usize>| t.len() == 3 && is_tuple(t, n as nat) && t[0] < a
                    ==> #[trigger] tuple_covered(sets@, s, n as nat, t),
            decreases n - a,
        {
            let mut b: usize = a + 1;
            while b < n
                invariant
                    n == self.order(),
                    n * n <= 128,
                    g == self.square(),
                    s == self.flat(),
                    a < n,
                    a < b,
                    minimal_family(sets@, self.flat(), n as nat),
                    forall|t: Seq<usize>| t.len() == 3 && is_tuple(t, n as nat) && (t[0] < a || (t[0] == a && t[1] < b))
                        ==> #[trigger] tuple_covered(sets@, s, n as nat, t),
                decreases n - b,
            {
                let mut c: usize = b + 1;
                while c < n
                    invariant
                        n == self.order(),
                        n * n <= 128,
                        g == self.square(),
                        s == self.flat(),
                        a < b < n,
                        b < c,
                        minimal_family(sets@, self.flat(), n as nat),
                        forall|t: Seq<usize>| t.len() == 3 && is_tuple(t, n as nat)
                            && (t[0] < a || (t[0] == a && t[1] < b) || (t[0] == a && t[1] == b && t[2] < c))
                            ==> #[trigger] tuple_covered(sets@, s, n as nat, t),
                    decreases n - c,
                {
                    let ghost before = sets@;
                    let tuple: Vec<usize> = vec![a, b, c];
                    proof {
                        assert(is_tuple(tuple@, n as nat));
                    }
                    let by_rows = self.without_rows(tuple.as_slice());
                    proof {
                        assert(by_rows.grid() =~= without_lines_grid(g, n as nat, tuple@, 0)) by {
                            assert forall|i: int| 0 <= i < n implies #[trigger] by_rows.grid()[i]
                                =~= without_lines_grid(g, n as nat, tuple@, 0)[i] by {}
                        }
                    }
                    self.add_differences_of(&by_rows, &mut sets, Ghost(tuple@), Ghost(0));
                    let by_cols = self.without_cols(tuple.as_slice());
                    proof {
                        assert(by_cols.grid() =~= without_lines_grid(g, n as nat, tuple@, 1)) by {
                            assert forall|i: int| 0 <= i < n implies #[trigger] by_cols.grid()[i]
                                =~= without_lines_grid(g, n as nat, tuple@, 1)[i] by {}
                        }
                    }
                    self.add_differences_of(&by_cols, &mut sets, Ghost(tuple@), Ghost(1));
                    let by_vals = self.without_vals(tuple.as_slice());
                    proof {
                        assert(by_vals.grid() =~= without_lines_grid(g, n as nat, tuple@, 2)) by {
                            assert forall|i: int| 0 <= i < n implies #[trigger] by_vals.grid()[i]
                                =~= without_lines_grid(g, n as nat, tuple@, 2)[i] by {}
                        }
                    }
                    self.add_differences_of(&by_vals, &mut sets, Ghost(tuple@), Ghost(2));
                    proof {
                        assert forall|t: Seq<usize>| t.len() == 3 && is_tuple(t, n as nat)
                            && (t[0] < a || (t[0] == a && t[1] < b) || (t[0] == a && t[1] == b && t[2] < c + 1))
                            implies #[trigger] tuple_covered(sets@, s, n as nat, t) by {
                            assert forall|m: Set<int>, f: Seq<u8>, kind: int| #[trigger] is_trade_witness(s, n as nat, m, f, t, kind)
                                && m != Set::<int>::empty() implies family_covers(sets@, m) by {
                                if t[0] == a && t[1] == b && t[2] == c {
                                    lemma_tuple_of(t, a, b, c);
                                    lemma_tuple_of(tuple@, a, b, c);
                                    assert(t == tuple@);
                                    assert(0 <= kind < 3);
                                } else {
                                    assert(tuple_covered(before, s, n as nat, t));
                                    assert(family_covers(before, m));
                                }
                            }
                        }
                    }
                    c += 1;
                }
                proof {
                    assert forall|t: Seq<usize>| t.len() == 3 && is_tuple(t, n as nat) && (t[0] < a || (t[0] == a && t[1] < b + 1))
                        implies #[trigger] tuple_covered(sets@, s, n as nat, t) by {
                        assert(t[0] < t[1] && t[1] < t[2]);
                    }
                }
                b += 1;
            }
            proof {
                assert forall|t: Seq<usize>| t.len() == 3 && is_tuple(t, n as nat) && t[0] < a + 1
                    implies #[trigger] tuple_covered(sets@, s, n as nat, t) by {
                    assert(t[0] < t[1] && t[1] < t[2]);
                }
            }
            a += 1;
        }
        let sorted = sort_masks(&sets);
        proof {
            assert forall|m: Set<int>| #[trigger] is_trade_difference(s, n as nat, m) && m != Set::<int>::empty()
                implies exists|k: int| 0 <= k < sorted@.len() && (#[trigger] sorted@[k])@.subset_of(m) by {
                let (f, t, kind) = choose|f: Seq<u8>, t: Seq<usize>, kind: int| #[trigger] is_trade_witness(s, n as nat, m, f, t, kind);
                assert(t[0] < t[1] && t[1] < t[2]);
                assert(tuple_covered(sets@, s, n as nat, t));
                assert(family_covers(sets@, m));
                let k = choose|k: int| 0 <= k < sets@.len() && (#[trigger] sets@[k])@.subset_of(m);
                assert(sorted@.contains(sets@[k]));
                let x = choose|x: int| 0 <= x < sorted@.len() && sorted@[x] == sets@[k];
                assert(sorted@[x]@.subset_of(m));
            }
            assert forall|k: int| 0 <= k < sorted@.len() implies (#[trigger] sorted@[k])@ != Set::<int>::empty()
                && is_trade_difference(self.flat(), n as nat, sorted@[k]@) by {
                assert(sets@.contains(sorted@[k]));
            }
            assert forall|x: int, y: int| 0 <= x < sorted@.len() && 0 <= y < sorted@.len() && x != y
                implies !(#[trigger] sorted@[x])@.subset_of((#[trigger] sorted@[y])@) by {
                assert(sets@.contains(sorted@[x]));
                assert(sets@.contains(sorted@[y]));
                let p = choose|p: int| 0 <= p < sets@.len() && sets@[p] == sorted@[x];
                let q = choose|q: int| 0 <= q < sets@.len() && sets@[q] == sorted@[y];
                if x < y {
                    assert(mask_before(sorted@[x], sorted@[y]));
                } else {
                    assert(mask_before(sorted@[y], sorted@[x]));
                }
                assert(p != q);
            }
        }
        sorted
    }
}

} // verus!
