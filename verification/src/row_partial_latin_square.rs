//! Latin rectangles held row by row in sixteen-byte rows, with the values each column
//! still misses.
use vstd::prelude::*;
use crate::bitset::BitSet16;
use crate::latin_square::{LatinSquare, grid, is_latin, grid_less, grids_agree_before};
use crate::permutation::{Permutation, seqs_of};
use crate::permutation_simd::PermutationSimd;
use crate::cycles::{generate_cycle_structures, seqs};
use crate::isotopy::{grid_le, lemma_grid_less_trans, relabeled_row, cycle_type_index, symbol_relabeling, is_isotope,
    is_structure_list, last_position, decomposition_type, is_relabeling, normalised, scanned, is_row_pair, lemma_grid_less_irreflexive,
    lemma_normalised, lemma_rows_are_lines};
use crate::orbit::is_cycle_decomposition;
use crate::cycle_types::{line_perm, line_permutation};
use crate::set_util::{is_perm, index_of, lemma_perm_surjective};

verus! {

/// The first n entries of each of the first n rows.
pub open spec fn square_part(rows: Seq<Seq<u8>>, n: nat) -> Seq<Seq<u8>> {
    Seq::new(n, |i: int| rows[i].subrange(0, n as int))
}

/// The rows as sequences.
pub open spec fn padded_rows<const N: usize>(rows: [[u8; 16]; N]) -> Seq<Seq<u8>> {
    rows@.map_values(|r: [u8; 16]| r@)
}

/// A Latin rectangle of order N: its first rows are filled, and for each column the set of
/// values it does not hold yet.
pub struct RowPartialLatinSquare<const N: usize> {
    rows: [[u8; 16]; N],
    col_masks: [BitSet16; N],
    full_rows: usize,
    min_row_cycles: [[bool; N]; N],
    min_row_cycle_index: usize,
}

impl<const N: usize> RowPartialLatinSquare<N> {
    /// The rows, each of sixteen bytes.
    pub closed spec fn rows(&self) -> Seq<Seq<u8>> {
        padded_rows(self.rows)
    }

    /// The position, in the list of cycle types, of the least type of a row pair met.
    pub closed spec fn least_type_index(&self) -> int {
        self.min_row_cycle_index as int
    }

    /// Row pair (x, y) is marked as one of the least type.
    pub closed spec fn marked(&self, x: int, y: int) -> bool {
        self.min_row_cycles@[x]@[y]
    }

    /// The rectangle is what the scan of the row pairs of `g` gives, by the table `lookup`,
    /// with the cycle decompositions `dec` and renamings `rel` (right ones for every pair
    /// used): its least type position and marked pairs, and, when every table entry is a
    /// permutation, its rows.
    pub open spec fn is_scan_outcome(
        &self,
        g: Seq<Seq<u8>>,
        st: Seq<Seq<usize>>,
        lookup: Seq<Vec<(PermutationSimd, PermutationSimd)>>,
        dec: Seq<Seq<Seq<Seq<usize>>>>,
        rel: Seq<Seq<Seq<usize>>>,
    ) -> bool {
        let scan = rows_scan_upto(g, st, lookup, dec, rel, N as nat, N as int, N + 1);
        &&& is_structure_list(st, N as nat)
        &&& scan.3
        &&& self.least_type_index() == scan.0
        &&& forall|x: int, y: int| 0 <= x < N && 0 <= y < N ==> (#[trigger] self.marked(x, y) <==> scan.2.contains((x, y)))
        &&& lookup_is_perms(lookup, N as nat) ==> square_part(self.rows(), N as nat) == scan.1
    }

    /// The number of filled rows.
    pub closed spec fn filled(&self) -> nat {
        self.full_rows as nat
    }

    /// The values that column i does not hold yet.
    pub closed spec fn col_mask(&self, i: int) -> Set<int> {
        self.col_masks@[i]@
    }

    /// The rectangle whose only row is 0, 1, ..., N - 1.
    pub fn new_first_row() -> (r: Self)
        requires
            1 <= N <= 16,
        ensures
            r.filled() == 1,
            forall|j: int| 0 <= j < N ==> #[trigger] r.rows()[0][j] == j,
            forall|i: int| 0 <= i < N ==> #[trigger] r.col_mask(i) == vstd::set_lib::set_int_range(0, N as int).remove(i),
    {
        let mut rows = [[0u8; 16]; N];
        let mut first = [0u8; 16];
        let mut i: usize = 0;
        while i < N
            invariant
                i <= N <= 16,
                forall|j: int| 0 <= j < i ==> #[trigger] first@[j] == j,
            decreases N - i,
        {
            first[i] = i as u8;
            i += 1;
        }
        rows[0] = first;
        let all = BitSet16::all_less_than(N);
        let mut col_masks = [all; N];
        let mut k: usize = 0;
        while k < N
            invariant
                k <= N <= 16,
                all@ == vstd::set_lib::set_int_range(0, N as int),
                forall|m: int| 0 <= m < k ==> #[trigger] col_masks@[m]@ == all@.remove(m),
                forall|m: int| k <= m < N ==> #[trigger] col_masks@[m]@ == all@,
            decreases N - k,
        {
            let mut mask = col_masks[k];
            mask.remove(k);
            col_masks[k] = mask;
            k += 1;
        }
        let r = RowPartialLatinSquare {
            rows,
            full_rows: 1,
            col_masks,
            min_row_cycles: [[false; N]; N],
            min_row_cycle_index: 0,
        };
        proof {
            assert forall|j: int| 0 <= j < N implies #[trigger] r.rows()[0][j] == j by {
                assert(r.rows()[0] == first@);
            }
        }
        r
    }

    /// The values that column `col_index` does not hold yet.
    pub fn get_col_mask(&self, col_index: usize) -> (r: BitSet16)
        requires
            col_index < N,
        ensures
            r@ == self.col_mask(col_index as int),
    {
        self.col_masks[col_index]
    }

    /// Row `row_index`.
    pub fn get_row(&self, row_index: usize) -> (r: &[u8; 16])
        requires
            row_index < N,
        ensures
            r@ == self.rows()[row_index as int],
    {
        &self.rows[row_index]
    }

    /// The number of filled rows.
    pub fn full_rows(&self) -> (r: usize)
        ensures
            r == self.filled(),
    {
        self.full_rows
    }

    /// Whether every row is filled.
    pub fn is_complete(&self) -> (r: bool)
        ensures
            r == (self.filled() == N),
    {
        self.full_rows == N
    }
}

/// Row `row` with its columns taken by `col` and its values renamed by `val`, as the byte
/// lookups do it: an index of 16 or more gives 0.
pub open spec fn shuffled_row(row: Seq<u8>, col: Seq<u8>, val: Seq<u8>) -> Seq<u8> {
    Seq::new(16, |j: int| if col[j] < 16 {
        if row[col[j] as int] < 16 { val[row[col[j] as int] as int] } else { 0u8 }
    } else {
        0u8
    })
}

/// The first entry of that row, as an index.
pub open spec fn first_of(row: Seq<u8>, col: Seq<u8>, val: Seq<u8>) -> int {
    shuffled_row(row, col, val)[0] as int
}

/// The rows, so changed, begin with different values below n.
pub open spec fn firsts_distinct(rows: Seq<[u8; 16]>, col: Seq<u8>, val: Seq<u8>, n: nat) -> bool {
    &&& forall|i: int| 0 <= i < n ==> #[trigger] first_of(rows[i]@, col, val) < n
    &&& forall|i: int, k: int| 0 <= i < n && 0 <= k < n && i != k ==> #[trigger] first_of(rows[i]@, col, val) != #[trigger] first_of(rows[k]@, col, val)
}

/// The first n bytes of `p` as a sequence of numbers.
pub open spec fn simd_images(p: PermutationSimd, n: nat) -> Seq<usize> {
    Seq::new(n, |i: int| p.bytes()[i] as usize)
}

/// Every entry of every list of the table permutes 0..n in its first n bytes.
pub open spec fn lookup_is_perms(lookup: Seq<Vec<(PermutationSimd, PermutationSimd)>>, n: nat) -> bool {
    forall|t: int, k: int| 0 <= t < lookup.len() && 0 <= k < lookup[t]@.len()
        ==> is_perm(simd_images(#[trigger] lookup[t]@[k].0, n), n) && is_perm(simd_images(lookup[t]@[k].1, n), n)
            && lookup[t]@[k].0.bytes().len() == 16 && lookup[t]@[k].1.bytes().len() == 16
}

/// `h` is `g` with its rows, columns and values permuted.
pub open spec fn is_isotopic(g: Seq<Seq<u8>>, h: Seq<Seq<u8>>, n: nat) -> bool {
    exists|r: Seq<usize>, c: Seq<usize>, s: Seq<usize>| is_perm(r, n) && is_perm(c, n) && is_perm(s, n)
        && #[trigger] is_isotope(g, r, c, s, h, n)
}

/// Taking the columns of a Latin square by `icp` and renaming its values by `sym`, and then
/// the same by the bytes `cb2` and `vb2` (permutations of 0..n), gives rows that begin with
/// different values; placed by their first values they form a square isotopic to it.
proof fn lemma_shuffle_isotope(
    in_rows: Seq<[u8; 16]>,
    g: Seq<Seq<u8>>,
    r1: Seq<[u8; 16]>,
    icp: Seq<usize>,
    sym: Seq<usize>,
    cb1: Seq<u8>,
    vb1: Seq<u8>,
    cb2: Seq<u8>,
    vb2: Seq<u8>,
    new: Seq<[u8; 16]>,
    n: nat,
)
    requires
        1 <= n <= 16,
        in_rows.len() == n,
        r1.len() == n,
        new.len() == n,
        g == square_part(in_rows.map_values(|r: [u8; 16]| r@), n),
        forall|i: int, j: int| 0 <= i < n && 0 <= j < n ==> #[trigger] g[i][j] < n,
        forall|i: int, k: int, c: int| 0 <= i < n && 0 <= k < n && 0 <= c < n && i != k ==> #[trigger] g[i][c] != #[trigger] g[k][c],
        is_perm(icp, n),
        is_perm(sym, n),
        cb1.len() == 16,
        vb1.len() == 16,
        cb2.len() == 16,
        vb2.len() == 16,
        forall|j: int| 0 <= j < n ==> #[trigger] cb1[j] as int == icp[j] as int,
        forall|v: int| 0 <= v < n ==> #[trigger] vb1[v] as int == sym[v] as int,
        forall|i: int| 0 <= i < n ==> #[trigger] r1[i]@ == shuffled_row(in_rows[i]@, cb1, vb1),
        is_perm(Seq::new(n, |j: int| cb2[j] as usize), n),
        is_perm(Seq::new(n, |v: int| vb2[v] as usize), n),
    ensures
        firsts_distinct(r1, cb2, vb2, n),
        (forall|i: int| 0 <= i < n ==> #[trigger] new[first_of(r1[i]@, cb2, vb2)]@ == shuffled_row(r1[i]@, cb2, vb2))
            ==> is_isotopic(g, square_part(new.map_values(|r: [u8; 16]| r@), n), n),
{
    let c2 = Seq::new(n, |j: int| cb2[j] as usize);
    let v2 = Seq::new(n, |v: int| vb2[v] as usize);
    assert forall|i: int, j: int| 0 <= i < n && 0 <= j < n implies #[trigger] r1[i]@[j] as int == sym[g[i][icp[j] as int] as int] as int by {
        assert(icp[j] < n);
        assert(cb1[j] as int == icp[j] as int);
        assert(g[i][icp[j] as int] == in_rows[i]@[icp[j] as int]);
        assert(g[i][icp[j] as int] < n);
        assert(vb1[g[i][icp[j] as int] as int] as int == sym[g[i][icp[j] as int] as int] as int);
    }
    // entries of the final rows
    assert forall|i: int, j: int| 0 <= i < n && 0 <= j < n implies #[trigger] shuffled_row(r1[i]@, cb2, vb2)[j] as int
        == vb2[sym[g[i][icp[cb2[j] as int] as int] as int] as int] as int by {
        assert(c2[j] < n);
        let k = cb2[j] as int;
        assert(r1[i]@[k] as int == sym[g[i][icp[k] as int] as int] as int);
        assert(icp[k] < n);
        assert(g[i][icp[k] as int] < n);
        assert(sym[g[i][icp[k] as int] as int] < n);
    }
    let col0 = icp[cb2[0] as int] as int;
    assert(c2[0] < n);
    assert(0 <= col0 < n);
    assert forall|i: int| 0 <= i < n implies #[trigger] first_of(r1[i]@, cb2, vb2) < n by {
        assert(shuffled_row(r1[i]@, cb2, vb2)[0] as int == vb2[sym[g[i][col0] as int] as int] as int);
        assert(g[i][col0] < n);
        assert(sym[g[i][col0] as int] < n);
        assert(v2[sym[g[i][col0] as int] as int] < n);
    }
    assert forall|i: int, k: int| 0 <= i < n && 0 <= k < n && i != k implies #[trigger] first_of(r1[i]@, cb2, vb2) != #[trigger] first_of(r1[k]@, cb2, vb2) by {
        assert(shuffled_row(r1[i]@, cb2, vb2)[0] as int == vb2[sym[g[i][col0] as int] as int] as int);
        assert(shuffled_row(r1[k]@, cb2, vb2)[0] as int == vb2[sym[g[k][col0] as int] as int] as int);
        assert(g[i][col0] != g[k][col0]);
        assert(g[i][col0] < n && g[k][col0] < n);
        assert(sym[g[i][col0] as int] != sym[g[k][col0] as int]);
        assert(sym[g[i][col0] as int] < n && sym[g[k][col0] as int] < n);
        assert(v2[sym[g[i][col0] as int] as int] != v2[sym[g[k][col0] as int] as int]);
    }
    if forall|i: int| 0 <= i < n ==> #[trigger] new[first_of(r1[i]@, cb2, vb2)]@ == shuffled_row(r1[i]@, cb2, vb2) {
        let h = square_part(new.map_values(|r: [u8; 16]| r@), n);
        let rr = Seq::new(n, |i: int| first_of(r1[i]@, cb2, vb2) as usize);
        let comp = Seq::new(n, |j: int| icp[cb2[j] as int]);
        let cc = Seq::new(n, |k: int| index_of(comp, k) as usize);
        let ss = Seq::new(n, |v: int| vb2[sym[v] as int] as usize);
        assert forall|j: int, k: int| 0 <= j < n && 0 <= k < n && j != k implies #[trigger] comp[j] != #[trigger] comp[k] by {
            assert(c2[j] != c2[k]);
            assert(c2[j] < n && c2[k] < n);
        }
        assert forall|j: int| 0 <= j < n implies #[trigger] comp[j] < n by {
            assert(c2[j] < n);
        }
        lemma_perm_surjective(comp, n);
        assert forall|i: int, k: int| 0 <= i < n && 0 <= k < n && i != k implies #[trigger] rr[i] != #[trigger] rr[k] by {
            assert(first_of(r1[i]@, cb2, vb2) != first_of(r1[k]@, cb2, vb2));
        }
        assert forall|i: int| 0 <= i < n implies #[trigger] rr[i] < n by {
            assert(first_of(r1[i]@, cb2, vb2) < n);
        }
        assert forall|a: int, b: int| 0 <= a < n && 0 <= b < n && a != b implies #[trigger] cc[a] != #[trigger] cc[b] by {
            assert(comp[index_of(comp, a)] as int == a);
            assert(comp[index_of(comp, b)] as int == b);
        }
        assert forall|a: int| 0 <= a < n implies #[trigger] cc[a] < n by {
            assert(0 <= index_of(comp, a) < n);
        }
        assert forall|a: int, b: int| 0 <= a < n && 0 <= b < n && a != b implies #[trigger] ss[a] != #[trigger] ss[b] by {
            assert(sym[a] != sym[b]);
            assert(sym[a] < n && sym[b] < n);
            assert(v2[sym[a] as int] != v2[sym[b] as int]);
        }
        assert forall|a: int| 0 <= a < n implies #[trigger] ss[a] < n by {
            assert(sym[a] < n);
            assert(v2[sym[a] as int] < n);
        }
        assert forall|i: int, k: int| 0 <= i < n && 0 <= k < n implies #[trigger] h[rr[i] as int][cc[k] as int] as int == ss[g[i][k] as int] as int by {
            let j = index_of(comp, k);
            assert(0 <= j < n && comp[j] as int == k);
            let f = first_of(r1[i]@, cb2, vb2);
            assert(0 <= f < n);
            assert(new[f]@ == shuffled_row(r1[i]@, cb2, vb2));
            assert(h[f] == new[f]@.subrange(0, n as int));
            assert(h[f][j] == shuffled_row(r1[i]@, cb2, vb2)[j]);
            assert(g[i][k] < n);
            assert(sym[g[i][k] as int] < n);
        }
        assert(is_isotope(g, rr, cc, ss, h, n));
    }
}

/// The square that table entry (the value renaming `vb2`, the column order `cb2`) makes of
/// the rows `r1` (the square `g` with its columns taken by `icp` and its values renamed by
/// `sym`, so that row `x` reads 0, 1, ...), its rows placed by their first entries, is the
/// normalised square.
proof fn lemma_rows_image(
    in_rows: Seq<[u8; 16]>,
    g: Seq<Seq<u8>>,
    r1: Seq<[u8; 16]>,
    x: int,
    rr: Seq<usize>,
    icp: Seq<usize>,
    sym: Seq<usize>,
    cb1: Seq<u8>,
    vb1: Seq<u8>,
    cb2: Seq<u8>,
    vb2: Seq<u8>,
    new: Seq<[u8; 16]>,
    n: nat,
)
    requires
        1 <= n <= 16,
        0 <= x < n,
        in_rows.len() == n,
        r1.len() == n,
        new.len() == n,
        g == square_part(in_rows.map_values(|r: [u8; 16]| r@), n),
        forall|i: int, j: int| 0 <= i < n && 0 <= j < n ==> #[trigger] g[i][j] < n,
        forall|i: int, k: int, c: int| 0 <= i < n && 0 <= k < n && 0 <= c < n && i != k ==> #[trigger] g[i][c] != #[trigger] g[k][c],
        is_perm(icp, n),
        is_perm(sym, n),
        is_perm(rr, n),
        forall|c: int| 0 <= c < n ==> #[trigger] rr[c] == sym[g[x][c] as int],
        forall|k: int| 0 <= k < n ==> #[trigger] rr[icp[k] as int] == k,
        cb1.len() == 16,
        vb1.len() == 16,
        cb2.len() == 16,
        vb2.len() == 16,
        forall|j: int| 0 <= j < n ==> #[trigger] cb1[j] as int == icp[j] as int,
        forall|v: int| 0 <= v < n ==> #[trigger] vb1[v] as int == sym[v] as int,
        forall|i: int| 0 <= i < n ==> #[trigger] r1[i]@ == shuffled_row(in_rows[i]@, cb1, vb1),
        is_perm(Seq::new(n, |j: int| cb2[j] as usize), n),
        is_perm(Seq::new(n, |v: int| vb2[v] as usize), n),
        forall|i: int| 0 <= i < n ==> #[trigger] new[first_of(r1[i]@, cb2, vb2)]@ == shuffled_row(r1[i]@, cb2, vb2),
    ensures
        square_part(new.map_values(|r: [u8; 16]| r@), n)
            == normalised(g, x, sym, Seq::new(n, |v: int| vb2[v] as usize), Seq::new(n, |j: int| cb2[j] as usize), n),
{
    lemma_shuffle_isotope(in_rows, g, r1, icp, sym, cb1, vb1, cb2, vb2, new, n);
    let sv = Seq::new(n, |v: int| vb2[v] as usize);
    let ic = Seq::new(n, |j: int| cb2[j] as usize);
    let t1 = Seq::new(n, |i: int| Seq::new(n, |j: int| r1[i]@[j]));
    let t2 = Seq::new(n, |i: int| shuffled_row(r1[i]@, cb2, vb2).subrange(0, n as int));
    let rf = Seq::new(n, |i: int| first_of(r1[i]@, cb2, vb2) as usize);
    let res = square_part(new.map_values(|r: [u8; 16]| r@), n);
    assert forall|i: int, j: int| 0 <= i < n && 0 <= j < n implies #[trigger] t1[i][j] as int == sym[g[i][icp[j] as int] as int] as int by {
        assert(icp[j] < n);
        assert(g[i][icp[j] as int] == in_rows[i]@[icp[j] as int]);
        assert(g[i][icp[j] as int] < n);
        assert(r1[i]@[j] == shuffled_row(in_rows[i]@, cb1, vb1)[j]);
    }
    assert forall|i: int, j: int| 0 <= i < n && 0 <= j < n implies #[trigger] t2[i][j] as int == sv[t1[i][ic[j] as int] as int] as int by {
        assert(ic[j] < n);
        let k = cb2[j] as int;
        assert(t1[i][k] as int == sym[g[i][icp[k] as int] as int] as int);
        assert(icp[k] < n);
        assert(g[i][icp[k] as int] < n);
        assert(sym[g[i][icp[k] as int] as int] < n);
        assert(t2[i][j] == shuffled_row(r1[i]@, cb2, vb2)[j]);
    }
    assert forall|i: int, j: int| 0 <= i < n && 0 <= j < n implies #[trigger] g[i][j] < n by {}
    assert forall|k: int| 0 <= k < n implies #[trigger] sym[g[x][icp[k] as int] as int] as int == k by {
        assert(icp[k] < n);
        assert(rr[icp[k] as int] == k);
    }
    assert forall|c: int, d: int| 0 <= c < n && 0 <= d < n && c != d implies #[trigger] sym[g[x][c] as int] != #[trigger] sym[g[x][d] as int] by {
        assert(rr[c] != rr[d]);
    }
    assert forall|i: int, k: int| 0 <= i < n && 0 <= k < n && i != k implies #[trigger] rf[i] != #[trigger] rf[k] by {
        assert(first_of(r1[i]@, cb2, vb2) != first_of(r1[k]@, cb2, vb2));
    }
    assert forall|i: int| 0 <= i < n implies #[trigger] rf[i] < n by {
        assert(first_of(r1[i]@, cb2, vb2) < n);
    }
    assert forall|i: int| 0 <= i < n implies #[trigger] rf[i] == t2[i][0] as usize by {}
    assert forall|i: int| 0 <= i < n implies #[trigger] res[rf[i] as int] == t2[i] by {
        let f = first_of(r1[i]@, cb2, vb2);
        assert(new[f]@ == shuffled_row(r1[i]@, cb2, vb2));
        assert(res[f] =~= t2[i]);
    }
    assert forall|i: int| 0 <= i < n implies (#[trigger] res[i]).len() == n by {}
    lemma_normalised(g, x, sym, sv, ic, icp, t1, t2, rf, res, n);
}

/// The least of two squares in reading order, the first on a tie.
pub open spec fn grid_min(a: Seq<Seq<u8>>, b: Seq<Seq<u8>>, n: nat) -> Seq<Seq<u8>> {
    if grid_less(b, a, n) { b } else { a }
}

/// `best` lowered, in reading order, by the squares that the first `p` entries of the list
/// `lk` make of `g` by row `x`, whose values are renamed by `sym`.
pub open spec fn lowered_by_list(
    best: Seq<Seq<u8>>,
    g: Seq<Seq<u8>>,
    x: int,
    sym: Seq<usize>,
    lk: Seq<(PermutationSimd, PermutationSimd)>,
    p: nat,
    n: nat,
) -> Seq<Seq<u8>>
    decreases p,
{
    if p == 0 {
        best
    } else {
        grid_min(lowered_by_list(best, g, x, sym, lk, (p - 1) as nat, n),
            normalised(g, x, sym, simd_images(lk[p - 1].0, n), simd_images(lk[p - 1].1, n), n), n)
    }
}

/// What the scan of the row pairs holds: the least type position met, the least square,
/// the marked pairs, and whether every decomposition and renaming used was a right one.
pub type RowsScan = (int, Seq<Seq<u8>>, Set<(int, int)>, bool);

/// Handling row pair (x, y): a pair of a type after the least one met stops the scan of
/// its two rows; any other lowers the least type to its own (clearing the marks when it
/// is lower), is marked, and lowers the least square by the table's list for its type.
pub open spec fn rows_pair_step(
    g: Seq<Seq<u8>>,
    st: Seq<Seq<usize>>,
    lookup: Seq<Vec<(PermutationSimd, PermutationSimd)>>,
    dec: Seq<Seq<Seq<Seq<usize>>>>,
    rel: Seq<Seq<Seq<usize>>>,
    n: nat,
    s: RowsScan,
    x: int,
    y: int,
) -> (RowsScan, bool) {
    let valid = is_cycle_decomposition(line_perm(g[x], g[y], n), n, dec[x][y]);
    let ty = decomposition_type(st, dec[x][y]);
    if ty > s.0 {
        ((s.0, s.1, s.2, s.3 && valid), true)
    } else {
        let marks = if ty < s.0 { Set::<(int, int)>::empty() } else { s.2 };
        let best = if 0 <= ty < lookup.len() {
            lowered_by_list(s.1, g, x, rel[x][y], lookup[ty]@, lookup[ty]@.len(), n)
        } else {
            s.1
        };
        ((ty, best, marks.insert((x, y)), s.3 && valid && is_relabeling(dec[x][y], rel[x][y], n)), false)
    }
}

/// Handling rows a < b: the pair (a, b), then, unless it stopped, the pair (b, a).
pub open spec fn rows_block_step(
    g: Seq<Seq<u8>>,
    st: Seq<Seq<usize>>,
    lookup: Seq<Vec<(PermutationSimd, PermutationSimd)>>,
    dec: Seq<Seq<Seq<Seq<usize>>>>,
    rel: Seq<Seq<Seq<usize>>>,
    n: nat,
    s: RowsScan,
    a: int,
    b: int,
) -> RowsScan {
    let first = rows_pair_step(g, st, lookup, dec, rel, n, s, a, b);
    if first.1 { first.0 } else { rows_pair_step(g, st, lookup, dec, rel, n, first.0, b, a).0 }
}

/// The scan before rows a < b, starting from the last type position, `g` itself and no
/// marks: the rows are taken by a, then by b.
pub open spec fn rows_scan_upto(
    g: Seq<Seq<u8>>,
    st: Seq<Seq<usize>>,
    lookup: Seq<Vec<(PermutationSimd, PermutationSimd)>>,
    dec: Seq<Seq<Seq<Seq<usize>>>>,
    rel: Seq<Seq<Seq<usize>>>,
    n: nat,
    a: int,
    b: int,
) -> RowsScan
    decreases a, b,
{
    if a < 0 || b < 0 || (a == 0 && b <= 1) {
        (last_position(st), g, Set::empty(), true)
    } else if b <= a + 1 {
        rows_scan_upto(g, st, lookup, dec, rel, n, a - 1, n as int)
    } else {
        rows_block_step(g, st, lookup, dec, rel, n, rows_scan_upto(g, st, lookup, dec, rel, n, a, b - 1), a, b - 1)
    }
}

/// The scan depends only on the decompositions and renamings of the pairs before (a, b).
proof fn lemma_rows_scan_frame(
    g: Seq<Seq<u8>>,
    st: Seq<Seq<usize>>,
    lookup: Seq<Vec<(PermutationSimd, PermutationSimd)>>,
    dec: Seq<Seq<Seq<Seq<usize>>>>,
    rel: Seq<Seq<Seq<usize>>>,
    dec2: Seq<Seq<Seq<Seq<usize>>>>,
    rel2: Seq<Seq<Seq<usize>>>,
    n: nat,
    a: int,
    b: int,
)
    requires
        a <= n,
        b <= n || b <= a + 1,
        forall|x: int, y: int| is_row_pair(x, y, n) && scanned(x, y, a, b, 0) ==> #[trigger] dec2[x][y] == dec[x][y] && rel2[x][y] == rel[x][y],
    ensures
        rows_scan_upto(g, st, lookup, dec2, rel2, n, a, b) == rows_scan_upto(g, st, lookup, dec, rel, n, a, b),
    decreases a, b,
{
    if a < 0 || b < 0 || (a == 0 && b <= 1) {
    } else if b <= a + 1 {
        assert forall|x: int, y: int| is_row_pair(x, y, n) && scanned(x, y, a - 1, n as int, 0) implies #[trigger] dec2[x][y] == dec[x][y] && rel2[x][y] == rel[x][y] by {
            assert(scanned(x, y, a, b, 0));
        }
        lemma_rows_scan_frame(g, st, lookup, dec, rel, dec2, rel2, n, a - 1, n as int);
    } else {
        assert forall|x: int, y: int| is_row_pair(x, y, n) && scanned(x, y, a, b - 1, 0) implies #[trigger] dec2[x][y] == dec[x][y] && rel2[x][y] == rel[x][y] by {
            assert(scanned(x, y, a, b, 0));
        }
        lemma_rows_scan_frame(g, st, lookup, dec, rel, dec2, rel2, n, a, b - 1);
        assert(scanned(a, b - 1, a, b, 0));
        assert(scanned(b - 1, a, a, b, 0));
        assert(dec2[a][b - 1] == dec[a][b - 1] && rel2[a][b - 1] == rel[a][b - 1]);
        assert(dec2[b - 1][a] == dec[b - 1][a] && rel2[b - 1][a] == rel[b - 1][a]);
    }
}

/// The entries of `idx` looked up in `table`; an index of 16 or more gives 0.
fn swizzle(table: &[u8; 16], idx: &[u8; 16]) -> (r: [u8; 16])
    ensures
        forall|i: int| 0 <= i < 16 ==> #[trigger] r@[i] == if idx@[i] < 16 { table@[idx@[i] as int] } else { 0u8 },
{
    let mut out = [0u8; 16];
    let mut i: usize = 0;
    while i < 16
        invariant
            i <= 16,
            forall|k: int| 0 <= k < i ==> #[trigger] out@[k] == if idx@[k] < 16 { table@[idx@[k] as int] } else { 0u8 },
        decreases 16 - i,
    {
        let x = idx[i];
        out[i] = if x < 16 { table[x as usize] } else { 0 };
        i += 1;
    }
    out
}

/// The permutation as sixteen bytes, the places from N on left as they are.
fn to_simd<const N: usize>(p: &Permutation<N>) -> (r: PermutationSimd)
    requires
        N <= 16,
    ensures
        r.size() == N,
        r.bytes().len() == 16,
        forall|i: int| 0 <= i < N ==> #[trigger] r.bytes()[i] as int == p@[i] as int,
{
    let mut arr = [0u8; 16];
    let mut i: usize = 0;
    while i < 16
        invariant
            i <= 16,
            N <= 16,
            forall|k: int| 0 <= k < i && k < N ==> #[trigger] arr@[k] as int == p@[k] as int,
        decreases 16 - i,
    {
        if i < N {
            arr[i] = p.apply(i) as u8;
        } else {
            arr[i] = i as u8;
        }
        i += 1;
    }
    PermutationSimd::from_array(N as u8, arr)
}

/// -1, 0 or 1 as the first n entries of `a` come before, equal or come after those of `b`.
fn compare_prefix(a: &[u8; 16], b: &[u8; 16], n: usize) -> (r: i8)
    requires
        n <= 16,
    ensures
        r == 0 ==> forall|l: int| 0 <= l < n ==> #[trigger] a@[l] == b@[l],
        r == -1 ==> exists|j: int| 0 <= j < n && (forall|l: int| 0 <= l < j ==> #[trigger] a@[l] == b@[l]) && a@[j] < b@[j],
        r == 1 ==> exists|j: int| 0 <= j < n && (forall|l: int| 0 <= l < j ==> #[trigger] a@[l] == b@[l]) && b@[j] < a@[j],
        -1 <= r <= 1,
{
    let mut j: usize = 0;
    while j < n
        invariant
            j <= n <= 16,
            forall|l: int| 0 <= l < j ==> #[trigger] a@[l] == b@[l],
        decreases n - j,
    {
        if a[j] < b[j] {
            return -1;
        }
        if a[j] > b[j] {
            return 1;
        }
        j += 1;
    }
    0
}

impl<const N: usize> RowPartialLatinSquare<N> {
    /// Each row with its values renamed by `val_permutation` and its columns taken by
    /// `inverse_column_permutation`; with `sort_rows`, each new row is put at the place its
    /// first entry names, and the count of rows drops by one for each row whose first entry
    /// is past the count.
    fn permuted_cols_vals_simd(
        rows: &[[u8; 16]; N],
        inverse_column_permutation: &PermutationSimd,
        val_permutation: &PermutationSimd,
        sort_rows: bool,
    ) -> (r: ([[u8; 16]; N], usize))
        ensures
            r.1 <= N,
            !sort_rows ==> r.1 == N && forall|i: int| 0 <= i < N ==> #[trigger] r.0@[i]@
                == shuffled_row(rows@[i]@, inverse_column_permutation.bytes(), val_permutation.bytes()),
            sort_rows && firsts_distinct(rows@, inverse_column_permutation.bytes(), val_permutation.bytes(), N as nat)
                ==> r.1 == N && forall|i: int| 0 <= i < N ==> #[trigger] r.0@[first_of(rows@[i]@, inverse_column_permutation.bytes(), val_permutation.bytes())]@
                    == shuffled_row(rows@[i]@, inverse_column_permutation.bytes(), val_permutation.bytes()),
    {
        let col = inverse_column_permutation.as_array();
        let val = val_permutation.as_array();
        let ghost cb = inverse_column_permutation.bytes();
        let ghost vb = val_permutation.bytes();
        let ghost ok = firsts_distinct(rows@, cb, vb, N as nat);
        let mut new_rows = [[0u8; 16]; N];
        let mut full_rows: usize = N;
        let mut i: usize = 0;
        while i < N
            invariant
                i <= N,
                N - i <= full_rows <= N,
                col@ == cb,
                val@ == vb,
                ok == firsts_distinct(rows@, cb, vb, N as nat),
                !sort_rows ==> full_rows == N && forall|k: int| 0 <= k < i ==> #[trigger] new_rows@[k]@ == shuffled_row(rows@[k]@, cb, vb),
                sort_rows && ok ==> full_rows == N && forall|k: int| 0 <= k < i ==> #[trigger] new_rows@[first_of(rows@[k]@, cb, vb)]@
                    == shuffled_row(rows@[k]@, cb, vb),
            decreases N - i,
        {
            let inner = swizzle(val, &rows[i]);
            let new_row = swizzle(&inner, col);
            proof {
                assert(new_row@ =~= shuffled_row(rows@[i as int]@, cb, vb));
            }
            if sort_rows {
                if full_rows > new_row[0] as usize {
                    let ghost before = new_rows@;
                    new_rows[new_row[0] as usize] = new_row;
                    proof {
                        if ok {
                            assert forall|k: int| 0 <= k < i + 1 implies #[trigger] new_rows@[first_of(rows@[k]@, cb, vb)]@
                                == shuffled_row(rows@[k]@, cb, vb) by {
                                if k < i {
                                    assert(first_of(rows@[k]@, cb, vb) != first_of(rows@[i as int]@, cb, vb));
                                }
                            }
                        }
                    }
                } else {
                    proof {
                        if ok {
                            assert(first_of(rows@[i as int]@, cb, vb) < N);
                        }
                    }
                    full_rows -= 1;
                }
            } else {
                new_rows[i] = new_row;
            }
            i += 1;
        }
        (new_rows, full_rows)
    }

    /// The complete square of the rows `in_rows` (their first N entries, a Latin square)
    /// brought, by the row pairs of the least cycle type and the table `lookup`, to the
    /// least arrangement in reading order that the search meets, with the pairs of rows of
    /// that type marked.
    pub fn from_rows(in_rows: [[u8; 16]; N], lookup: &Vec<Vec<(PermutationSimd, PermutationSimd)>>) -> (r: Self)
        requires
            1 <= N <= 16,
            is_latin(square_part(padded_rows(in_rows), N as nat), N as nat),
        ensures
            r.filled() == N,
            forall|i: int| 0 <= i < N ==> #[trigger] r.col_mask(i) == Set::<int>::empty(),
            grid_le(square_part(r.rows(), N as nat), square_part(padded_rows(in_rows), N as nat), N as nat),
            lookup_is_perms(lookup@, N as nat) ==> is_isotopic(square_part(padded_rows(in_rows), N as nat), square_part(r.rows(), N as nat), N as nat),
            exists|st: Seq<Seq<usize>>, dec: Seq<Seq<Seq<Seq<usize>>>>, rel: Seq<Seq<Seq<usize>>>|
                #[trigger] r.is_scan_outcome(square_part(padded_rows(in_rows), N as nat), st, lookup@, dec, rel),
    {
        let ghost target = square_part(padded_rows(in_rows), N as nat);
        let full_rows = N;
        let structures = generate_cycle_structures(N);
        let mut min_row_cycle_index: usize = if structures.len() == 0 { 0 } else { structures.len() - 1 };
        let mut min_rows = in_rows;
        let mut min_row_cycles = [[false; N]; N];
        let mut square = [[0u8; N]; N];
        let mut a: usize = 0;
        while a < N
            invariant
                a <= N <= 16,
                forall|i: int, j: int| 0 <= i < a && 0 <= j < N ==> #[trigger] square@[i]@[j] == in_rows@[i]@[j],
            decreases N - a,
        {
            let mut j: usize = 0;
            let mut row = [0u8; N];
            while j < N
                invariant
                    j <= N <= 16,
                    a < N,
                    forall|l: int| 0 <= l < j ==> #[trigger] row@[l] == in_rows@[a as int]@[l],
                decreases N - j,
            {
                row[j] = in_rows[a][j];
                j += 1;
            }
            square[a] = row;
            a += 1;
        }
        proof {
            assert(grid(square) =~~= target) by {
                assert forall|i: int| 0 <= i < N implies #[trigger] grid(square)[i] =~= target[i] by {
                    assert forall|j: int| 0 <= j < N implies grid(square)[i][j] == target[i][j] by {
                        assert(square@[i]@[j] == in_rows@[i]@[j]);
                    }
                }
            }
        }
        let sq = LatinSquare::new(square);
        let ghost st = seqs(structures@);
        let ghost mut dec: Seq<Seq<Seq<Seq<usize>>>> = Seq::new(N as nat, |k: int| Seq::new(N as nat, |l: int| Seq::<Seq<usize>>::empty()));
        let ghost mut rel: Seq<Seq<Seq<usize>>> = Seq::new(N as nat, |k: int| Seq::new(N as nat, |l: int| Seq::<usize>::empty()));
        let ghost mut gbest: Seq<Seq<u8>> = target;
        let ghost mut gmarks: Set<(int, int)> = Set::empty();
        let ghost mut gok: bool = true;
        proof {
            use_type_invariant(&sq);
            LatinSquare::<N>::lemma_latin(&sq);
            lemma_rows_are_lines(&sq);
            crate::isotopy::lemma_structure_list(structures@, N as nat);
            crate::set_util::lemma_identity_is_perm(N as nat);
            let id = crate::set_util::identity_seq(N as nat);
            assert forall|k: int, c: int| 0 <= k < N && 0 <= c < N implies #[trigger] target[id[k] as int][id[c] as int] as int == id[target[k][c] as int] as int by {
                assert(target[k][c] < N);
            }
            assert(is_isotope(target, id, id, id, square_part(padded_rows(min_rows), N as nat), N as nat));
            assert(min_row_cycle_index as int == last_position(st));
            assert((min_row_cycle_index as int, gbest, gmarks, gok) == rows_scan_upto(target, st, lookup@, dec, rel, N as nat, 0, 1));
        }
        let mut a: usize = 0;
        while a < N
            invariant
                a <= N,
                1 <= N <= 16,
                sq@ == target,
                target == square_part(padded_rows(in_rows), N as nat),
                full_rows == N,
                st == seqs(structures@),
                is_structure_list(st, N as nat),
                gok,
                forall|k: int| 0 <= k < N ==> #[trigger] crate::cycle_types::is_line(target[k], N as nat),
                forall|k: int, l: int, c: int| 0 <= k < N && 0 <= l < N && 0 <= c < N && k != l ==> #[trigger] target[k][c] != #[trigger] target[l][c],
                forall|k: int, c: int| 0 <= k < N && 0 <= c < N ==> #[trigger] target[k][c] < N,
                dec.len() == N,
                rel.len() == N,
                forall|k: int| 0 <= k < N ==> (#[trigger] dec[k]).len() == N,
                forall|k: int| 0 <= k < N ==> (#[trigger] rel[k]).len() == N,
                forall|k: int, l: int| 0 <= k < N && 0 <= l < N ==> (#[trigger] min_row_cycles@[k]@[l] <==> gmarks.contains((k, l))),
                forall|q: (int, int)| #[trigger] gmarks.contains(q) ==> 0 <= q.0 < N && 0 <= q.1 < N,
                grid_le(square_part(padded_rows(min_rows), N as nat), target, N as nat),
                lookup_is_perms(lookup@, N as nat) ==> is_isotopic(target, square_part(padded_rows(min_rows), N as nat), N as nat),
                lookup_is_perms(lookup@, N as nat) ==> square_part(padded_rows(min_rows), N as nat) == gbest,
                (min_row_cycle_index as int, gbest, gmarks, gok) == rows_scan_upto(target, st, lookup@, dec, rel, N as nat, a as int, a + 1),
            decreases N - a,
        {
            let mut b: usize = a + 1;
            while b < N
                invariant
                    a < N,
                    a + 1 <= b <= N,
                    1 <= N <= 16,
                    sq@ == target,
                    target == square_part(padded_rows(in_rows), N as nat),
                    full_rows == N,
                    st == seqs(structures@),
                    is_structure_list(st, N as nat),
                    gok,
                    forall|k: int| 0 <= k < N ==> #[trigger] crate::cycle_types::is_line(target[k], N as nat),
                    forall|k: int, l: int, c: int| 0 <= k < N && 0 <= l < N && 0 <= c < N && k != l ==> #[trigger] target[k][c] != #[trigger] target[l][c],
                    forall|k: int, c: int| 0 <= k < N && 0 <= c < N ==> #[trigger] target[k][c] < N,
                    dec.len() == N,
                    rel.len() == N,
                    forall|k: int| 0 <= k < N ==> (#[trigger] dec[k]).len() == N,
                forall|k: int| 0 <= k < N ==> (#[trigger] rel[k]).len() == N,
                    forall|k: int, l: int| 0 <= k < N && 0 <= l < N ==> (#[trigger] min_row_cycles@[k]@[l] <==> gmarks.contains((k, l))),
                    forall|q: (int, int)| #[trigger] gmarks.contains(q) ==> 0 <= q.0 < N && 0 <= q.1 < N,
                    grid_le(square_part(padded_rows(min_rows), N as nat), target, N as nat),
                    lookup_is_perms(lookup@, N as nat) ==> is_isotopic(target, square_part(padded_rows(min_rows), N as nat), N as nat),
                    lookup_is_perms(lookup@, N as nat) ==> square_part(padded_rows(min_rows), N as nat) == gbest,
                    (min_row_cycle_index as int, gbest, gmarks, gok) == rows_scan_upto(target, st, lookup@, dec, rel, N as nat, a as int, b as int),
                decreases N - b,
            {
                let ghost s0 = (min_row_cycle_index as int, gbest, gmarks, gok);
                let mut t: usize = 0;
                while t < 2
                    invariant_except_break
                        t == 0 ==> (min_row_cycle_index as int, gbest, gmarks, gok) == rows_scan_upto(target, st, lookup@, dec, rel, N as nat, a as int, b as int),
                        t == 1 ==> (min_row_cycle_index as int, gbest, gmarks, gok) == rows_pair_step(target, st, lookup@, dec, rel, N as nat,
                            rows_scan_upto(target, st, lookup@, dec, rel, N as nat, a as int, b as int), a as int, b as int).0
                            && !rows_pair_step(target, st, lookup@, dec, rel, N as nat,
                            rows_scan_upto(target, st, lookup@, dec, rel, N as nat, a as int, b as int), a as int, b as int).1,
                    invariant
                        a < b < N,
                        t <= 2,
                        1 <= N <= 16,
                        sq@ == target,
                        target == square_part(padded_rows(in_rows), N as nat),
                        full_rows == N,
                        st == seqs(structures@),
                        is_structure_list(st, N as nat),
                        gok,
                        forall|k: int| 0 <= k < N ==> #[trigger] crate::cycle_types::is_line(target[k], N as nat),
                        forall|k: int, l: int, c: int| 0 <= k < N && 0 <= l < N && 0 <= c < N && k != l ==> #[trigger] target[k][c] != #[trigger] target[l][c],
                        forall|k: int, c: int| 0 <= k < N && 0 <= c < N ==> #[trigger] target[k][c] < N,
                        dec.len() == N,
                        rel.len() == N,
                        forall|k: int| 0 <= k < N ==> (#[trigger] dec[k]).len() == N,
                forall|k: int| 0 <= k < N ==> (#[trigger] rel[k]).len() == N,
                        forall|k: int, l: int| 0 <= k < N && 0 <= l < N ==> (#[trigger] min_row_cycles@[k]@[l] <==> gmarks.contains((k, l))),
                        forall|q: (int, int)| #[trigger] gmarks.contains(q) ==> 0 <= q.0 < N && 0 <= q.1 < N,
                        grid_le(square_part(padded_rows(min_rows), N as nat), target, N as nat),
                        lookup_is_perms(lookup@, N as nat) ==> is_isotopic(target, square_part(padded_rows(min_rows), N as nat), N as nat),
                        lookup_is_perms(lookup@, N as nat) ==> square_part(padded_rows(min_rows), N as nat) == gbest,
                        t == 2 ==> (min_row_cycle_index as int, gbest, gmarks, gok) == rows_block_step(target, st, lookup@, dec, rel, N as nat,
                            rows_scan_upto(target, st, lookup@, dec, rel, N as nat, a as int, b as int), a as int, b as int),
                    ensures
                        (min_row_cycle_index as int, gbest, gmarks, gok) == rows_block_step(target, st, lookup@, dec, rel, N as nat,
                            rows_scan_upto(target, st, lookup@, dec, rel, N as nat, a as int, b as int), a as int, b as int),
                    decreases 2 - t,
                {
                    let (x, y) = if t == 0 { (a, b) } else { (b, a) };
                    let ghost dec0 = dec;
                    let ghost rel0 = rel;
                    let ghost sb = (min_row_cycle_index as int, gbest, gmarks, gok);
                    let ghost su = rows_scan_upto(target, st, lookup@, dec, rel, N as nat, a as int, b as int);
                    let pair_permutation = line_permutation(sq.get_row(x), sq.get_row(y));
                    let pair_cycles = pair_permutation.cycles();
                    let cycle_index = cycle_type_index(&pair_cycles, &structures);
                    proof {
                        dec = dec.update(x as int, dec[x as int].update(y as int, seqs_of(pair_cycles@)));
                        assert forall|k: int, l: int| is_row_pair(k, l, N as nat) && scanned(k, l, a as int, b as int, 0)
                            implies #[trigger] dec[k][l] == dec0[k][l] && rel[k][l] == rel0[k][l] by {
                            if k == x {
                                assert(l != y);
                            }
                        }
                        lemma_rows_scan_frame(target, st, lookup@, dec0, rel0, dec, rel, N as nat, a as int, b as int);
                        assert(dec[x as int][y as int] == seqs_of(pair_cycles@));
                        assert forall|k: int| 0 <= k < N implies (#[trigger] dec[k]).len() == N by {}
                        assert forall|k: int| 0 <= k < N implies (#[trigger] rel[k]).len() == N by {}
                        let su2 = rows_scan_upto(target, st, lookup@, dec, rel, N as nat, a as int, b as int);
                        assert(su2 == su);
                        if t == 1 {
                            assert(dec[a as int][b as int] == dec0[a as int][b as int]);
                            assert(rows_pair_step(target, st, lookup@, dec, rel, N as nat, su2, a as int, b as int)
                                == rows_pair_step(target, st, lookup@, dec0, rel0, N as nat, su, a as int, b as int));
                        }
                    }
                    let ghost valid = is_cycle_decomposition(line_perm(target[x as int], target[y as int], N as nat), N as nat, dec[x as int][y as int]);
                    if cycle_index < min_row_cycle_index {
                        min_row_cycle_index = cycle_index;
                        min_row_cycles = [[false; N]; N];
                        proof {
                            gmarks = Set::empty();
                        }
                    } else if cycle_index > min_row_cycle_index {
                        proof {
                            assert(valid);
                            gok = gok && valid;
                            let su2 = rows_scan_upto(target, st, lookup@, dec, rel, N as nat, a as int, b as int);
                            assert((min_row_cycle_index as int, gbest, gmarks, gok) == rows_pair_step(target, st, lookup@, dec, rel, N as nat, sb, x as int, y as int).0);
                            assert(rows_pair_step(target, st, lookup@, dec, rel, N as nat, sb, x as int, y as int).1);
                            if t == 0 {
                                assert(sb == su2);
                            } else {
                                assert(sb == rows_pair_step(target, st, lookup@, dec, rel, N as nat, su2, a as int, b as int).0);
                            }
                        }
                        break;
                    }
                    let mut marks = min_row_cycles[x];
                    marks[y] = true;
                    min_row_cycles[x] = marks;
                    proof {
                        gmarks = gmarks.insert((x as int, y as int));
                        assert forall|k: int, l: int| 0 <= k < N && 0 <= l < N implies (#[trigger] min_row_cycles@[k]@[l] <==> gmarks.contains((k, l))) by {}
                    }
                    let symbol_permutation = symbol_relabeling(&pair_permutation, &pair_cycles);
                    proof {
                        rel = rel.update(x as int, rel[x as int].update(y as int, symbol_permutation@));
                        assert(valid);
                        assert(is_relabeling(dec[x as int][y as int], rel[x as int][y as int], N as nat));
                        gok = gok && valid && is_relabeling(dec[x as int][y as int], rel[x as int][y as int], N as nat);
                        assert forall|k: int| 0 <= k < N implies (#[trigger] dec[k]).len() == N by {}
                        assert forall|k: int| 0 <= k < N implies (#[trigger] rel[k]).len() == N by {}
                    }
                    let relabeled = relabeled_row(&sq, x, &symbol_permutation);
                    let ghost rrv = relabeled@;
                    proof {
                        use_type_invariant(&relabeled);
                        Permutation::lemma_wf(&relabeled);
                    }
                    let inverse_column_permutation = relabeled.inverse();
                    let column_simd = to_simd(&inverse_column_permutation);
                    let symbol_simd = to_simd(&symbol_permutation);
                    let (rows, _) = Self::permuted_cols_vals_simd(
                        &in_rows,
                        &column_simd,
                        &symbol_simd,
                        false,
                    );
                    proof {
                        use_type_invariant(&inverse_column_permutation);
                        Permutation::lemma_wf(&inverse_column_permutation);
                        use_type_invariant(&symbol_permutation);
                        Permutation::lemma_wf(&symbol_permutation);
                    }
                    let ghost best_start = gbest;
                    if min_row_cycle_index < lookup.len() {
                        let permutations = &lookup[min_row_cycle_index];
                        let mut p: usize = 0;
                        while p < permutations.len()
                            invariant
                                p <= permutations@.len(),
                                1 <= N <= 16,
                                sq@ == target,
                                target == square_part(padded_rows(in_rows), N as nat),
                                full_rows == N,
                                st == seqs(structures@),
                                is_structure_list(st, N as nat),
                                gok,
                                forall|k: int| 0 <= k < N ==> #[trigger] crate::cycle_types::is_line(target[k], N as nat),
                                forall|k: int, l: int, c: int| 0 <= k < N && 0 <= l < N && 0 <= c < N && k != l ==> #[trigger] target[k][c] != #[trigger] target[l][c],
                                forall|k: int, c: int| 0 <= k < N && 0 <= c < N ==> #[trigger] target[k][c] < N,
                                dec.len() == N,
                                rel.len() == N,
                                forall|k: int| 0 <= k < N ==> (#[trigger] dec[k]).len() == N,
                forall|k: int| 0 <= k < N ==> (#[trigger] rel[k]).len() == N,
                                forall|k: int, l: int| 0 <= k < N && 0 <= l < N ==> (#[trigger] min_row_cycles@[k]@[l] <==> gmarks.contains((k, l))),
                                forall|q: (int, int)| #[trigger] gmarks.contains(q) ==> 0 <= q.0 < N && 0 <= q.1 < N,
                                grid_le(square_part(padded_rows(min_rows), N as nat), target, N as nat),
                                lookup_is_perms(lookup@, N as nat) ==> is_isotopic(target, square_part(padded_rows(min_rows), N as nat), N as nat),
                                lookup_is_perms(lookup@, N as nat) ==> square_part(padded_rows(min_rows), N as nat) == gbest,
                                permutations@ == lookup@[min_row_cycle_index as int]@,
                                min_row_cycle_index < lookup@.len(),
                                x < N,
                                is_perm(inverse_column_permutation@, N as nat),
                                is_perm(symbol_permutation@, N as nat),
                                is_perm(rrv, N as nat),
                                forall|c: int| 0 <= c < N ==> #[trigger] rrv[c] == symbol_permutation@[target[x as int][c] as int],
                                forall|k: int| 0 <= k < N ==> #[trigger] rrv[inverse_column_permutation@[k] as int] == k,
                                column_simd.bytes().len() == 16,
                                symbol_simd.bytes().len() == 16,
                                forall|j: int| 0 <= j < N ==> #[trigger] column_simd.bytes()[j] as int == inverse_column_permutation@[j] as int,
                                forall|v: int| 0 <= v < N ==> #[trigger] symbol_simd.bytes()[v] as int == symbol_permutation@[v] as int,
                                forall|k: int| 0 <= k < N ==> #[trigger] rows@[k]@ == shuffled_row(in_rows@[k]@, column_simd.bytes(), symbol_simd.bytes()),
                                gbest == lowered_by_list(best_start, target, x as int, symbol_permutation@, permutations@, p as nat, N as nat),
                            decreases permutations@.len() - p,
                        {
                            let (new_rows, new_full_rows) = Self::permuted_cols_vals_simd(
                                &rows,
                                &permutations[p].1,
                                &permutations[p].0,
                                true,
                            );
                            let ghost img = normalised(target, x as int, symbol_permutation@, simd_images(permutations@[p as int].0, N as nat),
                                simd_images(permutations@[p as int].1, N as nat), N as nat);
                            proof {
                                if lookup_is_perms(lookup@, N as nat) {
                                    assert(lookup@[min_row_cycle_index as int]@[p as int] == permutations@[p as int]);
                                    assert(simd_images(permutations@[p as int].1, N as nat) =~= Seq::new(N as nat, |j: int| permutations@[p as int].1.bytes()[j] as usize));
                                    assert(simd_images(permutations@[p as int].0, N as nat) =~= Seq::new(N as nat, |j: int| permutations@[p as int].0.bytes()[j] as usize));
                                    lemma_shuffle_isotope(in_rows@, target, rows@, inverse_column_permutation@, symbol_permutation@,
                                        column_simd.bytes(), symbol_simd.bytes(), permutations@[p as int].1.bytes(), permutations@[p as int].0.bytes(),
                                        new_rows@, N as nat);
                                    lemma_rows_image(in_rows@, target, rows@, x as int, rrv, inverse_column_permutation@, symbol_permutation@,
                                        column_simd.bytes(), symbol_simd.bytes(), permutations@[p as int].1.bytes(), permutations@[p as int].0.bytes(),
                                        new_rows@, N as nat);
                                    assert(square_part(padded_rows(new_rows), N as nat) == img);
                                }
                            }
                            let ghost before_rows = square_part(padded_rows(min_rows), N as nat);
                            if new_full_rows == full_rows {
                                let ghost m0 = square_part(padded_rows(min_rows), N as nat);
                                let ghost nr = square_part(padded_rows(new_rows), N as nat);
                                let mut i: usize = 0;
                                while i < full_rows
                                    invariant
                                        1 <= N <= 16,
                                        full_rows == N,
                                        i <= N,
                                        nr == square_part(padded_rows(new_rows), N as nat),
                                        grid_le(m0, target, N as nat),
                                        (square_part(padded_rows(min_rows), N as nat) == m0
                                            && forall|k: int, l: int| 0 <= k < i && 0 <= l < N ==> #[trigger] m0[k][l] == nr[k][l])
                                        || (min_rows == new_rows && grid_less(nr, m0, N as nat)),
                                        lookup_is_perms(lookup@, N as nat) ==> is_isotopic(target, m0, N as nat) && is_isotopic(target, nr, N as nat),
                                    ensures
                                        (square_part(padded_rows(min_rows), N as nat) == m0
                                            && ((forall|k: int, l: int| 0 <= k < N && 0 <= l < N ==> #[trigger] m0[k][l] == nr[k][l]) || grid_less(m0, nr, N as nat)))
                                        || (min_rows == new_rows && grid_less(nr, m0, N as nat)),
                                    decreases N - i,
                                {
                                    let order = compare_prefix(&min_rows[i], &new_rows[i], N);
                                    if order < 0 {
                                        proof {
                                            if square_part(padded_rows(min_rows), N as nat) == m0 {
                                                let j = choose|j: int| 0 <= j < N
                                                    && (forall|l: int| 0 <= l < j ==> #[trigger] min_rows@[i as int]@[l] == new_rows@[i as int]@[l])
                                                    && min_rows@[i as int]@[j] < new_rows@[i as int]@[j];
                                                assert(m0[i as int][j] < nr[i as int][j]);
                                                assert(grids_agree_before(m0, nr, N as nat, i as int, j)) by {
                                                    assert forall|k: int, l: int| 0 <= k < N && 0 <= l < N && (k < i || (k == i && l < j))
                                                        implies #[trigger] m0[k][l] == nr[k][l] by {
                                                        if k == i {
                                                            assert(min_rows@[i as int]@[l] == new_rows@[i as int]@[l]);
                                                        }
                                                    }
                                                }
                                                assert(grid_less(m0, nr, N as nat));
                                            }
                                        }
                                        break;
                                    } else if order > 0 {
                                        proof {
                                            if square_part(padded_rows(min_rows), N as nat) == m0 {
                                                let j = choose|j: int| 0 <= j < N
                                                    && (forall|l: int| 0 <= l < j ==> #[trigger] min_rows@[i as int]@[l] == new_rows@[i as int]@[l])
                                                    && new_rows@[i as int]@[j] < min_rows@[i as int]@[j];
                                                assert(nr[i as int][j] < m0[i as int][j]);
                                                assert(grids_agree_before(nr, m0, N as nat, i as int, j)) by {
                                                    assert forall|k: int, l: int| 0 <= k < N && 0 <= l < N && (k < i || (k == i && l < j))
                                                        implies #[trigger] nr[k][l] == m0[k][l] by {
                                                        if k == i {
                                                            assert(min_rows@[i as int]@[l] == new_rows@[i as int]@[l]);
                                                        }
                                                    }
                                                }
                                                assert(grid_less(nr, m0, N as nat));
                                            }
                                        }
                                        min_rows = new_rows;
                                    } else {
                                        proof {
                                            if square_part(padded_rows(min_rows), N as nat) == m0 {
                                                assert forall|k: int, l: int| 0 <= k < i + 1 && 0 <= l < N implies #[trigger] m0[k][l] == nr[k][l] by {
                                                    if k == i {
                                                        assert(min_rows@[i as int]@[l] == new_rows@[i as int]@[l]);
                                                    }
                                                }
                                            }
                                        }
                                    }
                                    i += 1;
                                }
                                proof {
                                    let m1 = square_part(padded_rows(min_rows), N as nat);
                                    if m1 == m0 && !grid_less(m0, nr, N as nat) {
                                        assert forall|k: int| 0 <= k < N implies #[trigger] m0[k] =~= nr[k] by {
                                            assert forall|l: int| 0 <= l < N implies m0[k][l] == nr[k][l] by {}
                                        }
                                        assert(m0 =~= nr);
                                    }
                                    if m1 != m0 {
                                        assert(grid_less(nr, m0, N as nat));
                                        assert(m1 == nr);
                                        if m0 != target {
                                            lemma_grid_less_trans(nr, m0, target, N as nat);
                                        }
                                    }
                                    lemma_grid_less_irreflexive(m0, N as nat);
                                    if grid_less(m0, nr, N as nat) && grid_less(nr, m0, N as nat) {
                                        lemma_grid_less_trans(m0, nr, m0, N as nat);
                                    }
                                    assert(m1 == grid_min(m0, nr, N as nat));
                                }
                            }
                            proof {
                                if lookup_is_perms(lookup@, N as nat) {
                                    assert(new_full_rows == full_rows);
                                    assert(square_part(padded_rows(min_rows), N as nat) == grid_min(before_rows, img, N as nat));
                                }
                                gbest = grid_min(gbest, img, N as nat);
                            }
                            p += 1;
                        }
                    }
                    proof {
                        assert forall|k: int, l: int| is_row_pair(k, l, N as nat) && scanned(k, l, a as int, b as int, 0)
                            implies #[trigger] dec[k][l] == dec0[k][l] && rel[k][l] == rel0[k][l] by {
                            if k == x {
                                assert(l != y);
                            }
                        }
                        lemma_rows_scan_frame(target, st, lookup@, dec0, rel0, dec, rel, N as nat, a as int, b as int);
                        let su2 = rows_scan_upto(target, st, lookup@, dec, rel, N as nat, a as int, b as int);
                        assert(su2 == su);
                        if t == 1 {
                            assert(dec[a as int][b as int] == dec0[a as int][b as int] && rel[a as int][b as int] == rel0[a as int][b as int]);
                            assert(rows_pair_step(target, st, lookup@, dec, rel, N as nat, su2, a as int, b as int)
                                == rows_pair_step(target, st, lookup@, dec0, rel0, N as nat, su, a as int, b as int));
                        }
                        assert(decomposition_type(st, dec[x as int][y as int]) == cycle_index as int);
                        assert((min_row_cycle_index as int, gbest, gmarks, gok) == rows_pair_step(target, st, lookup@, dec, rel, N as nat, sb, x as int, y as int).0);
                        assert(!rows_pair_step(target, st, lookup@, dec, rel, N as nat, sb, x as int, y as int).1);
                        if t == 0 {
                            assert(sb == su2);
                        } else {
                            assert(sb == rows_pair_step(target, st, lookup@, dec, rel, N as nat, su2, a as int, b as int).0);
                        }
                    }
                    t += 1;
                }
                proof {
                    assert(rows_scan_upto(target, st, lookup@, dec, rel, N as nat, a as int, b + 1)
                        == rows_block_step(target, st, lookup@, dec, rel, N as nat,
                            rows_scan_upto(target, st, lookup@, dec, rel, N as nat, a as int, b as int), a as int, b as int));
                }
                b += 1;
            }
            proof {
                assert(rows_scan_upto(target, st, lookup@, dec, rel, N as nat, a + 1, a + 2)
                    == rows_scan_upto(target, st, lookup@, dec, rel, N as nat, a as int, N as int));
            }
            a += 1;
        }
        let r = RowPartialLatinSquare {
            rows: min_rows,
            min_row_cycles,
            min_row_cycle_index,
            col_masks: [BitSet16::empty(); N],
            full_rows: N,
        };
        proof {
            let scan = rows_scan_upto(target, st, lookup@, dec, rel, N as nat, N as int, N + 1);
            assert(scan == (min_row_cycle_index as int, gbest, gmarks, gok));
            assert(r.is_scan_outcome(target, st, lookup@, dec, rel));
        }
        r
    }
}

} // verus!
