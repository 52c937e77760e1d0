//! Conjugates of a Latin square: the roles of rows, columns and values exchanged.
use vstd::prelude::*;
use crate::latin_square::{LatinSquare, is_latin, grid, row_has, col_has, lemma_grid, lemma_cell_of_index, lemma_index_of_cell};
use crate::permutation::Permutation;
use crate::set_util::{is_perm, index_of, lemma_perm_surjective};

verus! {

/// The row, the column and the value of cell (i, j).
pub open spec fn cell_triple(s: Seq<Seq<u8>>, i: int, j: int) -> Seq<int> {
    seq![i, j, s[i][j] as int]
}

/// The triple whose coordinate p[k] is coordinate k of `t`.
pub open spec fn moved_triple(t: Seq<int>, p: Seq<usize>) -> Seq<int> {
    Seq::new(3, |m: int| t[index_of(p, m)])
}

/// Entries (i, j) and (k, l) land in one cell, or in one row with one value, or in one
/// column with one value.
pub open spec fn clash<const N: usize>(
    rows: [[usize; N]; N],
    cols: [[usize; N]; N],
    vals: [[usize; N]; N],
    i: int,
    j: int,
    k: int,
    l: int,
) -> bool {
    let same_row = rows@[i]@[j] == rows@[k]@[l];
    let same_col = cols@[i]@[j] == cols@[k]@[l];
    let same_val = vals@[i]@[j] == vals@[k]@[l];
    (same_row && same_col) || (same_row && same_val) || (same_col && same_val)
}

/// Entry (i, j) goes to row rows[i][j] and column cols[i][j] with value vals[i][j], all
/// below N, and no two entries clash: together they fill a Latin square.
pub open spec fn places_latin<const N: usize>(rows: [[usize; N]; N], cols: [[usize; N]; N], vals: [[usize; N]; N]) -> bool {
    &&& forall|i: int, j: int| 0 <= i < N && 0 <= j < N ==> #[trigger] rows@[i]@[j] < N && cols@[i]@[j] < N && vals@[i]@[j] < N
    &&& forall|i: int, j: int, k: int, l: int|
        0 <= i < N && 0 <= j < N && 0 <= k < N && 0 <= l < N && (i != k || j != l) ==> !#[trigger] clash(rows, cols, vals, i, j, k, l)
}

/// Two cells of a Latin square that agree in two of row, column and value are the same cell.
pub proof fn lemma_two_coordinates_determine(s: Seq<Seq<u8>>, n: nat, i: int, j: int, k: int, l: int, c1: int, c2: int)
    requires
        is_latin(s, n),
        forall|a: int, b: int, c: int| 0 <= a < n && 0 <= b < n && 0 <= c < n && b != c ==> #[trigger] s[a][b] != #[trigger] s[a][c],
        forall|a: int, b: int, c: int| 0 <= a < n && 0 <= b < n && 0 <= c < n && b != c ==> #[trigger] s[b][a] != #[trigger] s[c][a],
        0 <= i < n && 0 <= j < n && 0 <= k < n && 0 <= l < n,
        0 <= c1 < 3 && 0 <= c2 < 3 && c1 != c2,
        cell_triple(s, i, j)[c1] == cell_triple(s, k, l)[c1],
        cell_triple(s, i, j)[c2] == cell_triple(s, k, l)[c2],
    ensures
        i == k && j == l,
{
    if i == k {
        if j != l {
            assert(s[i][j] != s[i][l]);
        }
    } else if j == l {
        assert(s[i][j] != s[k][j]);
    }
}

/// Some entry goes to cell (a, b).
pub open spec fn lands_in<const N: usize>(rows: [[usize; N]; N], cols: [[usize; N]; N], a: int, b: int) -> bool {
    exists|i: int, j: int| 0 <= i < N && 0 <= j < N && #[trigger] rows@[i]@[j] == a && #[trigger] cols@[i]@[j] == b
}

/// Entries that never clash fill every cell of the N x N grid.
proof fn lemma_places_cover<const N: usize>(rows: [[usize; N]; N], cols: [[usize; N]; N], vals: [[usize; N]; N])
    requires
        places_latin(rows, cols, vals),
        N <= 256,
    ensures
        forall|a: int, b: int| 0 <= a < N && 0 <= b < N ==> #[trigger] lands_in(rows, cols, a, b),
{
    let n = N as int;
    assert(n * n <= 65536) by (nonlinear_arith)
        requires
            n <= 256,
            n >= 0,
    ;
    let f = Seq::new((n * n) as nat, |x: int| (rows@[x / n]@[x % n] * n + cols@[x / n]@[x % n]) as usize);
    assert forall|x: int| 0 <= x < n * n implies #[trigger] f[x] < n * n
        && f[x] as int == rows@[x / n]@[x % n] * n + cols@[x / n]@[x % n] by {
        lemma_cell_of_index(x, n);
        let (i, j) = (x / n, x % n);
        assert(rows@[i]@[j] < N && cols@[i]@[j] < N);
        lemma_index_of_cell(rows@[i]@[j] as int, cols@[i]@[j] as int, n);
    }
    assert forall|x: int, y: int| 0 <= x < n * n && 0 <= y < n * n && x != y implies #[trigger] f[x] != #[trigger] f[y] by {
        lemma_cell_of_index(x, n);
        lemma_cell_of_index(y, n);
        let (i, j) = (x / n, x % n);
        let (k, l) = (y / n, y % n);
        assert(rows@[i]@[j] < N && cols@[i]@[j] < N);
        assert(rows@[k]@[l] < N && cols@[k]@[l] < N);
        lemma_index_of_cell(rows@[i]@[j] as int, cols@[i]@[j] as int, n);
        lemma_index_of_cell(rows@[k]@[l] as int, cols@[k]@[l] as int, n);
        if f[x] == f[y] {
            assert(i != k || j != l);
            assert(!clash(rows, cols, vals, i, j, k, l));
        }
    }
    assert(is_perm(f, (n * n) as nat));
    lemma_perm_surjective(f, (n * n) as nat);
    assert forall|a: int, b: int| 0 <= a < N && 0 <= b < N implies #[trigger] lands_in(rows, cols, a, b) by {
        lemma_index_of_cell(a, b, n);
        let x = index_of(f, a * n + b);
        assert(0 <= x < n * n && f[x] as int == a * n + b);
        lemma_cell_of_index(x, n);
        let (i, j) = (x / n, x % n);
        assert(rows@[i]@[j] < N && cols@[i]@[j] < N);
        lemma_index_of_cell(rows@[i]@[j] as int, cols@[i]@[j] as int, n);
        assert(rows@[i]@[j] == a && cols@[i]@[j] == b);
    }
}

/// n values below n, pairwise different, include every value below n.
proof fn lemma_distinct_row_full(r: Seq<u8>, n: nat, v: int)
    requires
        r.len() == n,
        forall|j: int| 0 <= j < n ==> #[trigger] r[j] < n,
        forall|j: int, k: int| 0 <= j < n && 0 <= k < n && j != k ==> #[trigger] r[j] != #[trigger] r[k],
        0 <= v < n,
    ensures
        exists|j: int| 0 <= j < n && r[j] as int == v,
{
    let t = r.map_values(|x: u8| x as usize);
    assert forall|j: int, k: int| 0 <= j < n && 0 <= k < n && j != k implies #[trigger] t[j] != #[trigger] t[k] by {
        assert(r[j] != r[k]);
    }
    assert forall|j: int| 0 <= j < n implies #[trigger] t[j] < n by {
        assert(r[j] < n);
    }
    lemma_perm_surjective(t, n);
    let j = index_of(t, v);
    assert(r[j] as int == v);
}

impl<const N: usize> LatinSquare<N> {
    /// The square in which entry (i, j) of the three arrays puts value vals[i][j] into
    /// cell (rows[i][j], cols[i][j]).
    pub fn from_rcs(rows: [[usize; N]; N], cols: [[usize; N]; N], vals: [[usize; N]; N]) -> (r: Self)
        requires
            places_latin(rows, cols, vals),
            N <= 256,
        ensures
            forall|i: int, j: int| 0 <= i < N && 0 <= j < N
                ==> #[trigger] r@[rows@[i]@[j] as int][cols@[i]@[j] as int] as int == vals@[i]@[j],
    {
        let mut new_values = [[0u8; N]; N];
        let mut i: usize = 0;
        while i < N
            invariant
                i <= N,
                N <= 256,
                places_latin(rows, cols, vals),
                forall|k: int, l: int| 0 <= k < i && 0 <= l < N
                    ==> #[trigger] new_values@[rows@[k]@[l] as int]@[cols@[k]@[l] as int] as int == vals@[k]@[l],
            decreases N - i,
        {
            let mut j: usize = 0;
            while j < N
                invariant
                    i < N,
                    j <= N,
                    N <= 256,
                    places_latin(rows, cols, vals),
                    forall|k: int, l: int| ((0 <= k < i && 0 <= l < N) || (k == i && 0 <= l < j))
                        ==> #[trigger] new_values@[rows@[k]@[l] as int]@[cols@[k]@[l] as int] as int == vals@[k]@[l],
                decreases N - j,
            {
                assert(rows@[i as int]@[j as int] < N && cols@[i as int]@[j as int] < N && vals@[i as int]@[j as int] < N);
                let row = rows[i][j];
                let col = cols[i][j];
                let val = vals[i][j] as u8;
                let ghost before = new_values;
                new_values[row][col] = val;
                proof {
                    assert forall|k: int, l: int| ((0 <= k < i && 0 <= l < N) || (k == i && 0 <= l < j + 1))
                        implies #[trigger] new_values@[rows@[k]@[l] as int]@[cols@[k]@[l] as int] as int == vals@[k]@[l] by {
                        if k != i || l != j {
                            assert(!clash(rows, cols, vals, k, l, i as int, j as int));
                            assert(rows@[k]@[l] < N && cols@[k]@[l] < N);
                            if rows@[k]@[l] == row {
                                assert(cols@[k]@[l] != col);
                            }
                            assert(new_values@[rows@[k]@[l] as int]@[cols@[k]@[l] as int]
                                == before@[rows@[k]@[l] as int]@[cols@[k]@[l] as int]);
                        }
                    }
                }
                j += 1;
            }
            i += 1;
        }
        proof {
            lemma_places_cover(rows, cols, vals);
            lemma_grid(new_values);
            let g = grid(new_values);
            let n = N as nat;
            assert forall|a: int, b: int| 0 <= a < N && 0 <= b < N implies #[trigger] g[a][b] < N by {
                assert(lands_in(rows, cols, a, b));
                let (i, j) = choose|i: int, j: int| 0 <= i < N && 0 <= j < N && #[trigger] rows@[i]@[j] == a && #[trigger] cols@[i]@[j] == b;
                assert(new_values@[rows@[i]@[j] as int]@[cols@[i]@[j] as int] as int == vals@[i]@[j]);
                assert(vals@[i]@[j] < N);
            }
            assert forall|a: int, v: int| 0 <= a < N && 0 <= v < N implies #[trigger] row_has(g, a, v) by {
                assert forall|b: int, c: int| 0 <= b < N && 0 <= c < N && b != c implies #[trigger] g[a][b] != #[trigger] g[a][c] by {
                    assert(lands_in(rows, cols, a, b));
                    assert(lands_in(rows, cols, a, c));
                    let (i, j) = choose|i: int, j: int| 0 <= i < N && 0 <= j < N && #[trigger] rows@[i]@[j] == a && #[trigger] cols@[i]@[j] == b;
                    let (k, l) = choose|k: int, l: int| 0 <= k < N && 0 <= l < N && #[trigger] rows@[k]@[l] == a && #[trigger] cols@[k]@[l] == c;
                    assert(new_values@[rows@[i]@[j] as int]@[cols@[i]@[j] as int] as int == vals@[i]@[j]);
                    assert(new_values@[rows@[k]@[l] as int]@[cols@[k]@[l] as int] as int == vals@[k]@[l]);
                    assert(i != k || j != l);
                    assert(!clash(rows, cols, vals, i, j, k, l));
                }
                assert forall|b: int| 0 <= b < n implies #[trigger] g[a][b] < n by {}
                lemma_distinct_row_full(g[a], n, v);
            }
            assert forall|b: int, v: int| 0 <= b < N && 0 <= v < N implies #[trigger] col_has(g, b, v) by {
                let col = Seq::new(n, |a: int| g[a][b]);
                assert forall|a: int, c: int| 0 <= a < N && 0 <= c < N && a != c implies #[trigger] col[a] != #[trigger] col[c] by {
                    assert(lands_in(rows, cols, a, b));
                    assert(lands_in(rows, cols, c, b));
                    let (i, j) = choose|i: int, j: int| 0 <= i < N && 0 <= j < N && #[trigger] rows@[i]@[j] == a && #[trigger] cols@[i]@[j] == b;
                    let (k, l) = choose|k: int, l: int| 0 <= k < N && 0 <= l < N && #[trigger] rows@[k]@[l] == c && #[trigger] cols@[k]@[l] == b;
                    assert(new_values@[rows@[i]@[j] as int]@[cols@[i]@[j] as int] as int == vals@[i]@[j]);
                    assert(new_values@[rows@[k]@[l] as int]@[cols@[k]@[l] as int] as int == vals@[k]@[l]);
                    assert(i != k || j != l);
                    assert(!clash(rows, cols, vals, i, j, k, l));
                }
                assert forall|a: int| 0 <= a < n implies #[trigger] col[a] < n by {}
                lemma_distinct_row_full(col, n, v);
                let a = choose|a: int| 0 <= a < n && col[a] as int == v;
                assert(g[a][b] as int == v);
            }
        }
        Self::new(new_values)
    }

    /// The conjugate in which coordinate k of every cell (its row, its column, its value)
    /// becomes coordinate p[k].
    pub fn permuted_rcs(&self, permutation: &Permutation<3>) -> (r: Self)
        ensures
            forall|i: int, j: int| 0 <= i < N && 0 <= j < N ==> {
                let t = #[trigger] moved_triple(cell_triple(self@, i, j), permutation@);
                r@[t[0]][t[1]] as int == t[2]
            },
    {
        proof {
            use_type_invariant(self);
            Self::lemma_latin(self);
            use_type_invariant(permutation);
            Permutation::lemma_wf(permutation);
        }
        let mut rows = [[0usize; N]; N];
        let mut cols = [[0usize; N]; N];
        let mut vals = [[0usize; N]; N];
        let mut i: usize = 0;
        while i < N
            invariant
                i <= N,
                N <= 256,
                is_latin(self@, N as nat),
                forall|k: int, l: int| 0 <= k < i && 0 <= l < N ==> #[trigger] rows@[k]@[l] as int == k
                    && cols@[k]@[l] as int == l && vals@[k]@[l] as int == self@[k][l] as int,
            decreases N - i,
        {
            let mut j: usize = 0;
            while j < N
                invariant
                    i < N,
                    j <= N,
                    N <= 256,
                    is_latin(self@, N as nat),
                    forall|k: int, l: int| ((0 <= k < i && 0 <= l < N) || (k == i && 0 <= l < j)) ==> #[trigger] rows@[k]@[l] as int == k
                        && cols@[k]@[l] as int == l && vals@[k]@[l] as int == self@[k][l] as int,
                decreases N - j,
            {
                rows[i][j] = i;
                cols[i][j] = j;
                vals[i][j] = self.get(i, j);
                j += 1;
            }
            i += 1;
        }
        let moved = permutation.apply_array([rows, cols, vals]);
        let ghost p = permutation@;
        let ghost a = [rows, cols, vals];
        proof {
            assert forall|m: int| 0 <= m < 3 implies #[trigger] moved@[m] == a@[index_of(p, m)] by {
                assert(moved@[p[index_of(p, m)] as int] == a@[index_of(p, m)]);
            }
            assert forall|m: int, k: int, l: int| 0 <= m < 3 && 0 <= k < N && 0 <= l < N
                implies #[trigger] moved@[m]@[k]@[l] as int == cell_triple(self@, k, l)[index_of(p, m)] by {
                assert(moved@[m] == a@[index_of(p, m)]);
                assert(rows@[k]@[l] as int == k);
            }
            let (r0, c0, v0) = (moved[0], moved[1], moved[2]);
            assert forall|k: int, l: int| 0 <= k < N && 0 <= l < N implies #[trigger] r0@[k]@[l] < N && c0@[k]@[l] < N && v0@[k]@[l] < N by {
                assert(moved@[0]@[k]@[l] as int == cell_triple(self@, k, l)[index_of(p, 0)]);
                assert(moved@[1]@[k]@[l] as int == cell_triple(self@, k, l)[index_of(p, 1)]);
                assert(moved@[2]@[k]@[l] as int == cell_triple(self@, k, l)[index_of(p, 2)]);
                assert(self@[k][l] < N);
            }
            assert forall|i: int, j: int, k: int, l: int|
                0 <= i < N && 0 <= j < N && 0 <= k < N && 0 <= l < N && (i != k || j != l) implies !#[trigger] clash(r0, c0, v0, i, j, k, l) by {
                assert(moved@[0]@[i]@[j] as int == cell_triple(self@, i, j)[index_of(p, 0)]);
                assert(moved@[1]@[i]@[j] as int == cell_triple(self@, i, j)[index_of(p, 1)]);
                assert(moved@[2]@[i]@[j] as int == cell_triple(self@, i, j)[index_of(p, 2)]);
                assert(moved@[0]@[k]@[l] as int == cell_triple(self@, k, l)[index_of(p, 0)]);
                assert(moved@[1]@[k]@[l] as int == cell_triple(self@, k, l)[index_of(p, 1)]);
                assert(moved@[2]@[k]@[l] as int == cell_triple(self@, k, l)[index_of(p, 2)]);
                assert(index_of(p, 0) != index_of(p, 1) && index_of(p, 0) != index_of(p, 2) && index_of(p, 1) != index_of(p, 2));
                if clash(r0, c0, v0, i, j, k, l) {
                    if r0@[i]@[j] == r0@[k]@[l] && c0@[i]@[j] == c0@[k]@[l] {
                        lemma_two_coordinates_determine(self@, N as nat, i, j, k, l, index_of(p, 0), index_of(p, 1));
                    } else if r0@[i]@[j] == r0@[k]@[l] {
                        lemma_two_coordinates_determine(self@, N as nat, i, j, k, l, index_of(p, 0), index_of(p, 2));
                    } else {
                        lemma_two_coordinates_determine(self@, N as nat, i, j, k, l, index_of(p, 1), index_of(p, 2));
                    }
                }
            }
        }
        let r = Self::from_rcs(moved[0], moved[1], moved[2]);
        proof {
            assert forall|i: int, j: int| 0 <= i < N && 0 <= j < N implies {
                let t = #[trigger] moved_triple(cell_triple(self@, i, j), permutation@);
                r@[t[0]][t[1]] as int == t[2]
            } by {
                let t = moved_triple(cell_triple(self@, i, j), p);
                assert(moved@[0]@[i]@[j] as int == cell_triple(self@, i, j)[index_of(p, 0)]);
                assert(moved@[1]@[i]@[j] as int == cell_triple(self@, i, j)[index_of(p, 1)]);
                assert(moved@[2]@[i]@[j] as int == cell_triple(self@, i, j)[index_of(p, 2)]);
                assert(r@[moved@[0]@[i]@[j] as int][moved@[1]@[i]@[j] as int] as int == moved@[2]@[i]@[j]);
            }
        }
        r
    }
}

/// The six arrangements of 0, 1, 2 in lexicographic order.
pub open spec fn arrangements_of_three() -> Seq<Seq<usize>> {
    seq![seq![0usize, 1, 2], seq![0usize, 2, 1], seq![1usize, 0, 2], seq![1usize, 2, 0], seq![2usize, 0, 1], seq![2usize, 1, 0]]
}

/// `c` is the conjugate of `s` by `p`: cell (i, j) of `s` with its coordinates moved by `p`
/// is a cell of `c`.
pub open spec fn is_conjugate(s: Seq<Seq<u8>>, c: Seq<Seq<u8>>, n: nat, p: Seq<usize>) -> bool {
    forall|i: int, j: int| 0 <= i < n && 0 <= j < n ==> {
        let t = #[trigger] moved_triple(cell_triple(s, i, j), p);
        c[t[0]][t[1]] as int == t[2]
    }
}

impl<const N: usize> LatinSquare<N> {
    /// The conjugate by one arrangement of 0, 1, 2.
    fn conjugate_by(&self, p: [usize; 3]) -> (r: Self)
        requires
            is_perm(p@, 3),
        ensures
            is_conjugate(self@, r@, N as nat, p@),
    {
        let permutation = Permutation::from_array(p);
        self.permuted_rcs(&permutation)
    }

    /// The six conjugates, by the arrangements of rows, columns and values in
    /// lexicographic order (the first is the square itself).
    pub fn conjugates(&self) -> (r: Vec<Self>)
        ensures
            r@.len() == 6,
            forall|k: int| 0 <= k < 6 ==> is_conjugate(self@, #[trigger] r@[k]@, N as nat, arrangements_of_three()[k]),
    {
        let mut r: Vec<Self> = Vec::new();
        let a0: [usize; 3] = [0, 1, 2];
        let a1: [usize; 3] = [0, 2, 1];
        let a2: [usize; 3] = [1, 0, 2];
        let a3: [usize; 3] = [1, 2, 0];
        let a4: [usize; 3] = [2, 0, 1];
        let a5: [usize; 3] = [2, 1, 0];
        assert(a0@ =~= arrangements_of_three()[0]);
        assert(a1@ =~= arrangements_of_three()[1]);
        assert(a2@ =~= arrangements_of_three()[2]);
        assert(a3@ =~= arrangements_of_three()[3]);
        assert(a4@ =~= arrangements_of_three()[4]);
        assert(a5@ =~= arrangements_of_three()[5]);
        r.push(self.conjugate_by(a0));
        r.push(self.conjugate_by(a1));
        r.push(self.conjugate_by(a2));
        r.push(self.conjugate_by(a3));
        r.push(self.conjugate_by(a4));
        r.push(self.conjugate_by(a5));
        r
    }
}

} // verus!
