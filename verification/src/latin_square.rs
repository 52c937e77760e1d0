//! Latin squares of a fixed order N: every row and every column holds each of 0..N.
use vstd::prelude::*;
use core::cmp::Ordering;
use crate::set_util::{set_min, is_perm, index_of, usize_seq_set, lemma_surjective_is_perm, lemma_perm_surjective};
use crate::permutation::Permutation;
use crate::partial_latin_square::PartialLatinSquare;
use crate::bitset::BitSet128;
use vstd::string::StringSliceAdditionalSpecFns;
use vstd::utf8::encode_utf8;
use crate::text::{to_digit_char, digit_char, lemma_digit_char, lemma_ascii_len, string_from_chars, chars_of, to_digit, is_cell_digit, digits_before, cell_value, lemma_chars_fit_bytes};

verus! {

/// The rows of a grid of bytes as sequences.
pub open spec fn grid<const N: usize>(rows: [[u8; N]; N]) -> Seq<Seq<u8>> {
    rows@.map_values(|r: [u8; N]| r@)
}

/// Row `i` of `s` holds the value `v`.
pub open spec fn row_has(s: Seq<Seq<u8>>, i: int, v: int) -> bool {
    exists|j: int| 0 <= j < s[i].len() && s[i][j] as int == v
}

/// Column `j` of `s` holds the value `v`.
pub open spec fn col_has(s: Seq<Seq<u8>>, j: int, v: int) -> bool {
    exists|i: int| 0 <= i < s.len() && s[i][j] as int == v
}

/// `s` is a Latin square of order n: an n x n grid of values below n in which every
/// row and every column holds each value.
pub open spec fn is_latin(s: Seq<Seq<u8>>, n: nat) -> bool {
    &&& s.len() == n
    &&& forall|i: int| 0 <= i < n ==> #[trigger] s[i].len() == n
    &&& forall|i: int, j: int| 0 <= i < n && 0 <= j < n ==> #[trigger] s[i][j] < n
    &&& forall|i: int, v: int| 0 <= i < n && 0 <= v < n ==> #[trigger] row_has(s, i, v)
    &&& forall|j: int, v: int| 0 <= j < n && 0 <= v < n ==> #[trigger] col_has(s, j, v)
}

/// Every pair of values occurs in exactly one cell when the squares are laid over
/// each other (each pair occurs at least once, and there are n * n cells).
pub open spec fn are_orthogonal(a: Seq<Seq<u8>>, b: Seq<Seq<u8>>, n: nat) -> bool {
    forall|v: int, w: int| 0 <= v < n && 0 <= w < n ==> #[trigger] pair_occurs(a, b, n, v, w)
}

/// Some cell holds `v` in `a` and `w` in `b`.
pub open spec fn pair_occurs(a: Seq<Seq<u8>>, b: Seq<Seq<u8>>, n: nat, v: int, w: int) -> bool {
    exists|i: int, j: int| 0 <= i < n && 0 <= j < n && a[i][j] as int == v && b[i][j] as int == w
}

/// The first row and the first column are 0, 1, ..., n - 1.
pub open spec fn is_reduced_grid(s: Seq<Seq<u8>>, n: nat) -> bool {
    forall|i: int| 0 <= i < n ==> #[trigger] s[0][i] as int == i && s[i][0] as int == i
}

/// The two grids agree on every cell before (i, j) in reading order.
pub open spec fn grids_agree_before(a: Seq<Seq<u8>>, b: Seq<Seq<u8>>, n: nat, i: int, j: int) -> bool {
    forall|k: int, l: int| 0 <= k < n && 0 <= l < n && (k < i || (k == i && l < j)) ==> #[trigger] a[k][l] == b[k][l]
}

/// `a` comes before `b` in reading order: at the first cell where they differ, `a` is smaller.
pub open spec fn grid_less(a: Seq<Seq<u8>>, b: Seq<Seq<u8>>, n: nat) -> bool {
    exists|i: int, j: int| 0 <= i < n && 0 <= j < n && grids_agree_before(a, b, n, i, j) && #[trigger] a[i][j] < #[trigger] b[i][j]
}

/// The cell that index `x` of a reading-order numbering of an n x n grid stands for.
pub proof fn lemma_cell_of_index(x: int, n: int)
    requires
        n >= 0,
        0 <= x < n * n,
    ensures
        0 <= x / n < n,
        0 <= x % n < n,
        (x / n) * n + x % n == x,
{
    if n == 0 {
        assert(n * n == 0);
    }
    vstd::arithmetic::div_mod::lemma_fundamental_div_mod(x, n);
    assert((x / n) * n == n * (x / n)) by (nonlinear_arith);
    assert(x / n < n) by (nonlinear_arith)
        requires
            n > 0,
            0 <= x < n * n,
            x == n * (x / n) + x % n,
            0 <= x % n < n,
    ;
    assert(x / n >= 0) by (nonlinear_arith)
        requires
            n > 0,
            0 <= x,
            x == n * (x / n) + x % n,
            0 <= x % n < n,
    ;
}

/// Cell (a, b) of an n x n grid has the reading-order index a * n + b, and the index
/// gives the cell back.
pub proof fn lemma_index_of_cell(a: int, b: int, n: int)
    requires
        0 <= a < n,
        0 <= b < n,
    ensures
        0 <= a * n + b < n * n,
        (a * n + b) / n == a,
        (a * n + b) % n == b,
{
    assert(0 <= a * n + b < n * n) by (nonlinear_arith)
        requires
            0 <= a < n,
            0 <= b < n,
    ;
    vstd::arithmetic::div_mod::lemma_fundamental_div_mod(a * n + b, n);
    vstd::arithmetic::div_mod::lemma_div_multiples_vanish_fancy(a, b, n);
    vstd::arithmetic::div_mod::lemma_mod_multiples_vanish(a, b, n);
    vstd::arithmetic::div_mod::lemma_small_mod(b as nat, n as nat);
    assert(a * n == n * a) by (nonlinear_arith);
}

/// The cells of the grid are the bytes of the array.
pub proof fn lemma_grid<const N: usize>(rows: [[u8; N]; N])
    ensures
        grid(rows).len() == N,
        forall|i: int| 0 <= i < N ==> #[trigger] grid(rows)[i].len() == N,
        forall|i: int, j: int| 0 <= i < N && 0 <= j < N ==> #[trigger] grid(rows)[i][j] == rows@[i]@[j],
{
}

/// The sequence holds the value `v`.
pub open spec fn seq_has(r: Seq<u8>, v: int) -> bool {
    exists|j: int| 0 <= j < r.len() && r[j] as int == v
}

/// A row that holds each of 0..n holds each of them once.
pub proof fn lemma_full_row_distinct(r: Seq<u8>, n: nat)
    requires
        r.len() == n,
        forall|j: int| 0 <= j < n ==> #[trigger] r[j] < n,
        forall|v: int| 0 <= v < n ==> #[trigger] seq_has(r, v),
    ensures
        forall|j: int, k: int| 0 <= j < n && 0 <= k < n && j != k ==> #[trigger] r[j] != #[trigger] r[k],
{
    let t = r.map_values(|x: u8| x as usize);
    assert forall|v: int| 0 <= v < n implies #[trigger] usize_seq_set(t).contains(v) by {
        assert(seq_has(r, v));
        let j = choose|j: int| 0 <= j < r.len() && r[j] as int == v;
        assert(t[j] as int == v);
    }
    assert forall|j: int| 0 <= j < n implies #[trigger] t[j] < n by {
        assert(r[j] < n);
    }
    lemma_surjective_is_perm(t, n);
    assert forall|j: int, k: int| 0 <= j < n && 0 <= k < n && j != k implies #[trigger] r[j] != #[trigger] r[k] by {
        assert(t[j] != t[k]);
    }
}

/// Moving row i to position p[i] keeps a Latin square Latin.
pub proof fn lemma_rows_moved(old: Seq<Seq<u8>>, new: Seq<Seq<u8>>, p: Seq<usize>, n: nat)
    requires
        is_latin(old, n),
        is_perm(p, n),
        new.len() == n,
        forall|i: int| 0 <= i < n ==> #[trigger] new[p[i] as int] == old[i],
    ensures
        is_latin(new, n),
{
    lemma_perm_surjective(p, n);
    assert forall|r: int| 0 <= r < n implies #[trigger] new[r] == old[index_of(p, r)] by {
        assert(new[p[index_of(p, r)] as int] == old[index_of(p, r)]);
    }
    assert forall|r: int| 0 <= r < n implies #[trigger] new[r].len() == n by {
        assert(new[r] == old[index_of(p, r)]);
    }
    assert forall|r: int, c: int| 0 <= r < n && 0 <= c < n implies #[trigger] new[r][c] < n by {
        assert(new[r] == old[index_of(p, r)]);
    }
    assert forall|r: int, v: int| 0 <= r < n && 0 <= v < n implies #[trigger] row_has(new, r, v) by {
        let q = index_of(p, r);
        assert(new[r] == old[q]);
        assert(row_has(old, q, v));
    }
    assert forall|c: int, v: int| 0 <= c < n && 0 <= v < n implies #[trigger] col_has(new, c, v) by {
        assert(col_has(old, c, v));
        let i = choose|i: int| 0 <= i < old.len() && old[i][c] as int == v;
        assert(new[p[i] as int] == old[i]);
        assert(new[p[i] as int][c] as int == v);
    }
}

/// Taking column q[j] as column j keeps a Latin square Latin.
pub proof fn lemma_cols_gathered(old: Seq<Seq<u8>>, new: Seq<Seq<u8>>, q: Seq<usize>, n: nat)
    requires
        is_latin(old, n),
        is_perm(q, n),
        new.len() == n,
        forall|i: int| 0 <= i < n ==> #[trigger] new[i].len() == n,
        forall|i: int, j: int| 0 <= i < n && 0 <= j < n ==> #[trigger] new[i][j] == old[i][q[j] as int],
    ensures
        is_latin(new, n),
{
    lemma_perm_surjective(q, n);
    assert forall|r: int, c: int| 0 <= r < n && 0 <= c < n implies #[trigger] new[r][c] < n by {
        assert(new[r][c] == old[r][q[c] as int]);
    }
    assert forall|r: int, v: int| 0 <= r < n && 0 <= v < n implies #[trigger] row_has(new, r, v) by {
        assert(row_has(old, r, v));
        let j0 = choose|j: int| 0 <= j < old[r].len() && old[r][j] as int == v;
        let j = index_of(q, j0);
        assert(new[r][j] == old[r][q[j] as int]);
    }
    assert forall|c: int, v: int| 0 <= c < n && 0 <= v < n implies #[trigger] col_has(new, c, v) by {
        assert(col_has(old, q[c] as int, v));
        let i = choose|i: int| 0 <= i < old.len() && old[i][q[c] as int] as int == v;
        assert(new[i][c] == old[i][q[c] as int]);
    }
}

/// Moving column j to position p[j] keeps a Latin square Latin.
pub proof fn lemma_cols_moved(old: Seq<Seq<u8>>, new: Seq<Seq<u8>>, p: Seq<usize>, n: nat)
    requires
        is_latin(old, n),
        is_perm(p, n),
        new.len() == n,
        forall|i: int| 0 <= i < n ==> #[trigger] new[i].len() == n,
        forall|i: int, j: int| 0 <= i < n && 0 <= j < n ==> #[trigger] new[i][p[j] as int] == old[i][j],
    ensures
        is_latin(new, n),
{
    lemma_perm_surjective(p, n);
    assert forall|r: int, c: int| 0 <= r < n && 0 <= c < n implies #[trigger] new[r][c] < n by {
        assert(new[r][p[index_of(p, c)] as int] == old[r][index_of(p, c)]);
    }
    assert forall|r: int, v: int| 0 <= r < n && 0 <= v < n implies #[trigger] row_has(new, r, v) by {
        assert(row_has(old, r, v));
        let j = choose|j: int| 0 <= j < old[r].len() && old[r][j] as int == v;
        assert(new[r][p[j] as int] == old[r][j]);
    }
    assert forall|c: int, v: int| 0 <= c < n && 0 <= v < n implies #[trigger] col_has(new, c, v) by {
        let j = index_of(p, c);
        assert(col_has(old, j, v));
        let i = choose|i: int| 0 <= i < old.len() && old[i][j] as int == v;
        assert(new[i][p[j] as int] == old[i][j]);
    }
}

/// Renaming every value v to p[v] keeps a Latin square Latin.
pub proof fn lemma_vals_renamed(old: Seq<Seq<u8>>, new: Seq<Seq<u8>>, p: Seq<usize>, n: nat)
    requires
        is_latin(old, n),
        is_perm(p, n),
        new.len() == n,
        forall|i: int| 0 <= i < n ==> #[trigger] new[i].len() == n,
        forall|i: int, j: int| 0 <= i < n && 0 <= j < n ==> #[trigger] new[i][j] as int == p[old[i][j] as int] as int,
    ensures
        is_latin(new, n),
{
    lemma_perm_surjective(p, n);
    assert forall|r: int, c: int| 0 <= r < n && 0 <= c < n implies #[trigger] new[r][c] < n by {
        assert(old[r][c] < n);
    }
    assert forall|r: int, v: int| 0 <= r < n && 0 <= v < n implies #[trigger] row_has(new, r, v) by {
        let u = index_of(p, v);
        assert(row_has(old, r, u));
        let j = choose|j: int| 0 <= j < old[r].len() && old[r][j] as int == u;
        assert(new[r][j] as int == p[u] as int);
    }
    assert forall|c: int, v: int| 0 <= c < n && 0 <= v < n implies #[trigger] col_has(new, c, v) by {
        let u = index_of(p, v);
        assert(col_has(old, c, u));
        let i = choose|i: int| 0 <= i < old.len() && old[i][c] as int == u;
        assert(new[i][c] as int == p[u] as int);
    }
}

/// A Latin square of order N.
#[derive(Clone, Copy, PartialEq, Eq, PartialOrd, Ord, Hash, Debug)]
pub struct LatinSquare<const N: usize> {
    rows: [[u8; N]; N],
}

impl<const N: usize> View for LatinSquare<N> {
    type V = Seq<Seq<u8>>;

    closed spec fn view(&self) -> Seq<Seq<u8>> {
        grid(self.rows)
    }
}

impl<const N: usize> LatinSquare<N> {
    #[verifier::type_invariant]
    pub closed spec fn is_latin_square(&self) -> bool {
        is_latin(grid(self.rows), N as nat)
    }

    /// Every value of the square is a Latin square of order N, and N is at most 256
    /// (a row of N distinct bytes).
    pub proof fn lemma_latin(sq: &Self)
        requires
            sq.is_latin_square(),
        ensures
            is_latin(sq@, N as nat),
            N <= 256,
            forall|i: int, j: int, k: int| 0 <= i < N && 0 <= j < N && 0 <= k < N && j != k ==> #[trigger] sq@[i][j] != #[trigger] sq@[i][k],
            forall|i: int, j: int, k: int| 0 <= i < N && 0 <= j < N && 0 <= k < N && j != k ==> #[trigger] sq@[j][i] != #[trigger] sq@[k][i],
    {
        let s = sq@;
        if N > 256 {
            assert(row_has(s, 0, 256));
            let j = choose|j: int| 0 <= j < s[0].len() && s[0][j] as int == 256;
            assert(false);
        }
        assert forall|i: int, j: int, k: int| 0 <= i < N && 0 <= j < N && 0 <= k < N && j != k implies #[trigger] s[i][j] != #[trigger] s[i][k] by {
            assert forall|v: int| 0 <= v < N implies #[trigger] seq_has(s[i], v) by {
                assert(row_has(s, i, v));
            }
            assert forall|c: int| 0 <= c < N implies #[trigger] s[i][c] < N by {}
            lemma_full_row_distinct(s[i], N as nat);
        }
        assert forall|i: int, j: int, k: int| 0 <= i < N && 0 <= j < N && 0 <= k < N && j != k implies #[trigger] s[j][i] != #[trigger] s[k][i] by {
            let col = Seq::new(N as nat, |r: int| s[r][i]);
            assert forall|v: int| 0 <= v < N implies #[trigger] seq_has(col, v) by {
                assert(col_has(s, i, v));
                let r = choose|r: int| 0 <= r < s.len() && s[r][i] as int == v;
                assert(col[r] as int == v);
            }
            assert forall|c: int| 0 <= c < N implies #[trigger] col[c] < N by {}
            lemma_full_row_distinct(col, N as nat);
            assert(col[j] != col[k]);
        }
    }

    /// The square with the given rows.
    pub fn new(values: [[u8; N]; N]) -> (r: Self)
        requires
            is_latin(grid(values), N as nat),
        ensures
            r@ == grid(values),
    {
        LatinSquare { rows: values }
    }

    pub fn get(&self, row: usize, col: usize) -> (r: usize)
        requires
            row < N,
            col < N,
        ensures
            r == self@[row as int][col as int],
            r < N,
    {
        proof {
            use_type_invariant(self);
            lemma_grid(self.rows);
            assert(self@[row as int][col as int] < N);
        }
        self.rows[row][col] as usize
    }

    pub fn get_row(&self, i: usize) -> (r: &[u8; N])
        requires
            i < N,
        ensures
            r@ == self@[i as int],
    {
        &self.rows[i]
    }

    pub fn get_col(&self, i: usize) -> (r: [u8; N])
        requires
            i < N,
        ensures
            forall|j: int| 0 <= j < N ==> #[trigger] r@[j] == self@[j][i as int],
    {
        let mut col = [0u8; N];
        let mut j: usize = 0;
        while j < N
            invariant
                j <= N,
                i < N,
                forall|k: int| 0 <= k < j ==> #[trigger] col@[k] == self@[k][i as int],
            decreases N - j,
        {
            col[j] = self.rows[j][i];
            j += 1;
        }
        col
    }

    /// For each row, the column in which the value `i` stands.
    pub fn get_val(&self, i: usize) -> (r: [u8; N])
        requires
            i < N,
        ensures
            forall|j: int| 0 <= j < N ==> #[trigger] r@[j] < N && self@[j][r@[j] as int] == i,
    {
        proof {
            use_type_invariant(self);
            Self::lemma_latin(self);
        }
        let mut val = [0u8; N];
        let mut j: usize = 0;
        while j < N
            invariant
                j <= N,
                i < N,
                N <= 256,
                is_latin(self@, N as nat),
                forall|k: int| 0 <= k < j ==> #[trigger] val@[k] < N && self@[k][val@[k] as int] == i,
            decreases N - j,
        {
            let mut c: usize = 0;
            while c < N && self.rows[j][c] as usize != i
                invariant
                    c <= N,
                    j < N,
                    i < N,
                    forall|k: int| 0 <= k < c ==> self@[j as int][k] != i,
                decreases N - c,
            {
                c += 1;
            }
            if c == N {
                proof {
                    assert(row_has(self@, j as int, i as int));
                    let k = choose|k: int| 0 <= k < self@[j as int].len() && self@[j as int][k] as int == i;
                    assert(false);
                }
            }
            val[j] = c as u8;
            j += 1;
        }
        val
    }

    pub fn to_values(self) -> (r: [[u8; N]; N])
        ensures
            grid(r) == self@,
    {
        self.rows
    }

    pub fn values(&self) -> (r: &[[u8; N]; N])
        ensures
            grid(*r) == self@,
    {
        &self.rows
    }

    /// Whether the grid is a Latin square of order N.
    pub fn is_valid(values: &[[u8; N]; N]) -> (r: bool)
        requires
            N <= 16,
        ensures
            r == is_latin(grid(*values), N as nat),
    {
        let ghost s = grid(*values);
        proof {
            lemma_grid(*values);
        }
        let mut i: usize = 0;
        while i < N
            invariant
                i <= N <= 16,
                s == grid(*values),
                forall|a: int, b: int| 0 <= a < i && 0 <= b < N ==> #[trigger] s[a][b] < N,
                forall|a: int, v: int| 0 <= a < i && 0 <= v < N ==> #[trigger] row_has(s, a, v),
                forall|b: int, v: int| 0 <= b < i && 0 <= v < N ==> #[trigger] col_has(s, b, v),
            decreases N - i,
        {
            let mut j: usize = 0;
            while j < N
                invariant
                    i < N <= 16,
                    j <= N,
                    s == grid(*values),
                    forall|b: int| 0 <= b < j ==> #[trigger] s[i as int][b] < N,
                decreases N - j,
            {
                if values[i][j] as usize >= N {
                    assert(!is_latin(s, N as nat)) by {
                        assert(s[i as int][j as int] >= N);
                    }
                    return false;
                }
                j += 1;
            }
            let mut v: usize = 0;
            while v < N
                invariant
                    i < N <= 16,
                    v <= N,
                    s == grid(*values),
                    forall|u: int| 0 <= u < v ==> #[trigger] row_has(s, i as int, u),
                    forall|u: int| 0 <= u < v ==> #[trigger] col_has(s, i as int, u),
                decreases N - v,
            {
                let mut in_row = false;
                let mut in_col = false;
                let mut k: usize = 0;
                while k < N
                    invariant
                        i < N,
                        v < N,
                        k <= N,
                        s == grid(*values),
                        in_row == exists|c: int| 0 <= c < k && s[i as int][c] as int == v,
                        in_col == exists|c: int| 0 <= c < k && s[c][i as int] as int == v,
                    decreases N - k,
                {
                    let x = values[i][k];
                    let y = values[k][i];
                    assert(s[i as int][k as int] == x && s[k as int][i as int] == y);
                    if x as usize == v {
                        in_row = true;
                    }
                    if y as usize == v {
                        in_col = true;
                    }
                    k += 1;
                }
                if !in_row {
                    assert(!is_latin(s, N as nat)) by {
                        if is_latin(s, N as nat) {
                            assert(row_has(s, i as int, v as int));
                        }
                    }
                    return false;
                }
                if !in_col {
                    assert(!is_latin(s, N as nat)) by {
                        if is_latin(s, N as nat) {
                            assert(col_has(s, i as int, v as int));
                        }
                    }
                    return false;
                }
                v += 1;
            }
            i += 1;
        }
        true
    }

    /// Whether each pair of values occurs when the two squares are laid over each other.
    pub fn is_orthogonal_to(&self, other: &Self) -> (r: bool)
        requires
            N <= 16,
        ensures
            r == are_orthogonal(self@, other@, N as nat),
    {
        proof {
            use_type_invariant(self);
            use_type_invariant(other);
        }
        let mut v: usize = 0;
        while v < N
            invariant
                v <= N <= 16,
                is_latin(self@, N as nat),
                is_latin(other@, N as nat),
                forall|a: int, w: int| 0 <= a < v && 0 <= w < N ==> #[trigger] pair_occurs(self@, other@, N as nat, a, w),
            decreases N - v,
        {
            let mut w: usize = 0;
            while w < N
                invariant
                    v < N <= 16,
                    w <= N,
                    is_latin(self@, N as nat),
                    is_latin(other@, N as nat),
                    forall|b: int| 0 <= b < w ==> #[trigger] pair_occurs(self@, other@, N as nat, v as int, b),
                decreases N - w,
            {
                let mut found = false;
                let mut i: usize = 0;
                while i < N
                    invariant
                        v < N,
                        w < N,
                        i <= N,
                        found == exists|a: int, b: int| 0 <= a < i && 0 <= b < N && self@[a][b] as int == v && other@[a][b] as int == w,
                    decreases N - i,
                {
                    let mut j: usize = 0;
                    while j < N
                        invariant
                            v < N,
                            w < N,
                            i < N,
                            j <= N,
                            found == ((exists|a: int, b: int| 0 <= a < i && 0 <= b < N && self@[a][b] as int == v && other@[a][b] as int == w)
                                || (exists|b: int| 0 <= b < j && self@[i as int][b] as int == v && other@[i as int][b] as int == w)),
                        decreases N - j,
                    {
                        let x = self.rows[i][j];
                        let y = other.rows[i][j];
                        assert(self@[i as int][j as int] == x && other@[i as int][j as int] == y);
                        if x as usize == v && y as usize == w {
                            found = true;
                        }
                        j += 1;
                    }
                    assert(found == exists|a: int, b: int| 0 <= a < i + 1 && 0 <= b < N && self@[a][b] as int == v && other@[a][b] as int == w) by {
                        if found {
                            if exists|b: int| 0 <= b < N && self@[i as int][b] as int == v && other@[i as int][b] as int == w {
                                let b = choose|b: int| 0 <= b < N && self@[i as int][b] as int == v && other@[i as int][b] as int == w;
                                assert(self@[i as int][b] as int == v);
                            }
                        }
                    }
                    i += 1;
                }
                if !found {
                    assert(!pair_occurs(self@, other@, N as nat, v as int, w as int));
                    return false;
                }
                w += 1;
            }
            v += 1;
        }
        true
    }

    /// Whether the first row and the first column are 0, 1, ..., N - 1.
    pub fn is_reduced(&self) -> (r: bool)
        ensures
            r == is_reduced_grid(self@, N as nat),
    {
        proof {
            lemma_grid(self.rows);
        }
        let mut i: usize = 0;
        while i < N
            invariant
                i <= N,
                forall|k: int| 0 <= k < i ==> #[trigger] self.rows@[0]@[k] as int == k,
                forall|k: int| 0 <= k < i ==> #[trigger] self.rows@[k]@[0] as int == k,
            decreases N - i,
        {
            let x = self.rows[0][i];
            let y = self.rows[i][0];
            if x as usize != i || y as usize != i {
                proof {
                    lemma_grid(self.rows);
                    assert(self@[0][i as int] == x && self@[i as int][0] == y);
                }
                return false;
            }
            i += 1;
        }
        proof {
            lemma_grid(self.rows);
        }
        true
    }

    /// The number of leading rows in which the two squares agree.
    pub fn num_same_rows(&self, other: &Self) -> (r: usize)
        ensures
            r <= N,
            forall|i: int| 0 <= i < r ==> #[trigger] self@[i] == other@[i],
            r < N ==> self@[r as int] != other@[r as int],
    {
        let mut i: usize = 0;
        while i < N
            invariant
                i <= N,
                forall|k: int| 0 <= k < i ==> #[trigger] self@[k] == other@[k],
            decreases N - i,
        {
            let mut j: usize = 0;
            while j < N
                invariant
                    i < N,
                    j <= N,
                    forall|k: int| 0 <= k < i ==> #[trigger] self@[k] == other@[k],
                    forall|l: int| 0 <= l < j ==> #[trigger] self@[i as int][l] == other@[i as int][l],
                decreases N - j,
            {
                let x = self.rows[i][j];
                let y = other.rows[i][j];
                assert(self@[i as int][j as int] == x && other@[i as int][j as int] == y);
                if x != y {
                    return i;
                }
                j += 1;
            }
            assert(self@[i as int] =~= other@[i as int]);
            i += 1;
        }
        N
    }

    /// The square with row i moved to position p[i].
    pub fn permuted_rows(&self, permutation: &Permutation<N>) -> (r: Self)
        ensures
            forall|i: int| 0 <= i < N ==> #[trigger] r@[permutation@[i] as int] == self@[i],
    {
        let mut new = *self;
        new.permute_rows(permutation);
        new
    }

    /// Moves row i to position p[i].
    pub fn permute_rows(&mut self, permutation: &Permutation<N>)
        ensures
            forall|i: int| 0 <= i < N ==> #[trigger] final(self)@[permutation@[i] as int] == old(self)@[i],
    {
        proof {
            use_type_invariant(&*self);
            use_type_invariant(permutation);
            Permutation::lemma_wf(permutation);
            lemma_grid(self.rows);
        }
        let rows = permutation.apply_array(self.rows);
        proof {
            lemma_grid(rows);
            assert forall|i: int| 0 <= i < N implies #[trigger] grid(rows)[permutation@[i] as int] == self@[i] by {
                assert(rows@[permutation@[i] as int] == self.rows@[i]);
            }
            lemma_rows_moved(self@, grid(rows), permutation@, N as nat);
        }
        self.rows = rows;
    }

    /// The square with column j moved to position p[j].
    pub fn permuted_cols(&self, permutation: &Permutation<N>) -> (r: Self)
        ensures
            forall|i: int, j: int| 0 <= i < N && 0 <= j < N ==> #[trigger] r@[i][permutation@[j] as int] == self@[i][j],
    {
        let mut new = *self;
        new.permute_cols(permutation);
        new
    }

    /// Moves column j to position p[j].
    pub fn permute_cols(&mut self, permutation: &Permutation<N>)
        ensures
            forall|i: int, j: int| 0 <= i < N && 0 <= j < N ==> #[trigger] final(self)@[i][permutation@[j] as int] == old(self)@[i][j],
    {
        proof {
            use_type_invariant(&*self);
            use_type_invariant(permutation);
            Permutation::lemma_wf(permutation);
            lemma_grid(self.rows);
        }
        let mut rows = self.rows;
        let mut i: usize = 0;
        while i < N
            invariant
                i <= N,
                is_perm(permutation@, N as nat),
                forall|a: int| i <= a < N ==> #[trigger] rows@[a] == self.rows@[a],
                forall|a: int, j: int| 0 <= a < i && 0 <= j < N ==> #[trigger] rows@[a]@[permutation@[j] as int] == self.rows@[a]@[j],
            decreases N - i,
        {
            let row = permutation.apply_array(rows[i]);
            rows[i] = row;
            i += 1;
        }
        proof {
            lemma_grid(rows);
            lemma_cols_moved(self@, grid(rows), permutation@, N as nat);
        }
        self.rows = rows;
    }

    /// Takes column inverse_permutation[j] as the new column j.
    pub fn permute_cols_simd(&mut self, inverse_permutation: &Permutation<N>)
        requires
            N <= 16,
        ensures
            forall|i: int, j: int| 0 <= i < N && 0 <= j < N ==> #[trigger] final(self)@[i][j] == old(self)@[i][inverse_permutation@[j] as int],
    {
        proof {
            use_type_invariant(&*self);
            use_type_invariant(inverse_permutation);
            Permutation::lemma_wf(inverse_permutation);
            lemma_grid(self.rows);
        }
        let mut rows = self.rows;
        let mut i: usize = 0;
        while i < N
            invariant
                i <= N,
                is_perm(inverse_permutation@, N as nat),
                forall|a: int| i <= a < N ==> #[trigger] rows@[a] == self.rows@[a],
                forall|a: int, j: int| 0 <= a < i && 0 <= j < N ==> #[trigger] rows@[a]@[j] == self.rows@[a]@[inverse_permutation@[j] as int],
            decreases N - i,
        {
            let old_row = rows[i];
            let mut row = old_row;
            let mut j: usize = 0;
            while j < N
                invariant
                    j <= N,
                    is_perm(inverse_permutation@, N as nat),
                    forall|b: int| 0 <= b < j ==> #[trigger] row@[b] == old_row@[inverse_permutation@[b] as int],
                decreases N - j,
            {
                row[j] = old_row[inverse_permutation.apply(j)];
                j += 1;
            }
            rows[i] = row;
            i += 1;
        }
        proof {
            lemma_grid(rows);
            lemma_cols_gathered(self@, grid(rows), inverse_permutation@, N as nat);
        }
        self.rows = rows;
    }

    /// The square with every value v renamed to p[v].
    pub fn permuted_vals(&self, permutation: &Permutation<N>) -> (r: Self)
        ensures
            forall|i: int, j: int| 0 <= i < N && 0 <= j < N ==> #[trigger] r@[i][j] as int == permutation@[self@[i][j] as int] as int,
    {
        let mut new = *self;
        new.permute_vals(permutation);
        new
    }

    /// Renames every value v to p[v].
    pub fn permute_vals(&mut self, permutation: &Permutation<N>)
        ensures
            forall|i: int, j: int| 0 <= i < N && 0 <= j < N ==> #[trigger] final(self)@[i][j] as int == permutation@[old(self)@[i][j] as int] as int,
    {
        self.rename_vals(permutation);
    }

    /// Renames every value v to p[v].
    pub fn permute_vals_simd(&mut self, permutation: &Permutation<N>)
        requires
            N <= 16,
        ensures
            forall|i: int, j: int| 0 <= i < N && 0 <= j < N ==> #[trigger] final(self)@[i][j] as int == permutation@[old(self)@[i][j] as int] as int,
    {
        self.rename_vals(permutation);
    }

    fn rename_vals(&mut self, permutation: &Permutation<N>)
        ensures
            forall|i: int, j: int| 0 <= i < N && 0 <= j < N ==> #[trigger] final(self)@[i][j] as int == permutation@[old(self)@[i][j] as int] as int,
    {
        proof {
            use_type_invariant(&*self);
            use_type_invariant(permutation);
            Permutation::lemma_wf(permutation);
            Self::lemma_latin(self);
            lemma_grid(self.rows);
        }
        let mut rows = self.rows;
        let mut i: usize = 0;
        while i < N
            invariant
                i <= N <= 256,
                is_perm(permutation@, N as nat),
                is_latin(self@, N as nat),
                forall|a: int| i <= a < N ==> #[trigger] rows@[a] == self.rows@[a],
                forall|a: int, j: int| 0 <= a < i && 0 <= j < N ==> #[trigger] rows@[a]@[j] as int == permutation@[self.rows@[a]@[j] as int] as int,
            decreases N - i,
        {
            let old_row = rows[i];
            let mut row = old_row;
            let mut j: usize = 0;
            while j < N
                invariant
                    j <= N <= 256,
                    i < N,
                    is_perm(permutation@, N as nat),
                    is_latin(self@, N as nat),
                    old_row == self.rows@[i as int],
                    forall|b: int| 0 <= b < j ==> #[trigger] row@[b] as int == permutation@[old_row@[b] as int] as int,
                decreases N - j,
            {
                assert(old_row@[j as int] == self@[i as int][j as int]);
                row[j] = permutation.apply_u8(old_row[j]);
                j += 1;
            }
            rows[i] = row;
            i += 1;
        }
        proof {
            lemma_grid(rows);
            lemma_vals_renamed(self@, grid(rows), permutation@, N as nat);
        }
        self.rows = rows;
    }

    /// Takes column inverse_col_permutation[j] as column j and renames each value v
    /// to val_permutation[v].
    pub fn permute_cols_vals_simd(&mut self, inverse_col_permutation: &Permutation<N>, val_permutation: &Permutation<N>)
        requires
            N <= 16,
        ensures
            forall|i: int, j: int| 0 <= i < N && 0 <= j < N ==> #[trigger] final(self)@[i][j] as int
                == val_permutation@[old(self)@[i][inverse_col_permutation@[j] as int] as int] as int,
    {
        self.permute_cols_simd(inverse_col_permutation);
        self.rename_vals(val_permutation);
    }

    /// -1, 0 or 1 as `self` comes before, equals or comes after `other` in reading order.
    pub fn compare(&self, other: &Self) -> (r: i8)
        ensures
            r == -1 ==> grid_less(self@, other@, N as nat),
            r == 1 ==> grid_less(other@, self@, N as nat),
            r == 0 ==> self@ == other@,
            -1 <= r <= 1,
    {
        proof {
            lemma_grid(self.rows);
            lemma_grid(other.rows);
        }
        let mut i: usize = 0;
        while i < N
            invariant
                i <= N,
                grids_agree_before(self@, other@, N as nat, i as int, 0),
            decreases N - i,
        {
            let mut j: usize = 0;
            while j < N
                invariant
                    i < N,
                    j <= N,
                    grids_agree_before(self@, other@, N as nat, i as int, j as int),
                decreases N - j,
            {
                let x = self.rows[i][j];
                let y = other.rows[i][j];
                assert(self@[i as int][j as int] == x && other@[i as int][j as int] == y);
                if x < y {
                    return -1;
                } else if y < x {
                    assert(grids_agree_before(other@, self@, N as nat, i as int, j as int));
                    return 1;
                }
                j += 1;
            }
            i += 1;
        }
        assert forall|k: int| 0 <= k < N implies #[trigger] self@[k] == other@[k] by {
            assert(self@[k] =~= other@[k]);
        }
        assert(self@ =~= other@);
        0
    }

    /// `self` comes before `other` in reading order.
    pub open spec fn precedes(&self, other: &Self) -> bool {
        grid_less(self@, other@, N as nat)
    }

    /// The partial square that keeps the cells i * N + j in `mask` and empties the others.
    pub fn mask(&self, mask: BitSet128) -> (r: PartialLatinSquare<N>)
        requires
            forall|x: int| mask@.contains(x) ==> x < N * N,
        ensures
            forall|i: int, j: int| 0 <= i < N && 0 <= j < N ==> #[trigger] r@[i][j]
                == (if mask@.contains(i * N + j) { Some(self@[i][j]) } else { None::<u8> }),
    {
        let mut partial_sq = PartialLatinSquare::<N>::empty();
        let mut it = mask.iter();
        proof {
            mask.lemma_view();
        }
        assert forall|x: int| mask@.contains(x) implies 0 <= x < N * N by {}
        loop
            invariant
                forall|x: int| mask@.contains(x) ==> 0 <= x < N * N,
                forall|x: int| mask@.contains(x) ==> 0 <= x < 128,
                it@.subset_of(mask@),
                it@.finite(),
                forall|i: int, j: int| 0 <= i < N && 0 <= j < N ==> #[trigger] partial_sq@[i][j]
                    == (if mask@.contains(i * N + j) && !it@.contains(i * N + j) { Some(self@[i][j]) } else { None::<u8> }),
            ensures
                forall|i: int, j: int| 0 <= i < N && 0 <= j < N ==> #[trigger] partial_sq@[i][j]
                    == (if mask@.contains(i * N + j) { Some(self@[i][j]) } else { None::<u8> }),
            decreases it@.len(),
        {
            let ghost before = it@;
            let next = it.next();
            match next {
                None => {
                    assert(before == Set::<int>::empty());
                    break;
                },
                Some(index) => {
                    proof {
                        assert(before.contains(set_min(before)));
                        assert(0 <= set_min(before));
                        assert(index as int == set_min(before));
                        assert(before.contains(index as int));
                        assert(mask@.contains(index as int));
                        lemma_cell_of_index(index as int, N as int);
                    }
                    let i = index / N;
                    let j = index % N;
                    let v = self.get(i, j);
                    let ghost old_p = partial_sq@;
                    proof {
                        partial_sq.lemma_shape();
                    }
                    partial_sq.set(i, j, Some(v));
                    proof {
                        assert(it@ == before.remove(index as int));
                        assert((v as u8) == self@[i as int][j as int]);
                        assert((i as int) * (N as int) + (j as int) == index as int);
                        assert forall|a: int, b: int| 0 <= a < N && 0 <= b < N implies #[trigger] partial_sq@[a][b]
                            == (if mask@.contains(a * N + b) && !it@.contains(a * N + b) { Some(self@[a][b]) } else { None::<u8> }) by {
                            lemma_index_of_cell(a, b, N as int);
                            if a == i && b == j {
                                assert(partial_sq@[a][b] == Some(v as u8));
                            } else {
                                assert(partial_sq@[a][b] == old_p[a][b]);
                                assert(a * N + b != index);
                                assert(old_p[a][b] == (if mask@.contains(a * N + b) && !before.contains(a * N + b) { Some(self@[a][b]) } else { None::<u8> }));
                            }
                        }
                    }
                },
            }
        }
        partial_sq
    }
}

impl<const N: usize> LatinSquare<N> {
    /// Compares the squares in reading order.
    pub fn cmp_rows(&self, other: &Self) -> (r: Ordering)
        ensures
            r == Ordering::Less ==> self.precedes(other),
            r == Ordering::Greater ==> other.precedes(self),
            r == Ordering::Equal ==> self@ == other@,
    {
        let c = self.compare(other);
        if c < 0 {
            Ordering::Less
        } else if c > 0 {
            Ordering::Greater
        } else {
            Ordering::Equal
        }
    }
}

/// Why text does not describe a Latin square.
#[derive(Debug, Clone, Copy, PartialEq, Eq)]
pub enum Error {
    InvalidLength { len: usize, expected: usize },
    InvalidChar { index: usize, char: char },
    NotALatinSquare,
}

/// The grid that the characters describe, cell i * n + j from character i; cells without
/// a character hold 0.
pub open spec fn digit_grid(chars: Seq<char>, n: nat, radix: u32) -> Seq<Seq<u8>> {
    Seq::new(n, |i: int| Seq::new(n, |j: int| if i * n + j < chars.len() { cell_value(chars[i * n + j], radix) } else { 0u8 }))
}

/// `text` writes a Latin square of order n row by row, one hexadecimal digit per cell,
/// in n * n bytes.
pub open spec fn is_square_text(text: Seq<char>, n: nat) -> bool {
    &&& encode_utf8(text).len() == n * n
    &&& digits_before(text, text.len() as int, 16, n)
    &&& is_latin(digit_grid(text, n, 16), n)
}

/// `e` is the error that reading `text` as a square of order n reports: the length in bytes
/// when it is not n * n, else the first character that is no digit below n, else that the
/// digits do not form a Latin square.
pub open spec fn square_text_error(text: Seq<char>, n: nat, e: Error) -> bool {
    let len = encode_utf8(text).len();
    if len != n * n {
        e == Error::InvalidLength { len: len as usize, expected: (n * n) as usize }
    } else {
        match e {
            Error::InvalidChar { index, char } => index < text.len() && text[index as int] == char
                && !is_cell_digit(char, 16, n) && digits_before(text, index as int, 16, n),
            Error::NotALatinSquare => digits_before(text, text.len() as int, 16, n)
                && !is_latin(digit_grid(text, n, 16), n),
            Error::InvalidLength { .. } => false,
        }
    }
}

/// The outcome of reading `text` as a square of order N: the square, or the error that
/// `square_text_error` describes.
pub open spec fn square_text_outcome<const N: usize>(text: Seq<char>, r: Result<LatinSquare<N>, Error>) -> bool {
    match r {
        Ok(sq) => is_square_text(text, N as nat) && sq@ == digit_grid(text, N as nat, 16),
        Err(e) => !is_square_text(text, N as nat) && square_text_error(text, N as nat, e),
    }
}

impl<const N: usize> LatinSquare<N> {
    /// Reads a square written row by row as one hexadecimal digit per cell.
    pub fn try_from_str(value: &str) -> (r: Result<Self, Error>)
        requires
            N <= 16,
        ensures
            square_text_outcome::<N>(value@, r),
    {
        assert(N * N <= 256) by (nonlinear_arith)
            requires
                N <= 16,
        ;
        let len = value.as_bytes().len();
        if len != N * N {
            return Err(Error::InvalidLength { len, expected: N * N });
        }
        let chars = chars_of(value);
        Self::parse_cells(&chars)
    }

    /// Reads the cells of a text of N * N bytes.
    pub(crate) fn parse_cells(chars: &Vec<char>) -> (r: Result<Self, Error>)
        requires
            N <= 16,
            encode_utf8(chars@).len() == N * N,
        ensures
            square_text_outcome::<N>(chars@, r),
    {
        assert(N * N <= 256) by (nonlinear_arith)
            requires
                N <= 16,
        ;
        proof {
            lemma_chars_fit_bytes(chars@);
        }
        let mut values = [[0u8; N]; N];
        let mut i: usize = 0;
        while i < chars.len()
            invariant
                N <= 16,
                encode_utf8(chars@).len() == N * N,
                i <= chars@.len() <= N * N,
                digits_before(chars@, i as int, 16, N as nat),
                forall|a: int, b: int| 0 <= a < N && 0 <= b < N ==> #[trigger] values@[a]@[b]
                    == if a * N + b < i { cell_value(chars@[a * N + b], 16) } else { 0u8 },
            decreases chars@.len() - i,
        {
            let c = chars[i];
            match to_digit(c, 16) {
                None => {
                    assert(!digits_before(chars@, chars@.len() as int, 16, N as nat)) by {
                        assert(!is_cell_digit(chars@[i as int], 16, N as nat));
                    }
                    return Err(Error::InvalidChar { index: i, char: c });
                },
                Some(entry) => {
                    if entry as usize >= N {
                        assert(!digits_before(chars@, chars@.len() as int, 16, N as nat)) by {
                            assert(!is_cell_digit(chars@[i as int], 16, N as nat));
                        }
                        return Err(Error::InvalidChar { index: i, char: c });
                    }
                    proof {
                        lemma_cell_of_index(i as int, N as int);
                    }
                    let r = i / N;
                    let col = i % N;
                    let ghost before = values;
                    values[r][col] = entry as u8;
                    proof {
                        assert forall|a: int, b: int| 0 <= a < N && 0 <= b < N implies #[trigger] values@[a]@[b]
                            == if a * N + b < i + 1 { cell_value(chars@[a * N + b], 16) } else { 0u8 } by {
                            lemma_index_of_cell(a, b, N as int);
                            if a == r && b == col {
                                assert(a * N + b == i);
                            } else {
                                assert(values@[a]@[b] == before@[a]@[b]);
                                assert(a * N + b != i);
                            }
                        }
                    }
                },
            }
            i += 1;
        }
        proof {
            lemma_grid(values);
            assert(grid(values) =~= digit_grid(chars@, N as nat, 16)) by {
                assert forall|a: int| 0 <= a < N implies #[trigger] grid(values)[a] =~= digit_grid(chars@, N as nat, 16)[a] by {}
            }
        }
        if Self::is_valid(&values) {
            Ok(Self::new(values))
        } else {
            Err(Error::NotALatinSquare)
        }
    }

    /// The square with the given rows, if they form a Latin square.
    pub fn try_from_values(values: [[u8; N]; N]) -> (r: Result<Self, Error>)
        requires
            N <= 16,
        ensures
            r is Ok <==> is_latin(grid(values), N as nat),
            r matches Ok(sq) ==> sq@ == grid(values),
            r is Err ==> r == Err::<Self, Error>(Error::NotALatinSquare),
    {
        if Self::is_valid(&values) {
            Ok(Self::new(values))
        } else {
            Err(Error::NotALatinSquare)
        }
    }
}

/// The text of a grid of order n: its cells row by row, one hexadecimal digit each.
pub open spec fn square_text(s: Seq<Seq<u8>>, n: nat) -> Seq<char> {
    Seq::new(n * n, |k: int| digit_char(s[k / n as int][k % n as int] as int))
}

impl<const N: usize> LatinSquare<N> {
    /// The square written row by row, one hexadecimal digit per cell.
    pub fn to_text(&self) -> (r: String)
        requires
            N <= 16,
        ensures
            r@ == square_text(self@, N as nat),
            is_latin(self@, N as nat),
    {
        string_from_chars(self.text_chars())
    }

    /// The characters of `to_text`.
    pub(crate) fn text_chars(&self) -> (r: Vec<char>)
        requires
            N <= 16,
        ensures
            r@ == square_text(self@, N as nat),
            is_latin(self@, N as nat),
    {
        proof {
            use_type_invariant(self);
            Self::lemma_latin(self);
            lemma_grid(self.rows);
        }
        let mut chars: Vec<char> = Vec::new();
        let mut i: usize = 0;
        while i < N
            invariant
                i <= N <= 16,
                is_latin(self@, N as nat),
                forall|a: int, b: int| 0 <= a < N && 0 <= b < N ==> #[trigger] self@[a][b] == self.rows@[a]@[b],
                chars@.len() == i * N,
                forall|k: int| 0 <= k < i * N ==> #[trigger] chars@[k] == square_text(self@, N as nat)[k],
            decreases N - i,
        {
            let mut j: usize = 0;
            while j < N
                invariant
                    i < N <= 16,
                    j <= N,
                    is_latin(self@, N as nat),
                    forall|a: int, b: int| 0 <= a < N && 0 <= b < N ==> #[trigger] self@[a][b] == self.rows@[a]@[b],
                    chars@.len() == i * N + j,
                    forall|k: int| 0 <= k < i * N + j ==> #[trigger] chars@[k] == square_text(self@, N as nat)[k],
                decreases N - j,
            {
                proof {
                    lemma_index_of_cell(i as int, j as int, N as int);
                    assert(self@[i as int][j as int] < N);
                }
                let c = to_digit_char(self.rows[i][j]);
                chars.push(c);
                proof {
                    let k = i * N + j;
                    assert(chars@[k as int] == square_text(self@, N as nat)[k as int]);
                }
                j += 1;
            }
            proof {
                assert((i + 1) * N == i * N + N) by (nonlinear_arith);
            }
            i += 1;
        }
        proof {
            assert(chars@ =~= square_text(self@, N as nat));
        }
        chars
    }
}

/// Reading the text of a Latin square gives the square back.
pub proof fn lemma_text_round_trip(s: Seq<Seq<u8>>, n: nat)
    requires
        n <= 16,
        is_latin(s, n),
    ensures
        is_square_text(square_text(s, n), n),
        digit_grid(square_text(s, n), n, 16) == s,
{
    let text = square_text(s, n);
    assert forall|k: int| 0 <= k < text.len() implies (#[trigger] text[k] as u32) < 128
        && is_cell_digit(text[k], 16, n) && cell_value(text[k], 16) == s[k / n as int][k % n as int] by {
        lemma_cell_of_index(k, n as int);
        lemma_digit_char(s[k / n as int][k % n as int] as int, 16);
    }
    lemma_ascii_len(text);
    assert(digit_grid(text, n, 16) =~= s) by {
        assert forall|a: int| 0 <= a < n implies #[trigger] digit_grid(text, n, 16)[a] =~= s[a] by {
            assert forall|b: int| 0 <= b < n implies #[trigger] digit_grid(text, n, 16)[a][b] == s[a][b] by {
                lemma_index_of_cell(a, b, n as int);
                assert(text[a * n + b] == digit_char(s[a][b] as int));
                lemma_digit_char(s[a][b] as int, 16);
            }
        }
    }
}

impl<const N: usize> PartialLatinSquare<N> {
    /// The partial square with every cell of `sq` filled.
    pub fn from_latin_square(sq: LatinSquare<N>) -> (r: Self)
        ensures
            forall|i: int, j: int| 0 <= i < N && 0 <= j < N ==> #[trigger] r@[i][j] == Some(sq@[i][j]),
    {
        proof {
            lemma_grid(sq.rows);
        }
        let mut rows = [[None; N]; N];
        let mut i: usize = 0;
        while i < N
            invariant
                i <= N,
                forall|a: int, b: int| 0 <= a < N && 0 <= b < N ==> #[trigger] sq@[a][b] == sq.rows@[a]@[b],
                forall|a: int, b: int| 0 <= a < i && 0 <= b < N ==> #[trigger] rows@[a]@[b] == Some(sq@[a][b]),
            decreases N - i,
        {
            let mut row = [None; N];
            let mut j: usize = 0;
            while j < N
                invariant
                    i < N,
                    j <= N,
                    forall|a: int, b: int| 0 <= a < N && 0 <= b < N ==> #[trigger] sq@[a][b] == sq.rows@[a]@[b],
                    forall|b: int| 0 <= b < j ==> #[trigger] row@[b] == Some(sq@[i as int][b]),
                decreases N - j,
            {
                row[j] = Some(sq.rows[i][j]);
                j += 1;
            }
            rows[i] = row;
            i += 1;
        }
        let r = PartialLatinSquare::from_array(rows);
        proof {
            assert forall|a: int, b: int| 0 <= a < N && 0 <= b < N implies #[trigger] r@[a][b] == Some(sq@[a][b]) by {
                assert(r@[a][b] == rows@[a]@[b]);
            }
        }
        r
    }
}

impl<const N: usize> LatinSquare<N> {
    /// The square whose cells a completely filled partial square holds.
    pub fn from_partial(value: PartialLatinSquare<N>) -> (r: Result<Self, ()>)
        requires
            forall|i: int, j: int| 0 <= i < N && 0 <= j < N ==> #[trigger] value@[i][j] is Some,
            is_latin(Seq::new(N as nat, |i: int| Seq::new(N as nat, |j: int| value@[i][j]->0)), N as nat),
        ensures
            r matches Ok(sq) && forall|i: int, j: int| 0 <= i < N && 0 <= j < N ==> Some(#[trigger] sq@[i][j]) == value@[i][j],
    {
        let ghost target = Seq::new(N as nat, |i: int| Seq::new(N as nat, |j: int| value@[i][j]->0));
        let mut rows = [[0u8; N]; N];
        let mut i: usize = 0;
        while i < N
            invariant
                i <= N,
                forall|a: int, b: int| 0 <= a < N && 0 <= b < N ==> #[trigger] value@[a][b] is Some,
                forall|a: int, b: int| 0 <= a < i && 0 <= b < N ==> Some(#[trigger] rows@[a]@[b]) == value@[a][b],
            decreases N - i,
        {
            let mut row = [0u8; N];
            let mut j: usize = 0;
            while j < N
                invariant
                    i < N,
                    j <= N,
                    forall|a: int, b: int| 0 <= a < N && 0 <= b < N ==> #[trigger] value@[a][b] is Some,
                    forall|b: int| 0 <= b < j ==> Some(#[trigger] row@[b]) == value@[i as int][b],
                decreases N - j,
            {
                let e = value.get_partial(i, j);
                row[j] = match e {
                    Some(v) => v as u8,
                    None => 0,
                };
                j += 1;
            }
            rows[i] = row;
            i += 1;
        }
        proof {
            lemma_grid(rows);
            assert(grid(rows) =~= target) by {
                assert forall|a: int| 0 <= a < N implies #[trigger] grid(rows)[a] =~= target[a] by {
                    assert forall|b: int| 0 <= b < N implies #[trigger] grid(rows)[a][b] == target[a][b] by {
                        assert(Some(rows@[a]@[b]) == value@[a][b]);
                    }
                }
            }
        }
        let sq = LatinSquare::new(rows);
        Ok(sq)
    }
}

} // verus!
