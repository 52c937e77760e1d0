//! Latin squares whose order is chosen at run time, stored row by row.
use vstd::prelude::*;
use crate::bitset::BitSet128;
use crate::latin_square::{LatinSquare, is_latin, row_has, col_has, grid, lemma_grid, lemma_cell_of_index, lemma_index_of_cell};
use crate::latin_square_trait::{PartialLatinSquareTrait, LatinSquareTrait};
use crate::partial_latin_square_dyn::{PartialLatinSquareDyn, unflatten};
use crate::set_util::set_min;
use crate::partial_latin_square::is_partial_latin;
use crate::completion::{all_filled, entries_below, completes, filled_values, lemma_filled_is_latin};
use crate::text::{chars_of, to_digit, lemma_chars_fit_bytes, is_cell_digit, digits_before, cell_value, digit_char, to_digit_char, lemma_digit_char, lemma_ascii_len, string_from_chars};
use vstd::string::StringSliceAdditionalSpecFns;

verus! {

/// `r` is the whole square root of `n`, if `n` has one.
pub open spec fn is_isqrt(n: nat, r: Option<usize>) -> bool {
    match r {
        Some(k) => k * k == n,
        None => forall|k: nat| #[trigger] (k * k) != n,
    }
}

/// The number whose square is `n`, if there is one.
pub fn isqrt(n: usize) -> (r: Option<usize>)
    ensures
        is_isqrt(n as nat, r),
{
    let mut i: usize = 0;
    loop
        invariant
            i <= n + 1,
            forall|k: nat| k < i ==> #[trigger] (k * k) < n,
        decreases n + 1 - i,
    {
        assert((i as u128) * (i as u128) <= 0xffff_ffff_ffff_ffffu128 * 0xffff_ffff_ffff_ffffu128) by (nonlinear_arith)
            requires
                i <= 0xffff_ffff_ffff_ffffu128,
        ;
        let sq: u128 = (i as u128) * (i as u128);
        if sq == n as u128 {
            return Some(i);
        }
        if sq > n as u128 {
            proof {
                assert forall|k: nat| #[trigger] (k * k) != n by {
                    if k >= i {
                        assert(k * k >= i * i) by (nonlinear_arith)
                            requires
                                k >= i,
                        ;
                    }
                }
            }
            return None;
        }
        proof {
            assert(i * i < n);
            assert(i + 1 <= n) by (nonlinear_arith)
                requires
                    i * i < n,
            ;
        }
        i += 1;
    }
}

/// A Latin square of order n: cell (i, j) is entry i * n + j.
#[derive(PartialEq, Eq, Hash, Debug)]
pub struct LatinSquareDyn {
    n: usize,
    values: Vec<u8>,
}

impl Clone for LatinSquareDyn {
    fn clone(&self) -> (r: Self)
        ensures
            r.order() == self.order(),
            r.flat() == self.flat(),
    {
        proof {
            use_type_invariant(self);
        }
        let values = self.values.clone();
        assert(values@ =~= self.values@);
        LatinSquareDyn { n: self.n, values }
    }
}

impl LatinSquareDyn {
    #[verifier::type_invariant]
    pub closed spec fn is_latin_square(&self) -> bool {
        &&& self.values@.len() == self.n * self.n
        &&& is_latin(unflatten(self.values@, self.n as nat), self.n as nat)
    }

    /// The order.
    pub closed spec fn order(&self) -> nat {
        self.n as nat
    }

    /// The cells in reading order.
    pub closed spec fn flat(&self) -> Seq<u8> {
        self.values@
    }

    /// The grid of cells.
    pub open spec fn square(&self) -> Seq<Seq<u8>> {
        unflatten(self.flat(), self.order())
    }

    pub proof fn lemma_latin(sq: &Self)
        requires
            sq.is_latin_square(),
        ensures
            sq.flat().len() == sq.order() * sq.order(),
            is_latin(sq.square(), sq.order()),
            forall|i: int, j: int| 0 <= i < sq.order() && 0 <= j < sq.order()
                ==> #[trigger] sq.square()[i][j] == sq.flat()[i * sq.order() + j],
            forall|i: int, j: int| 0 <= i < sq.order() && 0 <= j < sq.order()
                ==> 0 <= #[trigger] (i * sq.order() + j) < sq.order() * sq.order(),
    {
        assert forall|i: int, j: int| 0 <= i < sq.order() && 0 <= j < sq.order()
            implies 0 <= #[trigger] (i * sq.order() + j) < sq.order() * sq.order() by {
            lemma_index_of_cell(i, j, sq.order() as int);
        }
        assert forall|i: int, j: int| 0 <= i < sq.order() && 0 <= j < sq.order()
            implies #[trigger] sq.square()[i][j] == sq.flat()[i * sq.order() + j] by {}
    }

    /// Two squares of one order with the same grid have the same cells.
    pub proof fn lemma_square_determines(a: &Self, b: &Self)
        requires
            a.is_latin_square(),
            b.is_latin_square(),
            a.order() == b.order(),
            a.square() == b.square(),
        ensures
            a.flat() == b.flat(),
    {
        Self::lemma_latin(a);
        Self::lemma_latin(b);
        let n = a.order() as int;
        assert forall|k: int| 0 <= k < a.flat().len() implies a.flat()[k] == b.flat()[k] by {
            lemma_cell_of_index(k, n);
            let i = k / n;
            let j = k % n;
            assert(a.square()[i][j] == a.flat()[i * n + j]);
            assert(b.square()[i][j] == b.flat()[i * n + j]);
        }
        assert(a.flat() =~= b.flat());
    }

    /// Whether `values` lists, row by row, a Latin square of some order n.
    fn is_valid(values: &Vec<u8>) -> (r: Option<usize>)
        ensures
            r matches Some(n) ==> n * n == values@.len() && is_latin(unflatten(values@, n as nat), n as nat),
            r is None ==> forall|n: nat| n * n == values@.len() ==> !is_latin(#[trigger] unflatten(values@, n), n),
    {
        let n = match isqrt(values.len()) {
            Some(n) => n,
            None => {
                return None;
            },
        };
        let ghost s = unflatten(values@, n as nat);
        let len = values.len();
        proof {
            assert forall|m: nat| #[trigger] (m * m) == values@.len() implies m == n by {
                if m < n {
                    assert(m * m < n * n) by (nonlinear_arith)
                        requires
                            m < n,
                    ;
                } else if m > n {
                    assert(m * m > n * n) by (nonlinear_arith)
                        requires
                            m > n,
                    ;
                }
            }
        }
        let mut i: usize = 0;
        while i < n
            invariant
                n * n == values@.len(),
                len == values@.len(),
                i <= n,
                s == unflatten(values@, n as nat),
                forall|a: int, b: int| 0 <= a < i && 0 <= b < n ==> #[trigger] s[a][b] < n,
                forall|a: int, v: int| 0 <= a < i && 0 <= v < n ==> #[trigger] row_has(s, a, v),
                forall|b: int, v: int| 0 <= b < i && 0 <= v < n ==> #[trigger] col_has(s, b, v),
                forall|m: nat| #[trigger] (m * m) == values@.len() ==> m == n,
            decreases n - i,
        {
            let mut j: usize = 0;
            while j < n
                invariant
                    n * n == values@.len(),
                len == values@.len(),
                    i < n,
                    j <= n,
                    s == unflatten(values@, n as nat),
                    forall|b: int| 0 <= b < j ==> #[trigger] s[i as int][b] < n,
                    forall|m: nat| #[trigger] (m * m) == values@.len() ==> m == n,
                decreases n - j,
            {
                proof {
                    lemma_index_of_cell(i as int, j as int, n as int);
                    assert(i * n <= i * n + j);
                    assert(i * n + j < len);
                }
                if values[i * n + j] as usize >= n {
                    assert(s[i as int][j as int] >= n);
                    return None;
                }
                j += 1;
            }
            let mut v: usize = 0;
            while v < n
                invariant
                    n * n == values@.len(),
                len == values@.len(),
                    i < n,
                    v <= n,
                    s == unflatten(values@, n as nat),
                    forall|u: int| 0 <= u < v ==> #[trigger] row_has(s, i as int, u),
                    forall|u: int| 0 <= u < v ==> #[trigger] col_has(s, i as int, u),
                    forall|m: nat| #[trigger] (m * m) == values@.len() ==> m == n,
                decreases n - v,
            {
                let mut in_row = false;
                let mut in_col = false;
                let mut k: usize = 0;
                while k < n
                    invariant
                        n * n == values@.len(),
                len == values@.len(),
                        i < n,
                        v < n,
                        k <= n,
                        s == unflatten(values@, n as nat),
                        in_row == exists|c: int| 0 <= c < k && s[i as int][c] as int == v,
                        in_col == exists|c: int| 0 <= c < k && s[c][i as int] as int == v,
                    decreases n - k,
                {
                    proof {
                        lemma_index_of_cell(i as int, k as int, n as int);
                        lemma_index_of_cell(k as int, i as int, n as int);
                        assert(i * n <= i * n + k);
                        assert(k * n <= k * n + i);
                        assert(i * n + k < len);
                        assert(k * n + i < len);
                    }
                    let x = values[i * n + k];
                    let y = values[k * n + i];
                    assert(s[i as int][k as int] == x && s[k as int][i as int] == y);
                    if x as usize == v {
                        in_row = true;
                    }
                    if y as usize == v {
                        in_col = true;
                    }
                    k += 1;
                }
                if !in_row {
                    assert(!row_has(s, i as int, v as int));
                    return None;
                }
                if !in_col {
                    assert(!col_has(s, i as int, v as int));
                    return None;
                }
                v += 1;
            }
            i += 1;
        }
        Some(n)
    }

    /// The square listed row by row in `values`, if it is a Latin square.
    pub fn from_boxed_slice(values: Vec<u8>) -> (r: Option<LatinSquareDyn>)
        ensures
            r matches Some(sq) ==> sq.flat() == values@ && sq.order() * sq.order() == values@.len(),
            r is None ==> forall|n: nat| n * n == values@.len() ==> !is_latin(#[trigger] unflatten(values@, n), n),
    {
        match Self::is_valid(&values) {
            Some(n) => Some(LatinSquareDyn { n, values }),
            None => None,
        }
    }

    /// The square of a completely filled partial Latin square.
    pub fn from_filled(sq: &PartialLatinSquareDyn) -> (r: Self)
        requires
            all_filled(sq.grid(), sq.order()),
            entries_below(sq.grid(), sq.order()),
            is_partial_latin(sq.grid(), sq.order()),
            sq.order() <= 256,
        ensures
            r.order() == sq.order(),
            r.square() == filled_values(sq.grid(), sq.order()),
            completes(r.square(), sq.grid(), sq.order()),
    {
        proof {
            use_type_invariant(sq);
            PartialLatinSquareDyn::lemma_shape(sq);
            lemma_filled_is_latin(sq.grid(), sq.order());
        }
        let n = sq.n();
        assert(n * n <= 65536) by (nonlinear_arith)
            requires
                n <= 256,
        ;
        let mut values: Vec<u8> = Vec::new();
        let mut k: usize = 0;
        let ghost flat = sq.flat();
        while k < n * n
            invariant
                k <= n * n <= 65536,
                n == sq.order(),
                flat == sq.flat(),
                flat.len() == n * n,
                all_filled(sq.grid(), sq.order()),
                values@.len() == k,
                forall|m: int| 0 <= m < k ==> Some(#[trigger] values@[m]) == flat[m],
            decreases n * n - k,
        {
            proof {
                lemma_cell_of_index(k as int, n as int);
                let a = k as int / n as int;
                let b = k as int % n as int;
                assert(sq.grid()[a][b] is Some);
                assert(sq.grid()[a][b] == flat[a * n + b]);
            }
            let i = k / n;
            let j = k % n;
            let v = sq.get_partial(i, j);
            match v {
                Some(x) => values.push(x as u8),
                None => values.push(0),
            }
            k += 1;
        }
        proof {
            assert(unflatten(values@, n as nat) =~= filled_values(sq.grid(), n as nat)) by {
                assert forall|a: int| 0 <= a < n implies #[trigger] unflatten(values@, n as nat)[a] =~= filled_values(sq.grid(), n as nat)[a] by {
                    assert forall|b: int| 0 <= b < n implies #[trigger] unflatten(values@, n as nat)[a][b] == filled_values(sq.grid(), n as nat)[a][b] by {
                        lemma_index_of_cell(a, b, n as int);
                        assert(Some(values@[a * n + b]) == flat[a * n + b]);
                    }
                }
            }
        }
        LatinSquareDyn { n, values }
    }

    /// Whether the two squares are equal.
    pub fn same_as(&self, other: &Self) -> (r: bool)
        ensures
            r == (self.order() == other.order() && self.flat() == other.flat()),
    {
        if self.n != other.n || self.values.len() != other.values.len() {
            return false;
        }
        let mut k: usize = 0;
        while k < self.values.len()
            invariant
                k <= self.values@.len() == other.values@.len(),
                forall|m: int| 0 <= m < k ==> self.values@[m] == other.values@[m],
            decreases self.values@.len() - k,
        {
            if self.values[k] != other.values[k] {
                return false;
            }
            k += 1;
        }
        assert(self.values@ =~= other.values@);
        true
    }

    /// The cells in reading order.
    pub fn values(&self) -> (r: &[u8])
        ensures
            r@ == self.flat(),
    {
        self.values.as_slice()
    }

    /// The square of a fixed order as a square of run-time order.
    pub fn from_latin_square<const N: usize>(sq: LatinSquare<N>) -> (r: Self)
        ensures
            r.order() == N,
            r.square() == sq@,
    {
        proof {
            use_type_invariant(&sq);
            LatinSquare::<N>::lemma_latin(&sq);
        }
        let rows = sq.to_values();
        proof {
            lemma_grid(rows);
        }
        let mut values: Vec<u8> = Vec::new();
        let mut i: usize = 0;
        while i < N
            invariant
                i <= N <= 256,
                values@.len() == i * N,
                grid(rows) == sq@,
                forall|a: int, b: int| 0 <= a < i && 0 <= b < N ==> #[trigger] values@[a * N + b] == sq@[a][b],
            decreases N - i,
        {
            let mut j: usize = 0;
            while j < N
                invariant
                    i < N <= 256,
                    j <= N,
                    values@.len() == i * N + j,
                    grid(rows) == sq@,
                    forall|a: int, b: int| 0 <= a < i && 0 <= b < N ==> #[trigger] values@[a * N + b] == sq@[a][b],
                    forall|b: int| 0 <= b < j ==> #[trigger] values@[i * N + b] == sq@[i as int][b],
                decreases N - j,
            {
                proof {
                    lemma_index_of_cell(i as int, j as int, N as int);
                    assert(i * N + j < N * N);
                    assert(N * N <= 65536) by (nonlinear_arith)
                        requires
                            N <= 256,
                    ;
                }
                let ghost before = values@;
                values.push(rows[i][j]);
                proof {
                    assert forall|a: int, b: int| 0 <= a < i && 0 <= b < N implies #[trigger] values@[a * N + b] == sq@[a][b] by {
                        lemma_index_of_cell(a, b, N as int);
                        assert((a + 1) * N <= i * N) by (nonlinear_arith)
                            requires
                                a + 1 <= i,
                        ;
                        assert((a + 1) * N == a * N + N) by (nonlinear_arith);
                        assert(before[a * N + b] == sq@[a][b]);
                    }
                }
                j += 1;
            }
            proof {
                assert((i + 1) * N == i * N + N) by (nonlinear_arith);
            }
            i += 1;
        }
        proof {
            assert(unflatten(values@, N as nat) =~= sq@) by {
                assert forall|a: int| 0 <= a < N implies #[trigger] unflatten(values@, N as nat)[a] =~= sq@[a] by {}
            }
        }
        LatinSquareDyn { n: N, values }
    }
}

impl PartialLatinSquareTrait for LatinSquareDyn {
    open spec fn size(&self) -> nat {
        self.order()
    }

    open spec fn cell(&self, i: int, j: int) -> Option<usize> {
        Some(self.square()[i][j] as usize)
    }

    fn n(&self) -> (r: usize) {
        self.n
    }

    fn get_partial(&self, row: usize, col: usize) -> (r: Option<usize>) {
        Some(self.get(row, col))
    }
}

impl LatinSquareTrait for LatinSquareDyn {
    fn get(&self, row: usize, col: usize) -> (r: usize) {
        proof {
            use_type_invariant(self);
            Self::lemma_latin(self);
        }
        let len = self.values.len();
        assert(row * self.n + col < len);
        assert(row * self.n <= row * self.n + col);
        self.values[row * self.n + col] as usize
    }

    fn get_subsquare_dyn(&self, rows: &[usize], cols: &[usize]) -> (r: Vec<Vec<usize>>) {
        let mut values: Vec<Vec<usize>> = Vec::new();
        let mut a: usize = 0;
        while a < rows.len()
            invariant
                a <= rows@.len() == cols@.len(),
                forall|x: int| 0 <= x < rows@.len() ==> #[trigger] rows@[x] < self.size(),
                forall|y: int| 0 <= y < cols@.len() ==> #[trigger] cols@[y] < self.size(),
                values@.len() == a,
                forall|x: int| 0 <= x < a ==> #[trigger] values@[x]@.len() == cols@.len(),
                forall|x: int, y: int| 0 <= x < a && 0 <= y < cols@.len()
                    ==> Some(#[trigger] values@[x]@[y]) == self.cell(rows@[x] as int, cols@[y] as int),
            decreases rows@.len() - a,
        {
            let mut row: Vec<usize> = Vec::new();
            let mut b: usize = 0;
            while b < cols.len()
                invariant
                    a < rows@.len() == cols@.len(),
                    b <= cols@.len(),
                    forall|x: int| 0 <= x < rows@.len() ==> #[trigger] rows@[x] < self.size(),
                    forall|y: int| 0 <= y < cols@.len() ==> #[trigger] cols@[y] < self.size(),
                    row@.len() == b,
                    forall|y: int| 0 <= y < b ==> Some(#[trigger] row@[y]) == self.cell(rows@[a as int] as int, cols@[y] as int),
                decreases cols@.len() - b,
            {
                row.push(self.get(rows[a], cols[b]));
                b += 1;
            }
            values.push(row);
            a += 1;
        }
        values
    }

    fn num_subsquares_dyn(&self, k: usize) -> (r: usize) {
        proof {
            use_type_invariant(self);
            Self::lemma_latin(self);
            assert(crate::latin_square_trait::filled_grid(self) =~= self.square()) by {
                assert forall|i: int| 0 <= i < self.order() implies #[trigger] crate::latin_square_trait::filled_grid(self)[i] =~= self.square()[i] by {}
            }
        }
        self.count_subsquares(k)
    }
}

impl LatinSquareDyn {
    /// The entry of cell (row, col).
    pub fn entry(&self, row: usize, col: usize) -> (r: usize)
        requires
            row < self.order(),
            col < self.order(),
        ensures
            r == self.square()[row as int][col as int],
            r < self.order(),
    {
        proof {
            use_type_invariant(self);
            Self::lemma_latin(self);
        }
        self.get(row, col)
    }

    /// The partial square with the given rows emptied.
    pub fn without_rows(&self, rows: &[usize]) -> (r: PartialLatinSquareDyn)
        requires
            forall|k: int| 0 <= k < rows@.len() ==> #[trigger] rows@[k] < self.order(),
        ensures
            r.order() == self.order(),
            forall|i: int, j: int| 0 <= i < self.order() && 0 <= j < self.order() ==> #[trigger] r.grid()[i][j]
                == if rows@.contains(i as usize) { None::<u8> } else { Some(self.square()[i][j]) },
    {
        self.without_lines(rows, true)
    }

    /// The partial square with the given columns emptied.
    pub fn without_cols(&self, cols: &[usize]) -> (r: PartialLatinSquareDyn)
        requires
            forall|k: int| 0 <= k < cols@.len() ==> #[trigger] cols@[k] < self.order(),
        ensures
            r.order() == self.order(),
            forall|i: int, j: int| 0 <= i < self.order() && 0 <= j < self.order() ==> #[trigger] r.grid()[i][j]
                == if cols@.contains(j as usize) { None::<u8> } else { Some(self.square()[i][j]) },
    {
        self.without_lines(cols, false)
    }

    fn without_lines(&self, lines: &[usize], by_row: bool) -> (r: PartialLatinSquareDyn)
        requires
            forall|k: int| 0 <= k < lines@.len() ==> #[trigger] lines@[k] < self.order(),
        ensures
            r.order() == self.order(),
            forall|i: int, j: int| 0 <= i < self.order() && 0 <= j < self.order() ==> #[trigger] r.grid()[i][j]
                == if lines@.contains((if by_row { i } else { j }) as usize) { None::<u8> } else { Some(self.square()[i][j]) },
    {
        proof {
            use_type_invariant(self);
            Self::lemma_latin(self);
        }
        let n = self.n;
        let mut sq = PartialLatinSquareDyn::from_latin_square(self);
        proof {
            use_type_invariant(&sq);
            PartialLatinSquareDyn::lemma_shape(&sq);
        }
        let mut k: usize = 0;
        while k < lines.len()
            invariant
                k <= lines@.len(),
                n == self.order(),
                sq.order() == n,
                sq.flat().len() == n * n,
                forall|m: int| 0 <= m < lines@.len() ==> #[trigger] lines@[m] < n,
                forall|i: int, j: int| 0 <= i < n && 0 <= j < n ==> #[trigger] sq.grid()[i][j]
                    == if lines@.take(k as int).contains((if by_row { i } else { j }) as usize) { None::<u8> } else { Some(self.square()[i][j]) },
            decreases lines@.len() - k,
        {
            let line = lines[k];
            let mut m: usize = 0;
            while m < n
                invariant
                    m <= n,
                    k < lines@.len(),
                    line == lines@[k as int],
                    line < n,
                    n == self.order(),
                    sq.order() == n,
                    sq.flat().len() == n * n,
                    forall|i: int, j: int| 0 <= i < n && 0 <= j < n ==> #[trigger] sq.grid()[i][j]
                        == if lines@.take(k as int).contains((if by_row { i } else { j }) as usize)
                            || ((if by_row { i } else { j }) == line && (if by_row { j } else { i }) < m) { None::<u8> } else { Some(self.square()[i][j]) },
                decreases n - m,
            {
                let ghost before = sq.grid();
                if by_row {
                    sq.set(line, m, None);
                } else {
                    sq.set(m, line, None);
                }
                proof {
                    use_type_invariant(&sq);
                    PartialLatinSquareDyn::lemma_shape(&sq);
                    let (a, b) = if by_row { (line as int, m as int) } else { (m as int, line as int) };
                    lemma_index_of_cell(a, b, n as int);
                    assert forall|i: int, j: int| 0 <= i < n && 0 <= j < n implies #[trigger] sq.grid()[i][j]
                        == if lines@.take(k as int).contains((if by_row { i } else { j }) as usize)
                            || ((if by_row { i } else { j }) == line && (if by_row { j } else { i }) < m + 1) { None::<u8> } else { Some(self.square()[i][j]) } by {
                        lemma_index_of_cell(i, j, n as int);
                        if i != a || j != b {
                            assert(i * n + j != a * n + b);
                            assert(sq.grid()[i][j] == before[i][j]);
                        }
                    }
                }
                m += 1;
            }
            proof {
                assert forall|i: int, j: int| 0 <= i < n && 0 <= j < n implies #[trigger] sq.grid()[i][j]
                    == if lines@.take(k as int + 1).contains((if by_row { i } else { j }) as usize) { None::<u8> } else { Some(self.square()[i][j]) } by {
                    let x = (if by_row { i } else { j }) as usize;
                    let t0 = lines@.take(k as int);
                    let t1 = lines@.take(k as int + 1);
                    assert(t1 =~= t0.push(line));
                    if t1.contains(x) && !t0.contains(x) {
                        let w = choose|w: int| 0 <= w < t1.len() && t1[w] == x;
                        if w < k {
                            assert(t0[w] == x);
                        }
                        assert(x == line);
                    }
                    if x == line {
                        assert(t1[k as int] == line);
                    }
                    if t0.contains(x) {
                        let w = choose|w: int| 0 <= w < t0.len() && t0[w] == x;
                        assert(t1[w] == x);
                    }
                }
            }
            k += 1;
        }
        proof {
            assert(lines@.take(lines@.len() as int) =~= lines@);
        }
        sq
    }

    /// The partial square with every cell holding one of `vals` emptied.
    pub fn without_vals(&self, vals: &[usize]) -> (r: PartialLatinSquareDyn)
        ensures
            r.order() == self.order(),
            forall|i: int, j: int| 0 <= i < self.order() && 0 <= j < self.order() ==> #[trigger] r.grid()[i][j]
                == if vals@.contains(self.square()[i][j] as usize) { None::<u8> } else { Some(self.square()[i][j]) },
    {
        proof {
            use_type_invariant(self);
            Self::lemma_latin(self);
        }
        let n = self.n;
        let mut sq = PartialLatinSquareDyn::from_latin_square(self);
        proof {
            use_type_invariant(&sq);
            PartialLatinSquareDyn::lemma_shape(&sq);
        }
        let mut k: usize = 0;
        while k < vals.len()
            invariant
                k <= vals@.len(),
                n == self.order(),
                sq.order() == n,
                sq.flat().len() == n * n,
                is_latin(self.square(), n as nat),
                forall|i: int, j: int| 0 <= i < n && 0 <= j < n ==> #[trigger] sq.grid()[i][j]
                    == if vals@.take(k as int).contains(self.square()[i][j] as usize) { None::<u8> } else { Some(self.square()[i][j]) },
            decreases vals@.len() - k,
        {
            let value = vals[k];
            let mut i: usize = 0;
            while i < n
                invariant
                    i <= n,
                    k < vals@.len(),
                    value == vals@[k as int],
                    n == self.order(),
                    sq.order() == n,
                    sq.flat().len() == n * n,
                    is_latin(self.square(), n as nat),
                    forall|a: int, b: int| 0 <= a < n && 0 <= b < n ==> #[trigger] sq.grid()[a][b]
                        == if vals@.take(k as int).contains(self.square()[a][b] as usize)
                            || (self.square()[a][b] as usize == value && a < i) { None::<u8> } else { Some(self.square()[a][b]) },
                decreases n - i,
            {
                let mut j: usize = 0;
                while j < n
                    invariant
                        i < n,
                        j <= n,
                        k < vals@.len(),
                        value == vals@[k as int],
                        n == self.order(),
                        sq.order() == n,
                        sq.flat().len() == n * n,
                        is_latin(self.square(), n as nat),
                        forall|a: int, b: int| 0 <= a < n && 0 <= b < n ==> #[trigger] sq.grid()[a][b]
                            == if vals@.take(k as int).contains(self.square()[a][b] as usize)
                                || (self.square()[a][b] as usize == value && (a < i || (a == i && b < j))) { None::<u8> } else { Some(self.square()[a][b]) },
                    decreases n - j,
                {
                    if self.entry(i, j) == value {
                        let ghost before = sq.grid();
                        sq.set(i, j, None);
                        proof {
                            use_type_invariant(&sq);
                            PartialLatinSquareDyn::lemma_shape(&sq);
                            lemma_index_of_cell(i as int, j as int, n as int);
                            assert forall|a: int, b: int| 0 <= a < n && 0 <= b < n implies #[trigger] sq.grid()[a][b]
                                == if vals@.take(k as int).contains(self.square()[a][b] as usize)
                                    || (self.square()[a][b] as usize == value && (a < i || (a == i && b < j + 1))) { None::<u8> } else { Some(self.square()[a][b]) } by {
                                lemma_index_of_cell(a, b, n as int);
                                if a != i || b != j {
                                    assert(a * n + b != i * n + j);
                                    assert(sq.grid()[a][b] == before[a][b]);
                                }
                            }
                        }
                    }
                    j += 1;
                }
                i += 1;
            }
            proof {
                assert forall|a: int, b: int| 0 <= a < n && 0 <= b < n implies #[trigger] sq.grid()[a][b]
                    == if vals@.take(k as int + 1).contains(self.square()[a][b] as usize) { None::<u8> } else { Some(self.square()[a][b]) } by {
                    let x = self.square()[a][b] as usize;
                    let t0 = vals@.take(k as int);
                    let t1 = vals@.take(k as int + 1);
                    assert(t1 =~= t0.push(value));
                    if t1.contains(x) && !t0.contains(x) {
                        let w = choose|w: int| 0 <= w < t1.len() && t1[w] == x;
                        if w < k {
                            assert(t0[w] == x);
                        }
                        assert(x == value);
                    }
                    if x == value {
                        assert(t1[k as int] == value);
                    }
                    if t0.contains(x) {
                        let w = choose|w: int| 0 <= w < t0.len() && t0[w] == x;
                        assert(t1[w] == x);
                    }
                }
            }
            k += 1;
        }
        proof {
            assert(vals@.take(vals@.len() as int) =~= vals@);
        }
        sq
    }

    /// The cells, by reading-order index, in which the two squares differ.
    pub fn difference_mask(&self, other: &Self) -> (r: BitSet128)
        requires
            self.order() == other.order(),
            self.order() * self.order() <= 128,
        ensures
            r@ == Set::new(|x: int| 0 <= x < self.order() * self.order() && self.flat()[x] != other.flat()[x]),
    {
        proof {
            use_type_invariant(self);
            Self::lemma_latin(self);
            use_type_invariant(other);
            Self::lemma_latin(other);
        }
        let n = self.n;
        let mut mask = BitSet128::empty();
        let mut k: usize = 0;
        while k < n * n
            invariant
                k <= n * n <= 128,
                n == self.order() == other.order(),
                self.values@.len() == n * n,
                other.values@.len() == n * n,
                mask@ == Set::new(|x: int| 0 <= x < k && self.flat()[x] != other.flat()[x]),
            decreases n * n - k,
        {
            if self.values[k] != other.values[k] {
                mask.insert(k);
            }
            k += 1;
            assert(mask@ =~= Set::new(|x: int| 0 <= x < k && self.flat()[x] != other.flat()[x]));
        }
        mask
    }

    /// The partial square that keeps the cells whose reading-order index is in `mask`.
    pub fn mask(&self, mask: BitSet128) -> (r: PartialLatinSquareDyn)
        requires
            forall|x: int| mask@.contains(x) ==> x < self.order() * self.order(),
        ensures
            r.order() == self.order(),
            forall|i: int, j: int| 0 <= i < self.order() && 0 <= j < self.order() ==> #[trigger] r.grid()[i][j]
                == (if mask@.contains(i * self.order() + j) { Some(self.square()[i][j]) } else { None::<u8> }),
    {
        proof {
            use_type_invariant(self);
            Self::lemma_latin(self);
            mask.lemma_view();
        }
        let n = self.n;
        let len = self.values.len();
        let mut partial_sq = PartialLatinSquareDyn::empty(n);
        let mut it = mask.iter();
        proof {
            use_type_invariant(&partial_sq);
            PartialLatinSquareDyn::lemma_shape(&partial_sq);
            assert forall|i: int, j: int| 0 <= i < n && 0 <= j < n implies #[trigger] partial_sq.grid()[i][j] is None by {
                lemma_index_of_cell(i, j, n as int);
            }
        }
        loop
            invariant
                n == self.order(),
                len == n * n,
                partial_sq.order() == n,
                partial_sq.flat().len() == n * n,
                forall|x: int| mask@.contains(x) ==> 0 <= x < n * n,
                forall|x: int| mask@.contains(x) ==> 0 <= x < 128,
                it@.subset_of(mask@),
                it@.finite(),
                forall|i: int, j: int| 0 <= i < n && 0 <= j < n ==> #[trigger] partial_sq.grid()[i][j]
                    == (if mask@.contains(i * n + j) && !it@.contains(i * n + j) { Some(self.square()[i][j]) } else { None::<u8> }),
            ensures
                forall|i: int, j: int| 0 <= i < n && 0 <= j < n ==> #[trigger] partial_sq.grid()[i][j]
                    == (if mask@.contains(i * n + j) { Some(self.square()[i][j]) } else { None::<u8> }),
            decreases it@.len(),
        {
            let ghost before = it@;
            let next = it.next();
            match next {
                None => {
                    assert(before == Set::<int>::empty());
                    break;
                },
                Some(index) => {
                    proof {
                        assert(before.contains(set_min(before)));
                        assert(index as int == set_min(before));
                        assert(mask@.contains(index as int));
                        lemma_cell_of_index(index as int, n as int);
                    }
                    let i = index / n;
                    let j = index % n;
                    let v = self.entry(i, j);
                    let ghost old_p = partial_sq.grid();
                    let ghost old_flat = partial_sq.flat();
                    partial_sq.set(i, j, Some(v));
                    proof {
                        use_type_invariant(&partial_sq);
                        PartialLatinSquareDyn::lemma_shape(&partial_sq);
                        assert(it@ == before.remove(index as int));
                        assert((i as int) * (n as int) + (j as int) == index as int);
                        assert(partial_sq.flat() == old_flat.update(index as int, Some(v as u8)));
                        assert forall|a: int, b: int| 0 <= a < n && 0 <= b < n implies #[trigger] partial_sq.grid()[a][b]
                            == (if mask@.contains(a * n + b) && !it@.contains(a * n + b) { Some(self.square()[a][b]) } else { None::<u8> }) by {
                            lemma_index_of_cell(a, b, n as int);
                            assert(partial_sq.grid()[a][b] == partial_sq.flat()[a * n + b]);
                            assert(old_p[a][b] == old_flat[a * n + b]);
                            if a == i && b == j {
                                assert(partial_sq.grid()[a][b] == Some(v as u8));
                            } else {
                                assert(a * n + b != index);
                                assert(partial_sq.grid()[a][b] == old_p[a][b]);
                                assert(old_p[a][b] == (if mask@.contains(a * n + b) && !before.contains(a * n + b) { Some(self.square()[a][b]) } else { None::<u8> }));
                            }
                        }
                    }
                },
            }
        }
        partial_sq
    }
}

/// Why text does not describe a Latin square.
#[derive(Debug, Clone, Copy, PartialEq, Eq)]
pub enum Error {
    InvalidLength { len: usize },
    InvalidChar { index: usize, char: char },
    InvalidLatinSquare,
}

/// The `len` cells that the characters describe, cell i from character i; cells without a
/// character hold 0.
pub open spec fn digit_cells(chars: Seq<char>, len: nat, radix: u32) -> Seq<u8> {
    Seq::new(len, |i: int| if i < chars.len() { cell_value(chars[i], radix) } else { 0u8 })
}

impl LatinSquareDyn {
    /// Reads a square written row by row as one decimal digit per cell; the order is the
    /// square root of the length.
    pub fn try_from_str(value: &str) -> (r: Result<Self, Error>)
        ensures
            (forall|k: nat| #[trigger] (k * k) != value.spec_bytes().len())
                ==> r == Err::<Self, Error>(Error::InvalidLength { len: value.spec_bytes().len() as usize }),
            forall|n: nat| #[trigger] (n * n) == value.spec_bytes().len() ==> match r {
                Ok(sq) => digits_before(value@, value@.len() as int, 10, n)
                    && is_latin(unflatten(digit_cells(value@, n * n, 10), n), n)
                    && sq.order() == n && sq.flat() == digit_cells(value@, n * n, 10),
                Err(Error::InvalidChar { index, char }) => index < value@.len() && value@[index as int] == char
                    && !is_cell_digit(char, 10, n) && digits_before(value@, index as int, 10, n),
                Err(Error::InvalidLatinSquare) => digits_before(value@, value@.len() as int, 10, n)
                    && !is_latin(unflatten(digit_cells(value@, n * n, 10), n), n),
                Err(Error::InvalidLength { .. }) => false,
            },
    {
        let len = value.as_bytes().len();
        let n = match isqrt(len) {
            Some(n) => n,
            None => {
                return Err(Error::InvalidLength { len });
            },
        };
        proof {
            assert forall|m: nat| #[trigger] (m * m) == len implies m == n by {
                if m < n {
                    assert(m * m < n * n) by (nonlinear_arith)
                        requires
                            m < n,
                    ;
                } else if m > n {
                    assert(m * m > n * n) by (nonlinear_arith)
                        requires
                            m > n,
                    ;
                }
            }
        }
        let chars = chars_of(value);
        proof {
            lemma_chars_fit_bytes(value@);
        }
        let mut values: Vec<u8> = vec![0u8; len];
        let mut i: usize = 0;
        while i < chars.len()
            invariant
                value.spec_bytes().len() == len,
                n * n == len,
                forall|m: nat| #[trigger] (m * m) == len ==> m == n,
                values@.len() == len,
                i <= chars@.len() <= len,
                chars@ == value@,
                digits_before(chars@, i as int, 10, n as nat),
                forall|k: int| 0 <= k < len ==> #[trigger] values@[k] == if k < i { cell_value(chars@[k], 10) } else { 0u8 },
            decreases chars@.len() - i,
        {
            let c = chars[i];
            match to_digit(c, 10) {
                None => {
                    return Err(Error::InvalidChar { index: i, char: c });
                },
                Some(entry) => {
                    if entry as usize >= n {
                        return Err(Error::InvalidChar { index: i, char: c });
                    }
                    values.set(i, entry as u8);
                },
            }
            i += 1;
        }
        assert(values@ =~= digit_cells(value@, (n * n) as nat, 10));
        match Self::from_boxed_slice(values) {
            Some(sq) => {
                proof {
                    use_type_invariant(&sq);
                    Self::lemma_latin(&sq);
                    assert(sq.order() == n) by {
                        if sq.order() < n {
                            assert(sq.order() * sq.order() < n * n) by (nonlinear_arith)
                                requires
                                    sq.order() < n,
                            ;
                        } else if sq.order() > n {
                            assert(sq.order() * sq.order() > n * n) by (nonlinear_arith)
                                requires
                                    sq.order() > n,
                            ;
                        }
                    }
                }
                Ok(sq)
            },
            None => Err(Error::InvalidLatinSquare),
        }
    }
}

/// The text of the cells: one decimal digit per cell, in reading order.
pub open spec fn cells_text(f: Seq<u8>) -> Seq<char> {
    Seq::new(f.len(), |k: int| digit_char(f[k] as int))
}

impl LatinSquareDyn {
    /// The square written row by row, one decimal digit per cell (orders up to 10).
    pub fn to_text(&self) -> (r: String)
        requires
            self.order() <= 10,
        ensures
            r@ == cells_text(self.flat()),
            is_latin(unflatten(self.flat(), self.order()), self.order()),
            self.flat().len() == self.order() * self.order(),
    {
        proof {
            use_type_invariant(self);
            Self::lemma_latin(self);
            let n = self.order();
            assert forall|x: int| 0 <= x < self.values@.len() implies #[trigger] self.values@[x] < n by {
                lemma_cell_of_index(x, n as int);
                let a = x / n as int;
                let b = x % n as int;
                assert(self.square()[a][b] == self.flat()[a * n + b]);
            }
        }
        let mut chars: Vec<char> = Vec::new();
        let mut k: usize = 0;
        while k < self.values.len()
            invariant
                k <= self.values@.len(),
                self.order() <= 10,
                self.values@ == self.flat(),
                is_latin(self.square(), self.order()),
                forall|x: int| 0 <= x < self.values@.len() ==> #[trigger] self.values@[x] < self.order(),
                chars@.len() == k,
                forall|x: int| 0 <= x < k ==> #[trigger] chars@[x] == digit_char(self.values@[x] as int),
            decreases self.values@.len() - k,
        {
            chars.push(to_digit_char(self.values[k]));
            k += 1;
        }
        proof {
            assert(chars@ =~= cells_text(self.flat()));
        }
        string_from_chars(chars)
    }
}

/// Reading the text of a Latin square of order at most 10 gives the square back.
pub proof fn lemma_cells_text_round_trip(f: Seq<u8>, n: nat)
    requires
        n <= 10,
        f.len() == n * n,
        is_latin(unflatten(f, n), n),
    ensures
        vstd::utf8::encode_utf8(cells_text(f)).len() == n * n,
        digits_before(cells_text(f), (n * n) as int, 10, n),
        digit_cells(cells_text(f), n * n, 10) == f,
{
    let text = cells_text(f);
    assert forall|k: int| 0 <= k < text.len() implies (#[trigger] text[k] as u32) < 128
        && is_cell_digit(text[k], 10, n) && cell_value(text[k], 10) == f[k] by {
        lemma_cell_of_index(k, n as int);
        let a = k / n as int;
        let b = k % n as int;
        assert(unflatten(f, n)[a][b] == f[a * n + b]);
        lemma_digit_char(f[k] as int, 10);
    }
    lemma_ascii_len(text);
    assert(digit_cells(text, n * n, 10) =~= f);
}

} // verus!
