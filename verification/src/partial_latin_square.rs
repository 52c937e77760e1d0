//! N x N grids in which some cells hold a value and the others are empty.
use vstd::prelude::*;
use core::cmp::Ordering;
use vstd::string::StringSliceAdditionalSpecFns;
use crate::text::{chars_of, to_digit, lemma_chars_fit_bytes, is_cell_digit, cells_before, cell_value};
use crate::latin_square::{lemma_cell_of_index, lemma_index_of_cell};

verus! {

/// The rows of a grid of optional bytes as sequences.
pub open spec fn partial_grid<const N: usize>(rows: [[Option<u8>; N]; N]) -> Seq<Seq<Option<u8>>> {
    rows@.map_values(|r: [Option<u8>; N]| r@)
}

/// An entry read as a number.
pub open spec fn entry_value(e: Option<u8>) -> Option<usize> {
    match e {
        Some(v) => Some(v as usize),
        None => None,
    }
}

/// The number of filled cells in a row.
pub open spec fn filled_in_row(r: Seq<Option<u8>>) -> nat
    decreases r.len(),
{
    if r.len() == 0 {
        0
    } else {
        filled_in_row(r.drop_last()) + if r.last() is Some { 1nat } else { 0nat }
    }
}

/// The number of filled cells in the first `k` rows.
pub open spec fn filled_in_rows(s: Seq<Seq<Option<u8>>>, k: int) -> nat
    decreases k,
{
    if k <= 0 {
        0
    } else {
        filled_in_rows(s, k - 1) + filled_in_row(s[k - 1])
    }
}

/// No value occurs twice in a row or twice in a column.
pub open spec fn is_partial_latin(s: Seq<Seq<Option<u8>>>, n: nat) -> bool {
    &&& forall|i: int, j: int, k: int|
        0 <= i < n && 0 <= j < n && 0 <= k < n && j != k && #[trigger] s[i][j] is Some ==> #[trigger] s[i][k] != s[i][j]
    &&& forall|i: int, j: int, k: int|
        0 <= i < n && 0 <= j < n && 0 <= k < n && j != k && #[trigger] s[j][i] is Some ==> #[trigger] s[k][i] != s[j][i]
}

/// Cell (i, j) comes before cell (k, l) in reading order.
pub open spec fn cell_before(i: int, j: int, k: int, l: int) -> bool {
    i < k || (i == k && j < l)
}

/// The two grids agree on every cell before (i, j) in reading order.
pub open spec fn agree_before(a: Seq<Seq<Option<u8>>>, b: Seq<Seq<Option<u8>>>, n: nat, i: int, j: int) -> bool {
    forall|k: int, l: int| 0 <= k < n && 0 <= l < n && cell_before(k, l, i, j) ==> #[trigger] a[k][l] == b[k][l]
}

/// Entry `x` comes before entry `y`: filled cells come first, filled cells by value.
pub open spec fn entry_less(x: Option<u8>, y: Option<u8>) -> bool {
    match (x, y) {
        (Some(_), None) => true,
        (Some(a), Some(b)) => a < b,
        _ => false,
    }
}

/// `a` comes before `b`: at the first cell in reading order where they differ,
/// the entry of `a` comes first.
pub open spec fn partial_less(a: Seq<Seq<Option<u8>>>, b: Seq<Seq<Option<u8>>>, n: nat) -> bool {
    exists|i: int, j: int| 0 <= i < n && 0 <= j < n && agree_before(a, b, n, i, j) && #[trigger] entry_less(a[i][j], b[i][j])
}

/// An N x N grid of cells that are empty or hold a value.
#[derive(Clone, Copy, PartialEq, Eq, Hash, Debug)]
pub struct PartialLatinSquare<const N: usize> {
    rows: [[Option<u8>; N]; N],
}

impl<const N: usize> View for PartialLatinSquare<N> {
    type V = Seq<Seq<Option<u8>>>;

    closed spec fn view(&self) -> Seq<Seq<Option<u8>>> {
        partial_grid(self.rows)
    }
}

impl<const N: usize> PartialLatinSquare<N> {
    pub proof fn lemma_shape(&self)
        ensures
            self@.len() == N,
            forall|i: int| 0 <= i < N ==> #[trigger] self@[i].len() == N,
    {
    }

    /// The grid with every cell empty.
    pub fn empty() -> (r: Self)
        ensures
            forall|i: int, j: int| 0 <= i < N && 0 <= j < N ==> #[trigger] r@[i][j] is None,
    {
        PartialLatinSquare { rows: [[None; N]; N] }
    }

    pub fn get_partial(&self, row: usize, col: usize) -> (r: Option<usize>)
        requires
            row < N,
            col < N,
        ensures
            r == entry_value(self@[row as int][col as int]),
    {
        match self.rows[row][col] {
            Some(v) => Some(v as usize),
            None => None,
        }
    }

    pub fn from_array(values: [[Option<u8>; N]; N]) -> (r: Self)
        ensures
            r@ == partial_grid(values),
    {
        PartialLatinSquare { rows: values }
    }

    pub fn values(self) -> (r: [[Option<u8>; N]; N])
        ensures
            partial_grid(r) == self@,
    {
        self.rows
    }

    pub fn get(&self, row: usize, col: usize) -> (r: Option<usize>)
        requires
            row < N,
            col < N,
        ensures
            r == entry_value(self@[row as int][col as int]),
    {
        self.get_partial(row, col)
    }

    /// Fills or empties cell (i, j); a value is stored as its low byte.
    pub fn set(&mut self, i: usize, j: usize, value: Option<usize>)
        requires
            i < N,
            j < N,
        ensures
            final(self)@ == old(self)@.update(i as int, old(self)@[i as int].update(j as int, match value {
                Some(v) => Some(v as u8),
                None => None,
            })),
    {
        let e: Option<u8> = match value {
            Some(v) => Some(v as u8),
            None => None,
        };
        self.rows[i][j] = e;
        assert(self@ =~= old(self)@.update(i as int, old(self)@[i as int].update(j as int, e)));
    }

    /// No value occurs twice in a row or in a column.
    pub fn is_valid(&self) -> (r: bool)
        requires
            forall|i: int, j: int| 0 <= i < N && 0 <= j < N && #[trigger] self@[i][j] is Some ==> self@[i][j]->0 < 16,
        ensures
            r == is_partial_latin(self@, N as nat),
    {
        let mut i: usize = 0;
        while i < N
            invariant
                i <= N,
                forall|a: int, j: int, k: int|
                    0 <= a < i && 0 <= j < N && 0 <= k < N && j != k && #[trigger] self@[a][j] is Some ==> #[trigger] self@[a][k] != self@[a][j],
                forall|a: int, j: int, k: int|
                    0 <= a < i && 0 <= j < N && 0 <= k < N && j != k && #[trigger] self@[j][a] is Some ==> #[trigger] self@[k][a] != self@[j][a],
            decreases N - i,
        {
            let mut j: usize = 0;
            while j < N
                invariant
                    i < N,
                    j <= N,
                    forall|a: int, b: int, k: int|
                        0 <= a < i && 0 <= b < N && 0 <= k < N && b != k && #[trigger] self@[a][b] is Some ==> #[trigger] self@[a][k] != self@[a][b],
                    forall|a: int, b: int, k: int|
                        0 <= a < i && 0 <= b < N && 0 <= k < N && b != k && #[trigger] self@[b][a] is Some ==> #[trigger] self@[k][a] != self@[b][a],
                    forall|b: int, k: int| 0 <= b < j && 0 <= k < N && b != k && #[trigger] self@[i as int][b] is Some ==> #[trigger] self@[i as int][k] != self@[i as int][b],
                    forall|b: int, k: int| 0 <= b < j && 0 <= k < N && b != k && #[trigger] self@[b][i as int] is Some ==> #[trigger] self@[k][i as int] != self@[b][i as int],
                decreases N - j,
            {
                let mut k: usize = 0;
                while k < N
                    invariant
                        i < N,
                        j < N,
                        k <= N,
                        forall|a: int, b: int, c: int|
                            0 <= a < i && 0 <= b < N && 0 <= c < N && b != c && #[trigger] self@[a][b] is Some ==> #[trigger] self@[a][c] != self@[a][b],
                        forall|a: int, b: int, c: int|
                            0 <= a < i && 0 <= b < N && 0 <= c < N && b != c && #[trigger] self@[b][a] is Some ==> #[trigger] self@[c][a] != self@[b][a],
                        forall|b: int, c: int| 0 <= b < j && 0 <= c < N && b != c && #[trigger] self@[i as int][b] is Some ==> #[trigger] self@[i as int][c] != self@[i as int][b],
                        forall|b: int, c: int| 0 <= b < j && 0 <= c < N && b != c && #[trigger] self@[b][i as int] is Some ==> #[trigger] self@[c][i as int] != self@[b][i as int],
                        forall|c: int| 0 <= c < k && c != j && self@[i as int][j as int] is Some ==> #[trigger] self@[i as int][c] != self@[i as int][j as int],
                        forall|c: int| 0 <= c < k && c != j && self@[j as int][i as int] is Some ==> #[trigger] self@[c][i as int] != self@[j as int][i as int],
                    decreases N - k,
                {
                    if k != j {
                        if self.rows[i][j].is_some() && self.rows[i][k] == self.rows[i][j] {
                            assert(self@[i as int][j as int] is Some && self@[i as int][k as int] == self@[i as int][j as int]);
                            assert(!is_partial_latin(self@, N as nat));
                            return false;
                        }
                        if self.rows[j][i].is_some() && self.rows[k][i] == self.rows[j][i] {
                            assert(self@[j as int][i as int] is Some && self@[k as int][i as int] == self@[j as int][i as int]);
                            assert(!is_partial_latin(self@, N as nat));
                            return false;
                        }
                    }
                    k += 1;
                }
                j += 1;
            }
            i += 1;
        }
        true
    }

    /// The number of filled cells.
    pub fn num_entries(&self) -> (r: usize)
        requires
            N * N <= usize::MAX,
        ensures
            r == filled_in_rows(self@, N as int),
    {
        let mut count: usize = 0;
        let mut i: usize = 0;
        while i < N
            invariant
                i <= N,
                count == filled_in_rows(self@, i as int),
                count <= i * N,
                N * N <= usize::MAX,
            decreases N - i,
        {
            let mut in_row: usize = 0;
            let mut j: usize = 0;
            while j < N
                invariant
                    i < N,
                    j <= N,
                    in_row == filled_in_row(self@[i as int].take(j as int)),
                    in_row <= j,
                decreases N - j,
            {
                assert(self@[i as int].take(j as int + 1).drop_last() =~= self@[i as int].take(j as int));
                if self.rows[i][j].is_some() {
                    in_row += 1;
                }
                j += 1;
            }
            assert(self@[i as int].take(N as int) =~= self@[i as int]);
            proof {
                assert((i + 1) * N == i * N + N) by (nonlinear_arith);
                assert(i * N + N <= N * N) by (nonlinear_arith)
                    requires
                        i < N,
                ;
            }
            count += in_row;
            i += 1;
        }
        count
    }

    /// `self` comes before `other` in reading order, filled cells before empty ones.
    pub open spec fn precedes(&self, other: &Self) -> bool {
        partial_less(self@, other@, N as nat)
    }

    /// -1, 0 or 1 as `self` comes before, equals or comes after `other`.
    pub fn compare(&self, other: &Self) -> (r: i8)
        ensures
            r == -1 ==> self.precedes(other),
            r == 1 ==> other.precedes(self),
            r == 0 ==> self@ == other@,
            -1 <= r <= 1,
    {
        let mut i: usize = 0;
        while i < N
            invariant
                i <= N,
                agree_before(self@, other@, N as nat, i as int, 0),
            decreases N - i,
        {
            let mut j: usize = 0;
            while j < N
                invariant
                    i < N,
                    j <= N,
                    agree_before(self@, other@, N as nat, i as int, j as int),
                decreases N - j,
            {
                let a = self.rows[i][j];
                let b = other.rows[i][j];
                match (a, b) {
                    (None, None) => {},
                    (Some(_), None) => {
                        assert(entry_less(self@[i as int][j as int], other@[i as int][j as int]));
                        return -1;
                    },
                    (None, Some(_)) => {
                        assert(agree_before(other@, self@, N as nat, i as int, j as int));
                        assert(entry_less(other@[i as int][j as int], self@[i as int][j as int]));
                        return 1;
                    },
                    (Some(x), Some(y)) => {
                        if x < y {
                            assert(entry_less(self@[i as int][j as int], other@[i as int][j as int]));
                            return -1;
                        } else if y < x {
                            assert(agree_before(other@, self@, N as nat, i as int, j as int));
                            assert(entry_less(other@[i as int][j as int], self@[i as int][j as int]));
                            return 1;
                        }
                    },
                }
                j += 1;
            }
            i += 1;
        }
        assert forall|k: int| 0 <= k < N implies #[trigger] self@[k] == other@[k] by {
            assert(self@[k] =~= other@[k]);
        }
        assert(self@ =~= other@);
        0
    }
}

impl<const N: usize> PartialLatinSquare<N> {
    /// Compares the grids in reading order; filled cells come before empty ones.
    pub fn cmp_rows(&self, other: &Self) -> (r: Ordering)
        ensures
            r == Ordering::Less ==> self.precedes(other),
            r == Ordering::Greater ==> other.precedes(self),
            r == Ordering::Equal ==> self@ == other@,
    {
        let c = self.compare(other);
        if c < 0 {
            Ordering::Less
        } else if c > 0 {
            Ordering::Greater
        } else {
            Ordering::Equal
        }
    }
}


/// Why text does not describe a partial square.
#[derive(Debug, Clone, Copy, PartialEq, Eq)]
pub enum Error {
    InvalidLength { len: usize, expected: usize },
    InvalidChar { index: usize, char: char },
}

/// The grid that the characters describe, cell i * n + j from character i: a dot or a
/// missing character leaves the cell empty.
pub open spec fn partial_digit_grid(chars: Seq<char>, n: nat, radix: u32) -> Seq<Seq<Option<u8>>> {
    Seq::new(n, |i: int| Seq::new(n, |j: int|
        if i * n + j < chars.len() && chars[i * n + j] != '.' { Some(cell_value(chars[i * n + j], radix)) } else { None }))
}

impl<const N: usize> PartialLatinSquare<N> {
    /// Reads a grid written row by row as one hexadecimal digit per cell, with a dot for
    /// an empty cell.
    pub fn try_from_str(value: &str) -> (r: Result<Self, Error>)
        requires
            N * N <= usize::MAX,
        ensures
            value.spec_bytes().len() != N * N ==> r == Err::<Self, Error>(Error::InvalidLength {
                len: value.spec_bytes().len() as usize,
                expected: (N * N) as usize,
            }),
            value.spec_bytes().len() == N * N ==> match r {
                Ok(sq) => cells_before(value@, value@.len() as int, 16, N as nat)
                    && sq@ == partial_digit_grid(value@, N as nat, 16),
                Err(Error::InvalidChar { index, char }) => index < value@.len() && value@[index as int] == char
                    && char != '.' && !is_cell_digit(char, 16, N as nat)
                    && cells_before(value@, index as int, 16, N as nat),
                Err(Error::InvalidLength { .. }) => false,
            },
    {
        let len = value.as_bytes().len();
        if len != N * N {
            return Err(Error::InvalidLength { len, expected: N * N });
        }
        let chars = chars_of(value);
        proof {
            lemma_chars_fit_bytes(value@);
        }
        let mut values: [[Option<u8>; N]; N] = [[None; N]; N];
        let mut i: usize = 0;
        while i < chars.len()
            invariant
                value.spec_bytes().len() == N * N,
                i <= chars@.len() <= N * N,
                chars@ == value@,
                cells_before(chars@, i as int, 16, N as nat),
                forall|a: int, b: int| 0 <= a < N && 0 <= b < N ==> #[trigger] values@[a]@[b]
                    == if a * N + b < i && chars@[a * N + b] != '.' { Some(cell_value(chars@[a * N + b], 16)) } else { None::<u8> },
            decreases chars@.len() - i,
        {
            let c = chars[i];
            let ghost before = values;
            if c != '.' {
                match to_digit(c, 16) {
                    None => {
                        return Err(Error::InvalidChar { index: i, char: c });
                    },
                    Some(entry) => {
                        if entry as usize >= N {
                            return Err(Error::InvalidChar { index: i, char: c });
                        }
                        proof {
                            lemma_cell_of_index(i as int, N as int);
                        }
                        let r = i / N;
                        let col = i % N;
                        values[r][col] = Some(entry as u8);
                        proof {
                            assert forall|a: int, b: int| 0 <= a < N && 0 <= b < N implies #[trigger] values@[a]@[b]
                                == if a * N + b < i + 1 && chars@[a * N + b] != '.' { Some(cell_value(chars@[a * N + b], 16)) } else { None::<u8> } by {
                                lemma_index_of_cell(a, b, N as int);
                                if a == r && b == col {
                                    assert(a * N + b == i);
                                } else {
                                    assert(values@[a]@[b] == before@[a]@[b]);
                                    assert(a * N + b != i);
                                }
                            }
                        }
                    },
                }
            } else {
                proof {
                    assert forall|a: int, b: int| 0 <= a < N && 0 <= b < N implies #[trigger] values@[a]@[b]
                        == if a * N + b < i + 1 && chars@[a * N + b] != '.' { Some(cell_value(chars@[a * N + b], 16)) } else { None::<u8> } by {
                        lemma_index_of_cell(a, b, N as int);
                        if a * N + b == i {
                        }
                    }
                }
            }
            i += 1;
        }
        let sq = PartialLatinSquare { rows: values };
        proof {
            assert(sq@ =~= partial_digit_grid(value@, N as nat, 16)) by {
                assert forall|a: int| 0 <= a < N implies #[trigger] sq@[a] =~= partial_digit_grid(value@, N as nat, 16)[a] by {}
            }
        }
        Ok(sq)
    }
}

} // verus!
