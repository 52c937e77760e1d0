//! The state of a Latin square search: a partial square together with, for every row
//! and every column, the set of values it is still missing.
use vstd::prelude::*;

use crate::bitset::BitSet16;
use crate::set_util::set_min;
use crate::partial_latin_square::{PartialLatinSquare, is_partial_latin};
use crate::partial_latin_square_dyn::{PartialLatinSquareDyn, lemma_unflatten_update};
use crate::latin_square_trait::PartialLatinSquareTrait;
use crate::latin_square::{LatinSquare, grid, is_latin, lemma_grid, lemma_index_of_cell};
use crate::completion::{missing_in_row, missing_in_col, candidates, is_grid_of, entries_below, all_filled, extends, completes, filled_values, placed, lemma_place, lemma_filled_is_latin, lemma_completion_candidate, row_holds, col_holds, empty_cells, lemma_place_shrinks, lemma_empty_cells_finite, lemma_candidates_finite, lemma_missing_shrinks, lemma_hidden_single_row, lemma_hidden_single_col, lemma_extends_empty_cells, lemma_extends_trans};

verus! {

/// A candidate that is the only one of its empty cell is what every completing Latin
/// square puts there.
proof fn lemma_single_candidate_forced(s: Seq<Seq<Option<u8>>>, n: nat, i: int, j: int, v: int)
    requires
        is_grid_of(s, n),
        n <= 256,
        0 <= i < n,
        0 <= j < n,
        s[i][j] is None,
        candidates(s, n, i, j).len() == 1,
        candidates(s, n, i, j).contains(v),
    ensures
        forall|l: Seq<Seq<u8>>| is_latin(l, n) && completes(l, s, n) ==> #[trigger] l[i][j] as int == v,
{
    assert forall|l: Seq<Seq<u8>>| is_latin(l, n) && completes(l, s, n) implies #[trigger] l[i][j] as int == v by {
        lemma_completion_candidate(l, s, n, i, j);
        lemma_candidates_finite(s, n, i, j);
        let c = candidates(s, n, i, j);
        if l[i][j] as int != v {
            assert(c.remove(v).contains(l[i][j] as int));
            assert(c.remove(v).len() == 0);
        }
    }
}

/// The cells of `s` before (i, j) in reading order; the others empty.
pub open spec fn prefix_grid(s: Seq<Seq<Option<u8>>>, n: nat, i: int, j: int) -> Seq<Seq<Option<u8>>> {
    Seq::new(n, |a: int| Seq::new(n, |b: int| if a < i || (a == i && b < j) { s[a][b] } else { None }))
}

/// The first `k` cells of row 0 hold 0, 1, ..., k - 1; the others are empty.
pub open spec fn first_row_grid(n: nat, k: int) -> Seq<Seq<Option<u8>>> {
    Seq::new(n, |a: int| Seq::new(n, |b: int| if a == 0 && b < k { Some(b as u8) } else { None }))
}

/// The first `k` cells of row 0 and of column 0 hold their index; the others are empty.
pub open spec fn reduced_grid(n: nat, k: int) -> Seq<Seq<Option<u8>>> {
    Seq::new(n, |a: int| Seq::new(n, |b: int|
        if a == 0 && b < k { Some(b as u8) } else if b == 0 && a < k { Some(a as u8) } else { None }))
}

/// The number of candidates of cell (i, j).
pub open spec fn num_candidates(s: Seq<Seq<Option<u8>>>, n: nat, i: int, j: int) -> nat {
    candidates(s, n, i, j).len()
}

/// The cell the search fills next: the first empty cell of row 0, else the first empty
/// cell of column 0, else the first empty cell in reading order among those with the
/// fewest candidates.
pub open spec fn is_next_cell(s: Seq<Seq<Option<u8>>>, n: nat, i: int, j: int) -> bool {
    &&& 0 <= i < n && 0 <= j < n
    &&& s[i][j] is None
    &&& if exists|b: int| 0 <= b < n && #[trigger] s[0][b] is None {
        i == 0 && forall|b: int| 0 <= b < j ==> #[trigger] s[0][b] is Some
    } else if exists|a: int| 0 <= a < n && #[trigger] s[a][0] is None {
        j == 0 && forall|a: int| 0 <= a < i ==> #[trigger] s[a][0] is Some
    } else {
        &&& forall|a: int, b: int| 0 <= a < n && 0 <= b < n && #[trigger] s[a][b] is None
            ==> num_candidates(s, n, a, b) >= num_candidates(s, n, i, j)
        &&& forall|a: int, b: int| 0 <= a < n && 0 <= b < n && (a < i || (a == i && b < j)) && #[trigger] s[a][b] is None
            ==> num_candidates(s, n, a, b) > num_candidates(s, n, i, j)
    }
}

/// A cell of a square, by row and column.
#[derive(Clone, Copy, PartialEq, Eq, Debug)]
pub struct Cell(pub usize, pub usize);

/// A partial Latin square of order N with the values each row and each column misses.
#[derive(Clone, Copy, Debug)]
pub struct Constraints<const N: usize> {
    sq: PartialLatinSquare<N>,
    rows: [BitSet16; N],
    cols: [BitSet16; N],
}

impl<const N: usize> Constraints<N> {
    #[verifier::type_invariant]
    pub closed spec fn wf(&self) -> bool {
        &&& N <= 16
        &&& entries_below(self.sq@, N as nat)
        &&& is_partial_latin(self.sq@, N as nat)
        &&& forall|i: int| 0 <= i < N ==> #[trigger] self.rows@[i]@ == missing_in_row(self.sq@, N as nat, i)
        &&& forall|j: int| 0 <= j < N ==> #[trigger] self.cols@[j]@ == missing_in_col(self.sq@, N as nat, j)
    }

    /// The partial square.
    pub closed spec fn partial(&self) -> Seq<Seq<Option<u8>>> {
        self.sq@
    }

    pub proof fn lemma_wf(c: &Self)
        requires
            c.wf(),
        ensures
            N <= 16,
            is_grid_of(c.partial(), N as nat),
            entries_below(c.partial(), N as nat),
            is_partial_latin(c.partial(), N as nat),
    {
        c.sq.lemma_shape();
    }

    /// The empty square: every value is missing everywhere.
    pub fn new() -> (r: Self)
        requires
            N <= 16,
        ensures
            forall|i: int, j: int| 0 <= i < N && 0 <= j < N ==> #[trigger] r.partial()[i][j] is None,
    {
        let sq = PartialLatinSquare::<N>::empty();
        let all = BitSet16::all_less_than(N);
        let rows = [all; N];
        let cols = [all; N];
        proof {
            sq.lemma_shape();
            assert forall|i: int| 0 <= i < N implies #[trigger] rows@[i]@ == missing_in_row(sq@, N as nat, i) by {
                assert forall|v: int| !#[trigger] row_holds(sq@, N as nat, i, v) by {}
                assert(rows@[i]@ =~= missing_in_row(sq@, N as nat, i));
            }
            assert forall|j: int| 0 <= j < N implies #[trigger] cols@[j]@ == missing_in_col(sq@, N as nat, j) by {
                assert forall|v: int| !#[trigger] col_holds(sq@, N as nat, j, v) by {}
                assert(cols@[j]@ =~= missing_in_col(sq@, N as nat, j));
            }
        }
        Constraints { sq, rows, cols }
    }

    pub fn partial_sq(&self) -> (r: &PartialLatinSquare<N>)
        ensures
            r@ == self.partial(),
    {
        &self.sq
    }

    /// Places `value` in the empty cell (i, j).
    pub fn set(&mut self, i: usize, j: usize, value: usize)
        requires
            i < N,
            j < N,
            old(self).partial()[i as int][j as int] is None,
            candidates(old(self).partial(), N as nat, i as int, j as int).contains(value as int),
        ensures
            final(self).partial() == placed(old(self).partial(), i as int, j as int, value as int),
    {
        proof {
            use_type_invariant(&*self);
            Self::lemma_wf(self);
            lemma_place(self.sq@, N as nat, i as int, j as int, value as int);
        }
        let mut sq = self.sq;
        let mut rows = self.rows;
        let mut cols = self.cols;
        sq.set(i, j, Some(value));
        rows[i].remove(value);
        cols[j].remove(value);
        proof {
            let t = placed(self.sq@, i as int, j as int, value as int);
            assert(sq@ == t);
            assert forall|k: int| 0 <= k < N implies #[trigger] rows@[k]@ == missing_in_row(t, N as nat, k) by {
                if k != i {
                    assert(rows@[k] == self.rows@[k]);
                }
            }
            assert forall|k: int| 0 <= k < N implies #[trigger] cols@[k]@ == missing_in_col(t, N as nat, k) by {
                if k != j {
                    assert(cols@[k] == self.cols@[k]);
                }
            }
        }
        *self = Constraints { sq, rows, cols };
    }

    /// The values that cell (i, j) can still take.
    pub fn get_possibilities(&self, i: usize, j: usize) -> (r: BitSet16)
        requires
            i < N,
            j < N,
        ensures
            r@ == candidates(self.partial(), N as nat, i as int, j as int),
    {
        proof {
            use_type_invariant(self);
        }
        self.rows[i].intersect(self.cols[j])
    }

    pub fn is_set(&self, i: usize, j: usize) -> (r: bool)
        requires
            i < N,
            j < N,
        ensures
            r == self.partial()[i as int][j as int] is Some,
    {
        self.sq.get_partial(i, j).is_some()
    }

    /// Whether every cell is filled.
    pub fn is_solved(&self) -> (r: bool)
        ensures
            r == all_filled(self.partial(), N as nat),
    {
        let mut i: usize = 0;
        while i < N
            invariant
                i <= N,
                forall|a: int, b: int| 0 <= a < i && 0 <= b < N ==> #[trigger] self.partial()[a][b] is Some,
            decreases N - i,
        {
            let mut j: usize = 0;
            while j < N
                invariant
                    i < N,
                    j <= N,
                    forall|a: int, b: int| 0 <= a < i && 0 <= b < N ==> #[trigger] self.partial()[a][b] is Some,
                    forall|b: int| 0 <= b < j ==> #[trigger] self.partial()[i as int][b] is Some,
                decreases N - j,
            {
                if !self.is_set(i, j) {
                    return false;
                }
                j += 1;
            }
            i += 1;
        }
        true
    }

    /// Whether every empty cell still has a candidate.
    pub fn is_solvable(&self) -> (r: bool)
        ensures
            r == (forall|i: int, j: int| 0 <= i < N && 0 <= j < N && #[trigger] self.partial()[i][j] is None
                ==> !candidates(self.partial(), N as nat, i, j).is_empty()),
    {
        proof {
            use_type_invariant(self);
        }
        let mut i: usize = 0;
        while i < N
            invariant
                i <= N,
                forall|a: int, b: int| 0 <= a < i && 0 <= b < N && #[trigger] self.partial()[a][b] is None
                    ==> !candidates(self.partial(), N as nat, a, b).is_empty(),
            decreases N - i,
        {
            let mut j: usize = 0;
            while j < N
                invariant
                    i < N,
                    j <= N,
                    forall|a: int, b: int| 0 <= a < i && 0 <= b < N && #[trigger] self.partial()[a][b] is None
                        ==> !candidates(self.partial(), N as nat, a, b).is_empty(),
                    forall|b: int| 0 <= b < j && #[trigger] self.partial()[i as int][b] is None
                        ==> !candidates(self.partial(), N as nat, i as int, b).is_empty(),
                decreases N - j,
            {
                if !self.is_set(i, j) && self.get_possibilities(i, j).is_empty() {
                    return false;
                }
                j += 1;
            }
            i += 1;
        }
        true
    }

    /// The square with the filled cells of `sq`.
    pub fn new_partial(sq: &PartialLatinSquare<N>) -> (r: Self)
        requires
            N <= 16,
            is_partial_latin(sq@, N as nat),
            entries_below(sq@, N as nat),
        ensures
            r.partial() == sq@,
    {
        let mut constraints = Self::new();
        proof {
            sq.lemma_shape();
            use_type_invariant(&constraints);
            Self::lemma_wf(&constraints);
            assert(constraints.partial() =~= prefix_grid(sq@, N as nat, 0, 0)) by {
                assert forall|a: int| 0 <= a < N implies #[trigger] constraints.partial()[a] =~= prefix_grid(sq@, N as nat, 0, 0)[a] by {}
            }
        }
        let mut i: usize = 0;
        while i < N
            invariant
                i <= N <= 16,
                is_partial_latin(sq@, N as nat),
                entries_below(sq@, N as nat),
                is_grid_of(sq@, N as nat),
                constraints.partial() == prefix_grid(sq@, N as nat, i as int, 0),
            decreases N - i,
        {
            let mut j: usize = 0;
            while j < N
                invariant
                    i < N <= 16,
                    j <= N,
                    is_partial_latin(sq@, N as nat),
                    entries_below(sq@, N as nat),
                    is_grid_of(sq@, N as nat),
                    constraints.partial() == prefix_grid(sq@, N as nat, i as int, j as int),
                decreases N - j,
            {
                let ghost g = prefix_grid(sq@, N as nat, i as int, j as int);
                let ghost g2 = prefix_grid(sq@, N as nat, i as int, j as int + 1);
                match sq.get_partial(i, j) {
                    Some(value) => {
                        proof {
                            let v = value as int;
                            assert(sq@[i as int][j as int] == Some(v as u8));
                            assert(!row_holds(g, N as nat, i as int, v)) by {
                                if row_holds(g, N as nat, i as int, v) {
                                    let b = choose|b: int| 0 <= b < N && g[i as int][b] == Some(v as u8);
                                    assert(sq@[i as int][b] == sq@[i as int][j as int]);
                                }
                            }
                            assert(!col_holds(g, N as nat, j as int, v)) by {
                                if col_holds(g, N as nat, j as int, v) {
                                    let a = choose|a: int| 0 <= a < N && g[a][j as int] == Some(v as u8);
                                    assert(sq@[a][j as int] == sq@[i as int][j as int]);
                                }
                            }
                            assert(candidates(g, N as nat, i as int, j as int).contains(v));
                        }
                        constraints.set(i, j, value);
                        proof {
                            assert(constraints.partial() =~= g2) by {
                                assert forall|a: int| 0 <= a < N implies #[trigger] constraints.partial()[a] =~= g2[a] by {}
                            }
                        }
                    },
                    None => {
                        proof {
                            assert(g =~= g2) by {
                                assert forall|a: int| 0 <= a < N implies #[trigger] g[a] =~= g2[a] by {}
                            }
                        }
                    },
                }
                j += 1;
            }
            proof {
                assert(prefix_grid(sq@, N as nat, i as int, N as int) =~= prefix_grid(sq@, N as nat, i as int + 1, 0)) by {
                    assert forall|a: int| 0 <= a < N implies #[trigger] prefix_grid(sq@, N as nat, i as int, N as int)[a]
                        =~= prefix_grid(sq@, N as nat, i as int + 1, 0)[a] by {}
                }
            }
            i += 1;
        }
        proof {
            assert(constraints.partial() =~= sq@) by {
                assert forall|a: int| 0 <= a < N implies #[trigger] constraints.partial()[a] =~= sq@[a] by {}
            }
        }
        constraints
    }

    /// The square whose first row is 0, 1, ..., N - 1 and whose other cells are empty.
    pub fn new_first_row() -> (r: Self)
        requires
            N <= 16,
        ensures
            r.partial() == first_row_grid(N as nat, N as int),
    {
        let mut constraints = Self::new();
        proof {
            use_type_invariant(&constraints);
            Self::lemma_wf(&constraints);
            assert(constraints.partial() =~= first_row_grid(N as nat, 0)) by {
                assert forall|a: int| 0 <= a < N implies #[trigger] constraints.partial()[a] =~= first_row_grid(N as nat, 0)[a] by {}
            }
        }
        let mut i: usize = 0;
        while i < N
            invariant
                i <= N <= 16,
                constraints.partial() == first_row_grid(N as nat, i as int),
            decreases N - i,
        {
            let ghost g = first_row_grid(N as nat, i as int);
            let possibilities = constraints.get_possibilities(0, i);
            proof {
                let c = candidates(g, N as nat, 0, i as int);
                assert(!row_holds(g, N as nat, 0, i as int)) by {
                    if row_holds(g, N as nat, 0, i as int) {
                        let b = choose|b: int| 0 <= b < N && g[0][b] == Some(i as u8);
                        assert(b < i && b == i);
                    }
                }
                assert(!col_holds(g, N as nat, i as int, i as int)) by {
                    if col_holds(g, N as nat, i as int, i as int) {
                        let a = choose|a: int| 0 <= a < N && g[a][i as int] == Some(i as u8);
                    }
                }
                assert(c.contains(i as int));
                assert forall|x: int| c.contains(x) implies i <= x by {
                    if x < i {
                        assert(g[0][x] == Some(x as u8));
                        assert(row_holds(g, N as nat, 0, x));
                    }
                }
                crate::set_util::lemma_set_min_unique(c, i as int);
            }
            let mut it = possibilities.iter();
            let value = it.next();
            match value {
                Some(v) => {
                    constraints.set(0, i, v);
                },
                None => {},
            }
            proof {
                assert(constraints.partial() =~= first_row_grid(N as nat, i as int + 1)) by {
                    assert forall|a: int| 0 <= a < N implies #[trigger] constraints.partial()[a] =~= first_row_grid(N as nat, i as int + 1)[a] by {}
                }
            }
            i += 1;
        }
        constraints
    }

    /// The square whose first row and first column are 0, 1, ..., N - 1 and whose other
    /// cells are empty.
    pub fn new_reduced() -> (r: Self)
        requires
            N <= 16,
        ensures
            r.partial() == reduced_grid(N as nat, N as int),
    {
        let mut constraints = Self::new();
        proof {
            use_type_invariant(&constraints);
            Self::lemma_wf(&constraints);
            assert(constraints.partial() =~= reduced_grid(N as nat, 0)) by {
                assert forall|a: int| 0 <= a < N implies #[trigger] constraints.partial()[a] =~= reduced_grid(N as nat, 0)[a] by {}
            }
        }
        let mut i: usize = 0;
        while i < N
            invariant
                i <= N <= 16,
                constraints.partial() == reduced_grid(N as nat, i as int),
            decreases N - i,
        {
            let ghost g = reduced_grid(N as nat, i as int);
            proof {
                assert(!row_holds(g, N as nat, 0, i as int)) by {
                    if row_holds(g, N as nat, 0, i as int) {
                        let b = choose|b: int| 0 <= b < N && g[0][b] == Some(i as u8);
                    }
                }
                assert(!col_holds(g, N as nat, i as int, i as int)) by {
                    if col_holds(g, N as nat, i as int, i as int) {
                        let a = choose|a: int| 0 <= a < N && g[a][i as int] == Some(i as u8);
                    }
                }
            }
            constraints.set(0, i, i);
            let ghost h = constraints.partial();
            if i != 0 {
                proof {
                    assert(!row_holds(h, N as nat, i as int, i as int)) by {
                        if row_holds(h, N as nat, i as int, i as int) {
                            let b = choose|b: int| 0 <= b < N && h[i as int][b] == Some(i as u8);
                        }
                    }
                    assert(!col_holds(h, N as nat, 0, i as int)) by {
                        if col_holds(h, N as nat, 0, i as int) {
                            let a = choose|a: int| 0 <= a < N && h[a][0] == Some(i as u8);
                        }
                    }
                }
                constraints.set(i, 0, i);
            }
            proof {
                assert(constraints.partial() =~= reduced_grid(N as nat, i as int + 1)) by {
                    assert forall|a: int| 0 <= a < N implies #[trigger] constraints.partial()[a] =~= reduced_grid(N as nat, i as int + 1)[a] by {}
                }
            }
            i += 1;
        }
        constraints
    }

    /// The cell to fill next, or `None` when every cell is filled.
    pub fn first_empty(&self) -> (r: Option<(usize, usize)>)
        ensures
            r is None <==> all_filled(self.partial(), N as nat),
            r matches Some((i, j)) ==> is_next_cell(self.partial(), N as nat, i as int, j as int),
    {
        proof {
            use_type_invariant(self);
            Self::lemma_wf(self);
        }
        let ghost s = self.partial();
        let mut i: usize = 0;
        while i < N
            invariant
                i <= N <= 16,
                s == self.partial(),
                forall|b: int| 0 <= b < i ==> #[trigger] s[0][b] is Some,
            decreases N - i,
        {
            if !self.is_set(0, i) {
                return Some((0, i));
            }
            i += 1;
        }
        let mut i: usize = 0;
        while i < N
            invariant
                i <= N <= 16,
                s == self.partial(),
                forall|b: int| 0 <= b < N ==> #[trigger] s[0][b] is Some,
                forall|a: int| 0 <= a < i ==> #[trigger] s[a][0] is Some,
            decreases N - i,
        {
            if !self.is_set(i, 0) {
                return Some((i, 0));
            }
            i += 1;
        }
        assert(N * N <= 256) by (nonlinear_arith)
            requires
                N <= 16,
        ;
        let mut min_values: usize = N * N + 1;
        let mut index: (usize, usize) = (0, 0);
        let mut i: usize = 0;
        while i < N
            invariant
                i <= N <= 16,
                s == self.partial(),
                is_grid_of(s, N as nat),
                forall|b: int| 0 <= b < N ==> #[trigger] s[0][b] is Some,
                forall|a: int| 0 <= a < N ==> #[trigger] s[a][0] is Some,
                min_values <= N * N + 1,
                min_values == N * N + 1 <==> forall|a: int, b: int| 0 <= a < i && 0 <= b < N ==> #[trigger] s[a][b] is Some,
                min_values < N * N + 1 ==> {
                    &&& 0 <= index.0 < i && 0 <= index.1 < N
                    &&& s[index.0 as int][index.1 as int] is None
                    &&& min_values == num_candidates(s, N as nat, index.0 as int, index.1 as int)
                    &&& forall|a: int, b: int| 0 <= a < i && 0 <= b < N && #[trigger] s[a][b] is None
                        ==> num_candidates(s, N as nat, a, b) >= min_values
                    &&& forall|a: int, b: int| 0 <= a < i && 0 <= b < N && (a < index.0 || (a == index.0 && b < index.1)) && #[trigger] s[a][b] is None
                        ==> num_candidates(s, N as nat, a, b) > min_values
                },
            decreases N - i,
        {
            let mut j: usize = 0;
            while j < N
                invariant
                    i < N <= 16,
                    j <= N,
                    s == self.partial(),
                    is_grid_of(s, N as nat),
                    min_values <= N * N + 1,
                    min_values == N * N + 1 <==> (forall|a: int, b: int| 0 <= a < i && 0 <= b < N ==> #[trigger] s[a][b] is Some)
                        && (forall|b: int| 0 <= b < j ==> #[trigger] s[i as int][b] is Some),
                    min_values < N * N + 1 ==> {
                        &&& (0 <= index.0 < i && 0 <= index.1 < N) || (index.0 == i && 0 <= index.1 < j)
                        &&& s[index.0 as int][index.1 as int] is None
                        &&& min_values == num_candidates(s, N as nat, index.0 as int, index.1 as int)
                        &&& forall|a: int, b: int| ((0 <= a < i && 0 <= b < N) || (a == i && 0 <= b < j)) && #[trigger] s[a][b] is None
                            ==> num_candidates(s, N as nat, a, b) >= min_values
                        &&& forall|a: int, b: int| ((0 <= a < i && 0 <= b < N) || (a == i && 0 <= b < j))
                            && (a < index.0 || (a == index.0 && b < index.1)) && #[trigger] s[a][b] is None
                            ==> num_candidates(s, N as nat, a, b) > min_values
                    },
                decreases N - j,
            {
                if !self.is_set(i, j) {
                    let len = self.get_possibilities(i, j).len();
                    proof {
                        lemma_candidates_finite(s, N as nat, i as int, j as int);
                        assert(N * N + 1 > N) by (nonlinear_arith)
                            requires
                                N >= 1,
                        ;
                    }
                    if len < min_values {
                        min_values = len;
                        index = (i, j);
                    }
                }
                j += 1;
            }
            i += 1;
        }
        if min_values < N * N + 1 {
            proof {
                assert(!(exists|b: int| 0 <= b < N && #[trigger] s[0][b] is None));
                assert(!(exists|a: int| 0 <= a < N && #[trigger] s[a][0] is None));
            }
            Some(index)
        } else {
            None
        }
    }

    /// The first cell in reading order with at least two candidates.
    pub fn most_constrained_cell(&self) -> (r: Option<Cell>)
        ensures
            r is None ==> forall|a: int, b: int| 0 <= a < N && 0 <= b < N ==> #[trigger] num_candidates(self.partial(), N as nat, a, b) < 2,
            r matches Some(c) ==> {
                &&& c.0 < N && c.1 < N
                &&& num_candidates(self.partial(), N as nat, c.0 as int, c.1 as int) >= 2
                &&& forall|a: int, b: int| 0 <= a < N && 0 <= b < N && (a < c.0 || (a == c.0 && b < c.1))
                    ==> #[trigger] num_candidates(self.partial(), N as nat, a, b) < 2
            },
    {
        proof {
            use_type_invariant(self);
        }
        let mut i: usize = 0;
        while i < N
            invariant
                i <= N <= 16,
                forall|a: int, b: int| 0 <= a < i && 0 <= b < N ==> #[trigger] num_candidates(self.partial(), N as nat, a, b) < 2,
            decreases N - i,
        {
            let mut j: usize = 0;
            while j < N
                invariant
                    i < N <= 16,
                    j <= N,
                    forall|a: int, b: int| 0 <= a < i && 0 <= b < N ==> #[trigger] num_candidates(self.partial(), N as nat, a, b) < 2,
                    forall|b: int| 0 <= b < j ==> #[trigger] num_candidates(self.partial(), N as nat, i as int, b) < 2,
                decreases N - j,
            {
                if self.get_possibilities(i, j).len() >= 2 {
                    return Some(Cell(i, j));
                }
                j += 1;
            }
            i += 1;
        }
        None
    }

    /// Fills, again and again, every empty cell that has a single candidate, until none is left.
    pub fn find_singles(&mut self)
        ensures
            extends(final(self).partial(), old(self).partial(), N as nat),
            forall|l: Seq<Seq<u8>>| is_latin(l, N as nat) && completes(l, old(self).partial(), N as nat)
                ==> #[trigger] completes(l, final(self).partial(), N as nat),
            forall|i: int, j: int| 0 <= i < N && 0 <= j < N && #[trigger] final(self).partial()[i][j] is None
                ==> candidates(final(self).partial(), N as nat, i, j).len() != 1,
    {
        let ghost start = self.partial();
        proof {
            use_type_invariant(&*self);
            Self::lemma_wf(self);
            lemma_empty_cells_finite(self.partial(), N as nat);
        }
        loop
            invariant
                N <= 16,
                is_grid_of(self.partial(), N as nat),
                extends(self.partial(), start, N as nat),
                forall|l: Seq<Seq<u8>>| is_latin(l, N as nat) && completes(l, start, N as nat)
                    ==> #[trigger] completes(l, self.partial(), N as nat),
                empty_cells(self.partial(), N as nat).finite(),
            ensures
                extends(self.partial(), start, N as nat),
                forall|l: Seq<Seq<u8>>| is_latin(l, N as nat) && completes(l, start, N as nat)
                    ==> #[trigger] completes(l, self.partial(), N as nat),
                forall|i: int, j: int| 0 <= i < N && 0 <= j < N && #[trigger] self.partial()[i][j] is None
                    ==> candidates(self.partial(), N as nat, i, j).len() != 1,
            decreases empty_cells(self.partial(), N as nat).len(),
        {
            let ghost pass_start = self.partial();
            let mut changed = false;
            let mut i: usize = 0;
            while i < N
                invariant
                    i <= N <= 16,
                    is_grid_of(self.partial(), N as nat),
                    extends(self.partial(), start, N as nat),
                    forall|l: Seq<Seq<u8>>| is_latin(l, N as nat) && completes(l, start, N as nat)
                        ==> #[trigger] completes(l, self.partial(), N as nat),
                    empty_cells(self.partial(), N as nat).finite(),
                    changed ==> empty_cells(self.partial(), N as nat).len() < empty_cells(pass_start, N as nat).len(),
                    !changed ==> self.partial() == pass_start,
                    !changed ==> forall|a: int, b: int| 0 <= a < i && 0 <= b < N && #[trigger] self.partial()[a][b] is None
                        ==> candidates(self.partial(), N as nat, a, b).len() != 1,
                decreases N - i,
            {
                let mut j: usize = 0;
                while j < N
                    invariant
                        i < N <= 16,
                        j <= N,
                        is_grid_of(self.partial(), N as nat),
                        extends(self.partial(), start, N as nat),
                        forall|l: Seq<Seq<u8>>| is_latin(l, N as nat) && completes(l, start, N as nat)
                            ==> #[trigger] completes(l, self.partial(), N as nat),
                        empty_cells(self.partial(), N as nat).finite(),
                        changed ==> empty_cells(self.partial(), N as nat).len() < empty_cells(pass_start, N as nat).len(),
                        !changed ==> self.partial() == pass_start,
                        !changed ==> forall|a: int, b: int| 0 <= a < i && 0 <= b < N && #[trigger] self.partial()[a][b] is None
                            ==> candidates(self.partial(), N as nat, a, b).len() != 1,
                        !changed ==> forall|b: int| 0 <= b < j && #[trigger] self.partial()[i as int][b] is None
                            ==> candidates(self.partial(), N as nat, i as int, b).len() != 1,
                    decreases N - j,
                {
                    if !self.is_set(i, j) {
                        let possibilities = self.get_possibilities(i, j);
                        if possibilities.is_single() {
                            let mut it = possibilities.iter();
                            let value = it.next();
                            match value {
                                Some(v) => {
                                    proof {
                                        use_type_invariant(&*self);
                                        Self::lemma_wf(self);
                                        possibilities.lemma_view();
                                        let m = set_min(possibilities@);
                                        assert(possibilities@.contains(m));
                                        assert(v as int == m);
                                        lemma_single_candidate_forced(self.partial(), N as nat, i as int, j as int, v as int);
                                        lemma_place_shrinks(self.partial(), N as nat, i as int, j as int, v as int);
                                        lemma_place(self.partial(), N as nat, i as int, j as int, v as int);
                                    }
                                    let ghost before = self.partial();
                                    self.set(i, j, v);
                                    proof {
                                        use_type_invariant(&*self);
                                        Self::lemma_wf(self);
                                        assert forall|a: int, b: int| 0 <= a < N && 0 <= b < N && #[trigger] start[a][b] is Some
                                            implies self.partial()[a][b] == start[a][b] by {
                                            assert(before[a][b] == start[a][b]);
                                        }
                                    }
                                    changed = true;
                                },
                                None => {},
                            }
                        }
                    }
                    j += 1;
                }
                i += 1;
            }
            if !changed {
                break;
            }
        }
    }

    /// The square, once every cell is filled.
    pub fn into_latin_square(self) -> (r: LatinSquare<N>)
        requires
            all_filled(self.partial(), N as nat),
        ensures
            r@ == filled_values(self.partial(), N as nat),
            completes(r@, self.partial(), N as nat),
    {
        proof {
            use_type_invariant(&self);
            Self::lemma_wf(&self);
            lemma_filled_is_latin(self.sq@, N as nat);
        }
        let mut values = [[0u8; N]; N];
        let mut i: usize = 0;
        while i < N
            invariant
                i <= N <= 16,
                all_filled(self.partial(), N as nat),
                is_grid_of(self.partial(), N as nat),
                entries_below(self.partial(), N as nat),
                forall|a: int, b: int| 0 <= a < i && 0 <= b < N ==> Some(#[trigger] values@[a]@[b]) == self.partial()[a][b],
            decreases N - i,
        {
            let mut row = [0u8; N];
            let mut j: usize = 0;
            while j < N
                invariant
                    i < N <= 16,
                    j <= N,
                    all_filled(self.partial(), N as nat),
                    is_grid_of(self.partial(), N as nat),
                    entries_below(self.partial(), N as nat),
                    forall|b: int| 0 <= b < j ==> Some(#[trigger] row@[b]) == self.partial()[i as int][b],
                decreases N - j,
            {
                assert(self.partial()[i as int][j as int] is Some);
                let v = self.sq.get_partial(i, j);
                match v {
                    Some(x) => {
                        row[j] = x as u8;
                    },
                    None => {},
                }
                j += 1;
            }
            values[i] = row;
            i += 1;
        }
        proof {
            lemma_grid(values);
            assert(grid(values) =~= filled_values(self.partial(), N as nat)) by {
                assert forall|a: int| 0 <= a < N implies #[trigger] grid(values)[a] =~= filled_values(self.partial(), N as nat)[a] by {}
            }
        }
        LatinSquare::new(values)
    }
}

/// No two of the first `upto` columns both miss `v`.
pub open spec fn at_most_one_col(s: Seq<Seq<Option<u8>>>, n: nat, v: int, upto: int) -> bool {
    forall|a: int, b: int| 0 <= a < b < upto ==> !(#[trigger] missing_in_col(s, n, a).contains(v) && #[trigger] missing_in_col(s, n, b).contains(v))
}

/// No two of the first `upto` rows both miss `v`.
pub open spec fn at_most_one_row(s: Seq<Seq<Option<u8>>>, n: nat, v: int, upto: int) -> bool {
    forall|a: int, b: int| 0 <= a < b < upto ==> !(#[trigger] missing_in_row(s, n, a).contains(v) && #[trigger] missing_in_row(s, n, b).contains(v))
}

/// The values missed by one of the first `upto` columns.
pub open spec fn missed_by_some_col(s: Seq<Seq<Option<u8>>>, n: nat, upto: int) -> Set<int> {
    Set::new(|v: int| exists|a: int| 0 <= a < upto && #[trigger] missing_in_col(s, n, a).contains(v))
}

/// The values missed by one of the first `upto` rows.
pub open spec fn missed_by_some_row(s: Seq<Seq<Option<u8>>>, n: nat, upto: int) -> Set<int> {
    Set::new(|v: int| exists|a: int| 0 <= a < upto && #[trigger] missing_in_row(s, n, a).contains(v))
}

/// A partial Latin square of order n, chosen at run time, with the values each row and
/// each column misses.
#[derive(Debug)]
pub struct ConstraintsDyn {
    sq: PartialLatinSquareDyn,
    rows: Vec<BitSet16>,
    cols: Vec<BitSet16>,
}

impl Clone for ConstraintsDyn {
    fn clone(&self) -> (r: Self)
        ensures
            r.order() == self.order(),
            r.partial() == self.partial(),
    {
        proof {
            use_type_invariant(self);
        }
        let sq = self.sq.clone();
        let rows = self.rows.clone();
        let cols = self.cols.clone();
        proof {
            use_type_invariant(&sq);
            assert(rows@ =~= self.rows@);
            assert(cols@ =~= self.cols@);
        }
        ConstraintsDyn { sq, rows, cols }
    }
}

impl ConstraintsDyn {
    #[verifier::type_invariant]
    pub closed spec fn wf(&self) -> bool {
        &&& self.sq.order() <= 16
        &&& self.sq.has_n_squared_cells()
        &&& self.rows@.len() == self.sq.order()
        &&& self.cols@.len() == self.sq.order()
        &&& entries_below(self.sq.grid(), self.sq.order())
        &&& is_partial_latin(self.sq.grid(), self.sq.order())
        &&& forall|i: int| 0 <= i < self.sq.order() ==> #[trigger] self.rows@[i]@ == missing_in_row(self.sq.grid(), self.sq.order(), i)
        &&& forall|j: int| 0 <= j < self.sq.order() ==> #[trigger] self.cols@[j]@ == missing_in_col(self.sq.grid(), self.sq.order(), j)
    }

    /// The order.
    pub closed spec fn order(&self) -> nat {
        self.sq.order()
    }

    /// The partial square.
    pub closed spec fn partial(&self) -> Seq<Seq<Option<u8>>> {
        self.sq.grid()
    }

    pub proof fn lemma_wf(c: &Self)
        requires
            c.wf(),
        ensures
            c.order() <= 16,
            is_grid_of(c.partial(), c.order()),
            entries_below(c.partial(), c.order()),
            is_partial_latin(c.partial(), c.order()),
    {
        PartialLatinSquareDyn::lemma_shape(&c.sq);
    }

    /// The empty square of order n: every value is missing everywhere.
    pub fn new(n: usize) -> (r: Self)
        requires
            n <= 16,
        ensures
            r.order() == n,
            forall|i: int, j: int| 0 <= i < n && 0 <= j < n ==> #[trigger] r.partial()[i][j] is None,
    {
        assert(n * n <= 256) by (nonlinear_arith)
            requires
                n <= 16,
        ;
        let sq = PartialLatinSquareDyn::empty(n);
        let all = BitSet16::all_less_than(n);
        let mut rows: Vec<BitSet16> = Vec::new();
        let mut cols: Vec<BitSet16> = Vec::new();
        let mut k: usize = 0;
        while k < n
            invariant
                k <= n <= 16,
                rows@.len() == k,
                cols@.len() == k,
                forall|m: int| 0 <= m < k ==> #[trigger] rows@[m] == all,
                forall|m: int| 0 <= m < k ==> #[trigger] cols@[m] == all,
            decreases n - k,
        {
            rows.push(all);
            cols.push(all);
            k += 1;
        }
        proof {
            use_type_invariant(&sq);
            PartialLatinSquareDyn::lemma_shape(&sq);
            lemma_index_of_cell_all(n as nat);
            assert forall|i: int, j: int| 0 <= i < n && 0 <= j < n implies #[trigger] sq.grid()[i][j] is None by {
                lemma_index_of_cell(i, j, n as int);
            }
            assert forall|i: int| 0 <= i < n implies #[trigger] rows@[i]@ == missing_in_row(sq.grid(), n as nat, i) by {
                assert forall|v: int| !#[trigger] row_holds(sq.grid(), n as nat, i, v) by {}
                assert(rows@[i]@ =~= missing_in_row(sq.grid(), n as nat, i));
            }
            assert forall|j: int| 0 <= j < n implies #[trigger] cols@[j]@ == missing_in_col(sq.grid(), n as nat, j) by {
                assert forall|v: int| !#[trigger] col_holds(sq.grid(), n as nat, j, v) by {}
                assert(cols@[j]@ =~= missing_in_col(sq.grid(), n as nat, j));
            }
        }
        ConstraintsDyn { sq, rows, cols }
    }

    pub fn partial_sq(&self) -> (r: &PartialLatinSquareDyn)
        ensures
            r.order() == self.order(),
            r.grid() == self.partial(),
    {
        &self.sq
    }

    /// Places `value` in the empty cell (i, j).
    pub fn set(&mut self, i: usize, j: usize, value: usize)
        requires
            i < old(self).order(),
            j < old(self).order(),
            old(self).partial()[i as int][j as int] is None,
            candidates(old(self).partial(), old(self).order(), i as int, j as int).contains(value as int),
        ensures
            final(self).order() == old(self).order(),
            final(self).partial() == placed(old(self).partial(), i as int, j as int, value as int),
    {
        proof {
            use_type_invariant(&*self);
            Self::lemma_wf(self);
            lemma_place(self.partial(), self.order(), i as int, j as int, value as int);
        }
        let ghost g = self.partial();
        let ghost n = self.order();
        let placeholder = PartialLatinSquareDyn::empty(0);
        proof {
            use_type_invariant(&placeholder);
        }
        let mut taken = ConstraintsDyn { sq: placeholder, rows: Vec::new(), cols: Vec::new() };
        std::mem::swap(&mut taken, self);
        let ConstraintsDyn { mut sq, mut rows, mut cols } = taken;
        proof {
            use_type_invariant(&sq);
            PartialLatinSquareDyn::lemma_shape(&sq);
        }
        let ghost old_flat = sq.flat();
        sq.set(i, j, Some(value));
        proof {
            lemma_unflatten_update(old_flat, n, i as int, j as int, Some(value as u8));
        }
        let mut r = rows[i];
        r.remove(value);
        rows.set(i, r);
        let mut c = cols[j];
        c.remove(value);
        cols.set(j, c);
        proof {
            use_type_invariant(&sq);
            let t = placed(g, i as int, j as int, value as int);
            assert(sq.grid() == t);
            assert forall|k: int| 0 <= k < n implies #[trigger] rows@[k]@ == missing_in_row(t, n, k) by {}
            assert forall|k: int| 0 <= k < n implies #[trigger] cols@[k]@ == missing_in_col(t, n, k) by {}
        }
        *self = ConstraintsDyn { sq, rows, cols };
    }

    /// The values that cell (i, j) can still take.
    pub fn get_possibilities(&self, i: usize, j: usize) -> (r: BitSet16)
        requires
            i < self.order(),
            j < self.order(),
        ensures
            r@ == candidates(self.partial(), self.order(), i as int, j as int),
    {
        proof {
            use_type_invariant(self);
        }
        self.rows[i].intersect(self.cols[j])
    }

    pub fn is_set(&self, i: usize, j: usize) -> (r: bool)
        requires
            i < self.order(),
            j < self.order(),
        ensures
            r == self.partial()[i as int][j as int] is Some,
    {
        proof {
            use_type_invariant(self);
        }
        self.sq.get_partial(i, j).is_some()
    }

    /// The order.
    pub fn n(&self) -> (r: usize)
        ensures
            r == self.order(),
    {
        self.sq.n()
    }

    /// Fills, again and again, every empty cell that has a single candidate and every
    /// value that a row or a column can put in only one place, until there is none left.
    pub fn find_singles(&mut self)
        ensures
            final(self).order() == old(self).order(),
            extends(final(self).partial(), old(self).partial(), old(self).order()),
            forall|l: Seq<Seq<u8>>| is_latin(l, old(self).order()) && completes(l, old(self).partial(), old(self).order())
                ==> #[trigger] completes(l, final(self).partial(), old(self).order()),
            forall|i: int, j: int| 0 <= i < old(self).order() && 0 <= j < old(self).order() && #[trigger] final(self).partial()[i][j] is None
                ==> candidates(final(self).partial(), old(self).order(), i, j).len() != 1,
    {
        let ghost start = self.partial();
        let n = self.n();
        proof {
            use_type_invariant(&*self);
            Self::lemma_wf(self);
            lemma_empty_cells_finite(self.partial(), n as nat);
        }
        loop
            invariant
                n <= 16,
                n == self.order(),
                old(self).order() == n,
                old(self).partial() == start,
                is_grid_of(self.partial(), n as nat),
                extends(self.partial(), start, n as nat),
                forall|l: Seq<Seq<u8>>| is_latin(l, n as nat) && completes(l, start, n as nat)
                    ==> #[trigger] completes(l, self.partial(), n as nat),
                empty_cells(self.partial(), n as nat).finite(),
            ensures
                extends(self.partial(), start, n as nat),
                forall|l: Seq<Seq<u8>>| is_latin(l, n as nat) && completes(l, start, n as nat)
                    ==> #[trigger] completes(l, self.partial(), n as nat),
                forall|i: int, j: int| 0 <= i < n && 0 <= j < n && #[trigger] self.partial()[i][j] is None
                    ==> candidates(self.partial(), n as nat, i, j).len() != 1,
            decreases empty_cells(self.partial(), n as nat).len(),
        {
            let ghost pass_start = self.partial();
            let mut changed = false;
            let mut i: usize = 0;
            while i < n
                invariant
                    i <= n <= 16,
                    n == self.order(),
                    is_grid_of(self.partial(), n as nat),
                    extends(self.partial(), start, n as nat),
                    forall|l: Seq<Seq<u8>>| is_latin(l, n as nat) && completes(l, start, n as nat)
                        ==> #[trigger] completes(l, self.partial(), n as nat),
                    empty_cells(self.partial(), n as nat).finite(),
                    changed ==> empty_cells(self.partial(), n as nat).len() < empty_cells(pass_start, n as nat).len(),
                    !changed ==> self.partial() == pass_start,
                    !changed ==> forall|a: int, b: int| 0 <= a < i && 0 <= b < n && #[trigger] self.partial()[a][b] is None
                        ==> candidates(self.partial(), n as nat, a, b).len() != 1,
                decreases n - i,
            {
                let mut j: usize = 0;
                while j < n
                    invariant
                        i < n <= 16,
                        n == self.order(),
                        j <= n,
                        is_grid_of(self.partial(), n as nat),
                        extends(self.partial(), start, n as nat),
                        forall|l: Seq<Seq<u8>>| is_latin(l, n as nat) && completes(l, start, n as nat)
                            ==> #[trigger] completes(l, self.partial(), n as nat),
                        empty_cells(self.partial(), n as nat).finite(),
                        changed ==> empty_cells(self.partial(), n as nat).len() < empty_cells(pass_start, n as nat).len(),
                        !changed ==> self.partial() == pass_start,
                        !changed ==> forall|a: int, b: int| 0 <= a < i && 0 <= b < n && #[trigger] self.partial()[a][b] is None
                            ==> candidates(self.partial(), n as nat, a, b).len() != 1,
                        !changed ==> forall|b: int| 0 <= b < j && #[trigger] self.partial()[i as int][b] is None
                            ==> candidates(self.partial(), n as nat, i as int, b).len() != 1,
                    decreases n - j,
                {
                    if !self.is_set(i, j) {
                        let possibilities = self.get_possibilities(i, j);
                        if possibilities.is_single() {
                            let mut it = possibilities.iter();
                            let value = it.next();
                            match value {
                                Some(v) => {
                                    proof {
                                        use_type_invariant(&*self);
                                        Self::lemma_wf(self);
                                        possibilities.lemma_view();
                                        let m = set_min(possibilities@);
                                        assert(possibilities@.contains(m));
                                        assert(v as int == m);
                                        lemma_single_candidate_forced(self.partial(), n as nat, i as int, j as int, v as int);
                                        lemma_place_shrinks(self.partial(), n as nat, i as int, j as int, v as int);
                                        lemma_place(self.partial(), n as nat, i as int, j as int, v as int);
                                    }
                                    let ghost before = self.partial();
                                    self.set(i, j, v);
                                    proof {
                                        use_type_invariant(&*self);
                                        Self::lemma_wf(self);
                                        assert forall|a: int, b: int| 0 <= a < n && 0 <= b < n && #[trigger] start[a][b] is Some
                                            implies self.partial()[a][b] == start[a][b] by {
                                            assert(before[a][b] == start[a][b]);
                                        }
                                    }
                                    changed = true;
                                },
                                None => {},
                            }
                        }
                    }
                    j += 1;
                }
                i += 1;
            }
            let ghost after_naked = self.partial();
            let mut i: usize = 0;
            while i < n
                invariant
                    i <= n <= 16,
                    n == self.order(),
                    is_grid_of(self.partial(), n as nat),
                    extends(self.partial(), start, n as nat),
                    forall|l: Seq<Seq<u8>>| is_latin(l, n as nat) && completes(l, start, n as nat)
                        ==> #[trigger] completes(l, self.partial(), n as nat),
                    empty_cells(self.partial(), n as nat).finite(),
                    changed ==> empty_cells(self.partial(), n as nat).len() < empty_cells(pass_start, n as nat).len(),
                    !changed ==> self.partial() == pass_start,
                    !changed ==> forall|a: int, b: int| 0 <= a < n && 0 <= b < n && #[trigger] self.partial()[a][b] is None
                        ==> candidates(self.partial(), n as nat, a, b).len() != 1,
                decreases n - i,
            {
                proof {
                    use_type_invariant(&*self);
                    Self::lemma_wf(self);
                    lemma_empty_cells_finite(pass_start, n as nat);
                }
                if !self.rows[i].is_empty() {
                    let ghost before = self.partial();
                    let row_changed = self.hidden_in_row(i);
                    proof {
                        use_type_invariant(&*self);
                        Self::lemma_wf(self);
                        lemma_extends_trans(self.partial(), before, start, n as nat);
                    }
                    if row_changed {
                        changed = true;
                    }
                    if !self.cols[i].is_empty() {
                        let ghost before2 = self.partial();
                        let col_changed = self.hidden_in_col(i);
                        proof {
                            use_type_invariant(&*self);
                            Self::lemma_wf(self);
                            lemma_extends_trans(self.partial(), before2, start, n as nat);
                        }
                        if col_changed {
                            changed = true;
                        }
                    }
                }
                i += 1;
            }
            if !changed {
                break;
            }
        }
    }

    /// Places every value that row i misses and that only one column can take.
    fn hidden_in_row(&mut self, i: usize) -> (changed: bool)
        requires
            i < old(self).order(),
        ensures
            final(self).order() == old(self).order(),
            extends(final(self).partial(), old(self).partial(), old(self).order()),
            forall|l: Seq<Seq<u8>>| is_latin(l, old(self).order()) && completes(l, old(self).partial(), old(self).order())
                ==> #[trigger] completes(l, final(self).partial(), old(self).order()),
            empty_cells(final(self).partial(), old(self).order()).finite(),
            changed ==> empty_cells(final(self).partial(), old(self).order()).len() < empty_cells(old(self).partial(), old(self).order()).len(),
            !changed ==> final(self).partial() == old(self).partial(),
    {
        proof {
            use_type_invariant(&*self);
            Self::lemma_wf(self);
            lemma_empty_cells_finite(self.partial(), self.order());
        }
        let n = self.n();
        let ghost g0 = self.partial();
        let mut candidates = self.rows[i];
        let mut found = BitSet16::empty();
        proof {
            assert(candidates@ =~= Set::new(|v: int| missing_in_row(g0, n as nat, i as int).contains(v) && at_most_one_col(g0, n as nat, v, 0)));
            assert(found@ =~= missed_by_some_col(g0, n as nat, 0));
        }
        let mut j: usize = 0;
        while j < n
            invariant
                j <= n <= 16,
                i < n,
                n == self.order(),
                g0 == self.partial(),
                candidates@ == Set::new(|v: int| missing_in_row(g0, n as nat, i as int).contains(v) && at_most_one_col(g0, n as nat, v, j as int)),
                found@ == missed_by_some_col(g0, n as nat, j as int),
            decreases n - j,
        {
            proof {
                use_type_invariant(&*self);
            }
            let col = self.cols[j];
            let ghost c = candidates@;
            candidates = candidates.intersect(found.intersect(col).complement());
            found = found.union(col);
            proof {
                assert(col@ == missing_in_col(g0, n as nat, j as int));
                assert forall|v: int| #[trigger] candidates@.contains(v) == (missing_in_row(g0, n as nat, i as int).contains(v) && at_most_one_col(g0, n as nat, v, j as int + 1)) by {
                    if missing_in_row(g0, n as nat, i as int).contains(v) {
                        assert(0 <= v < 16);
                        if at_most_one_col(g0, n as nat, v, j as int) && !(missed_by_some_col(g0, n as nat, j as int).contains(v) && col@.contains(v)) {
                            assert forall|a: int, b: int| 0 <= a < b < j + 1 implies !(#[trigger] missing_in_col(g0, n as nat, a).contains(v) && #[trigger] missing_in_col(g0, n as nat, b).contains(v)) by {
                                if b == j && missing_in_col(g0, n as nat, a).contains(v) {
                                    assert(missed_by_some_col(g0, n as nat, j as int).contains(v));
                                }
                            }
                        }
                        if at_most_one_col(g0, n as nat, v, j as int + 1) {
                            if missed_by_some_col(g0, n as nat, j as int).contains(v) && col@.contains(v) {
                                let a = choose|a: int| 0 <= a < j && #[trigger] missing_in_col(g0, n as nat, a).contains(v);
                                assert(!(missing_in_col(g0, n as nat, a).contains(v) && missing_in_col(g0, n as nat, j as int).contains(v)));
                            }
                        }
                    }
                }
                assert(candidates@ =~= Set::new(|v: int| missing_in_row(g0, n as nat, i as int).contains(v) && at_most_one_col(g0, n as nat, v, j as int + 1)));
                assert forall|v: int| #[trigger] found@.contains(v) == missed_by_some_col(g0, n as nat, j as int + 1).contains(v) by {
                    if missed_by_some_col(g0, n as nat, j as int + 1).contains(v) {
                        let a = choose|a: int| 0 <= a < j + 1 && #[trigger] missing_in_col(g0, n as nat, a).contains(v);
                        if a < j {
                            assert(missed_by_some_col(g0, n as nat, j as int).contains(v));
                        }
                    }
                }
                assert(found@ =~= missed_by_some_col(g0, n as nat, j as int + 1));
            }
            j += 1;
        }
        let mut changed = false;
        let mut it = candidates.iter();
        proof {
            candidates.lemma_view();
        }
        loop
            invariant
                n <= 16,
                i < n,
                n == self.order(),
                is_grid_of(g0, n as nat),
                extends(self.partial(), g0, n as nat),
                forall|l: Seq<Seq<u8>>| is_latin(l, n as nat) && completes(l, g0, n as nat) ==> #[trigger] completes(l, self.partial(), n as nat),
                it@.subset_of(candidates@),
                it@.finite(),
                forall|x: int| 0 <= x < 16 || !it@.contains(x),
                candidates@ == Set::new(|v: int| missing_in_row(g0, n as nat, i as int).contains(v) && at_most_one_col(g0, n as nat, v, n as int)),
                found@ == missed_by_some_col(g0, n as nat, n as int),
                forall|x: int| it@.contains(x) ==> #[trigger] missing_in_row(self.partial(), n as nat, i as int).contains(x),
                empty_cells(self.partial(), n as nat).finite(),
                empty_cells(g0, n as nat).finite(),
                changed ==> empty_cells(self.partial(), n as nat).len() < empty_cells(g0, n as nat).len(),
                !changed ==> self.partial() == g0,
            decreases it@.len(),
        {
            let ghost before_it = it@;
            let next = it.next();
            match next {
                None => {
                    break;
                },
                Some(value) => {
                    proof {
                        assert(before_it.contains(value as int));
                        assert(missing_in_row(self.partial(), n as nat, i as int).contains(value as int));
                        assert(it@ == before_it.remove(value as int));
                    }
                    let mut j: usize = 0;
                    let mut done = false;
                    while j < n && !done
                        invariant
                            j <= n <= 16,
                            i < n,
                            n == self.order(),
                            is_grid_of(g0, n as nat),
                            extends(self.partial(), g0, n as nat),
                            forall|l: Seq<Seq<u8>>| is_latin(l, n as nat) && completes(l, g0, n as nat) ==> #[trigger] completes(l, self.partial(), n as nat),
                            candidates@.contains(value as int),
                            !it@.contains(value as int),
                            candidates@ == Set::new(|v: int| missing_in_row(g0, n as nat, i as int).contains(v) && at_most_one_col(g0, n as nat, v, n as int)),
                            found@ == missed_by_some_col(g0, n as nat, n as int),
                            !done ==> missing_in_row(self.partial(), n as nat, i as int).contains(value as int),
                            forall|x: int| it@.contains(x) ==> #[trigger] missing_in_row(self.partial(), n as nat, i as int).contains(x),
                            empty_cells(self.partial(), n as nat).finite(),
                            empty_cells(g0, n as nat).finite(),
                            changed ==> empty_cells(self.partial(), n as nat).len() < empty_cells(g0, n as nat).len(),
                            !changed ==> self.partial() == g0,
                        decreases n - j + (if done { 0int } else { 1int }),
                    {
                        proof {
                            use_type_invariant(&*self);
                            Self::lemma_wf(self);
                        }
                        if !self.is_set(i, j) && self.cols[j].intersect(found).contains(value) {
                            let ghost cur = self.partial();
                            proof {
                                lemma_missing_shrinks(cur, g0, n as nat);
                                assert(missing_in_col(cur, n as nat, j as int).contains(value as int));
                                assert(missing_in_col(g0, n as nat, j as int).contains(value as int));
                                assert(at_most_one_col(g0, n as nat, value as int, n as int));
                                assert forall|k: int| 0 <= k < n && k != j && #[trigger] cur[i as int][k] is None
                                    implies !missing_in_col(cur, n as nat, k).contains(value as int) by {
                                    if missing_in_col(cur, n as nat, k).contains(value as int) {
                                        assert(missing_in_col(g0, n as nat, k).contains(value as int));
                                        if k < j {
                                            assert(!(missing_in_col(g0, n as nat, k).contains(value as int) && missing_in_col(g0, n as nat, j as int).contains(value as int)));
                                        } else {
                                            assert(!(missing_in_col(g0, n as nat, j as int).contains(value as int) && missing_in_col(g0, n as nat, k).contains(value as int)));
                                        }
                                    }
                                }
                                lemma_hidden_single_row(cur, n as nat, i as int, j as int, value as int);
                                lemma_place(cur, n as nat, i as int, j as int, value as int);
                                lemma_place_shrinks(cur, n as nat, i as int, j as int, value as int);
                                lemma_extends_empty_cells(cur, g0, n as nat);
                            }
                            self.set(i, j, value);
                            proof {
                                assert forall|a: int, b: int| 0 <= a < n && 0 <= b < n && #[trigger] g0[a][b] is Some
                                    implies self.partial()[a][b] == g0[a][b] by {
                                    assert(cur[a][b] == g0[a][b]);
                                }
                                assert forall|x: int| it@.contains(x) implies #[trigger] missing_in_row(self.partial(), n as nat, i as int).contains(x) by {
                                    assert(missing_in_row(cur, n as nat, i as int).contains(x));
                                    assert(x != value);
                                }
                            }
                            changed = true;
                            done = true;
                        } else {
                            j += 1;
                        }
                    }
                },
            }
        }
        changed
    }

    /// Places every value that column i misses and that only one row can take.
    fn hidden_in_col(&mut self, i: usize) -> (changed: bool)
        requires
            i < old(self).order(),
        ensures
            final(self).order() == old(self).order(),
            extends(final(self).partial(), old(self).partial(), old(self).order()),
            forall|l: Seq<Seq<u8>>| is_latin(l, old(self).order()) && completes(l, old(self).partial(), old(self).order())
                ==> #[trigger] completes(l, final(self).partial(), old(self).order()),
            empty_cells(final(self).partial(), old(self).order()).finite(),
            changed ==> empty_cells(final(self).partial(), old(self).order()).len() < empty_cells(old(self).partial(), old(self).order()).len(),
            !changed ==> final(self).partial() == old(self).partial(),
    {
        proof {
            use_type_invariant(&*self);
            Self::lemma_wf(self);
            lemma_empty_cells_finite(self.partial(), self.order());
        }
        let n = self.n();
        let ghost g0 = self.partial();
        let mut candidates = self.cols[i];
        let mut found = BitSet16::empty();
        proof {
            assert(candidates@ =~= Set::new(|v: int| missing_in_col(g0, n as nat, i as int).contains(v) && at_most_one_row(g0, n as nat, v, 0)));
            assert(found@ =~= missed_by_some_row(g0, n as nat, 0));
        }
        let mut j: usize = 0;
        while j < n
            invariant
                j <= n <= 16,
                i < n,
                n == self.order(),
                g0 == self.partial(),
                candidates@ == Set::new(|v: int| missing_in_col(g0, n as nat, i as int).contains(v) && at_most_one_row(g0, n as nat, v, j as int)),
                found@ == missed_by_some_row(g0, n as nat, j as int),
            decreases n - j,
        {
            proof {
                use_type_invariant(&*self);
            }
            let row = self.rows[j];
            candidates = candidates.intersect(found.intersect(row).complement());
            found = found.union(row);
            proof {
                assert(row@ == missing_in_row(g0, n as nat, j as int));
                assert forall|v: int| #[trigger] candidates@.contains(v) == (missing_in_col(g0, n as nat, i as int).contains(v) && at_most_one_row(g0, n as nat, v, j as int + 1)) by {
                    if missing_in_col(g0, n as nat, i as int).contains(v) {
                        assert(0 <= v < 16);
                        if at_most_one_row(g0, n as nat, v, j as int) && !(missed_by_some_row(g0, n as nat, j as int).contains(v) && row@.contains(v)) {
                            assert forall|a: int, b: int| 0 <= a < b < j + 1 implies !(#[trigger] missing_in_row(g0, n as nat, a).contains(v) && #[trigger] missing_in_row(g0, n as nat, b).contains(v)) by {
                                if b == j && missing_in_row(g0, n as nat, a).contains(v) {
                                    assert(missed_by_some_row(g0, n as nat, j as int).contains(v));
                                }
                            }
                        }
                        if at_most_one_row(g0, n as nat, v, j as int + 1) {
                            if missed_by_some_row(g0, n as nat, j as int).contains(v) && row@.contains(v) {
                                let a = choose|a: int| 0 <= a < j && #[trigger] missing_in_row(g0, n as nat, a).contains(v);
                                assert(!(missing_in_row(g0, n as nat, a).contains(v) && missing_in_row(g0, n as nat, j as int).contains(v)));
                            }
                        }
                    }
                }
                assert(candidates@ =~= Set::new(|v: int| missing_in_col(g0, n as nat, i as int).contains(v) && at_most_one_row(g0, n as nat, v, j as int + 1)));
                assert forall|v: int| #[trigger] found@.contains(v) == missed_by_some_row(g0, n as nat, j as int + 1).contains(v) by {
                    if missed_by_some_row(g0, n as nat, j as int + 1).contains(v) {
                        let a = choose|a: int| 0 <= a < j + 1 && #[trigger] missing_in_row(g0, n as nat, a).contains(v);
                        if a < j {
                            assert(missed_by_some_row(g0, n as nat, j as int).contains(v));
                        }
                    }
                }
                assert(found@ =~= missed_by_some_row(g0, n as nat, j as int + 1));
            }
            j += 1;
        }
        let mut changed = false;
        let mut it = candidates.iter();
        proof {
            candidates.lemma_view();
        }
        loop
            invariant
                n <= 16,
                i < n,
                n == self.order(),
                is_grid_of(g0, n as nat),
                extends(self.partial(), g0, n as nat),
                forall|l: Seq<Seq<u8>>| is_latin(l, n as nat) && completes(l, g0, n as nat) ==> #[trigger] completes(l, self.partial(), n as nat),
                it@.subset_of(candidates@),
                it@.finite(),
                forall|x: int| 0 <= x < 16 || !it@.contains(x),
                candidates@ == Set::new(|v: int| missing_in_col(g0, n as nat, i as int).contains(v) && at_most_one_row(g0, n as nat, v, n as int)),
                found@ == missed_by_some_row(g0, n as nat, n as int),
                forall|x: int| it@.contains(x) ==> #[trigger] missing_in_col(self.partial(), n as nat, i as int).contains(x),
                empty_cells(self.partial(), n as nat).finite(),
                empty_cells(g0, n as nat).finite(),
                changed ==> empty_cells(self.partial(), n as nat).len() < empty_cells(g0, n as nat).len(),
                !changed ==> self.partial() == g0,
            decreases it@.len(),
        {
            let ghost before_it = it@;
            let next = it.next();
            match next {
                None => {
                    break;
                },
                Some(value) => {
                    proof {
                        assert(before_it.contains(value as int));
                        assert(missing_in_col(self.partial(), n as nat, i as int).contains(value as int));
                        assert(it@ == before_it.remove(value as int));
                    }
                    let mut j: usize = 0;
                    let mut done = false;
                    while j < n && !done
                        invariant
                            j <= n <= 16,
                            i < n,
                            n == self.order(),
                            is_grid_of(g0, n as nat),
                            extends(self.partial(), g0, n as nat),
                            forall|l: Seq<Seq<u8>>| is_latin(l, n as nat) && completes(l, g0, n as nat) ==> #[trigger] completes(l, self.partial(), n as nat),
                            candidates@.contains(value as int),
                            !it@.contains(value as int),
                            candidates@ == Set::new(|v: int| missing_in_col(g0, n as nat, i as int).contains(v) && at_most_one_row(g0, n as nat, v, n as int)),
                            found@ == missed_by_some_row(g0, n as nat, n as int),
                            !done ==> missing_in_col(self.partial(), n as nat, i as int).contains(value as int),
                            forall|x: int| it@.contains(x) ==> #[trigger] missing_in_col(self.partial(), n as nat, i as int).contains(x),
                            empty_cells(self.partial(), n as nat).finite(),
                            empty_cells(g0, n as nat).finite(),
                            changed ==> empty_cells(self.partial(), n as nat).len() < empty_cells(g0, n as nat).len(),
                            !changed ==> self.partial() == g0,
                        decreases n - j + (if done { 0int } else { 1int }),
                    {
                        proof {
                            use_type_invariant(&*self);
                            Self::lemma_wf(self);
                        }
                        if !self.is_set(j, i) && self.rows[j].intersect(found).contains(value) {
                            let ghost cur = self.partial();
                            proof {
                                lemma_missing_shrinks(cur, g0, n as nat);
                                assert(missing_in_row(cur, n as nat, j as int).contains(value as int));
                                assert(missing_in_row(g0, n as nat, j as int).contains(value as int));
                                assert(at_most_one_row(g0, n as nat, value as int, n as int));
                                assert forall|k: int| 0 <= k < n && k != j && #[trigger] cur[k][i as int] is None
                                    implies !missing_in_row(cur, n as nat, k).contains(value as int) by {
                                    if missing_in_row(cur, n as nat, k).contains(value as int) {
                                        assert(missing_in_row(g0, n as nat, k).contains(value as int));
                                        if k < j {
                                            assert(!(missing_in_row(g0, n as nat, k).contains(value as int) && missing_in_row(g0, n as nat, j as int).contains(value as int)));
                                        } else {
                                            assert(!(missing_in_row(g0, n as nat, j as int).contains(value as int) && missing_in_row(g0, n as nat, k).contains(value as int)));
                                        }
                                    }
                                }
                                lemma_hidden_single_col(cur, n as nat, j as int, i as int, value as int);
                                lemma_place(cur, n as nat, j as int, i as int, value as int);
                                lemma_place_shrinks(cur, n as nat, j as int, i as int, value as int);
                                lemma_extends_empty_cells(cur, g0, n as nat);
                            }
                            self.set(j, i, value);
                            proof {
                                assert forall|a: int, b: int| 0 <= a < n && 0 <= b < n && #[trigger] g0[a][b] is Some
                                    implies self.partial()[a][b] == g0[a][b] by {
                                    assert(cur[a][b] == g0[a][b]);
                                }
                                assert forall|x: int| it@.contains(x) implies #[trigger] missing_in_col(self.partial(), n as nat, i as int).contains(x) by {
                                    assert(missing_in_col(cur, n as nat, i as int).contains(x));
                                    assert(x != value);
                                }
                            }
                            changed = true;
                            done = true;
                        } else {
                            j += 1;
                        }
                    }
                },
            }
        }
        changed
    }

    /// Whether every cell is filled.
    pub fn is_solved(&self) -> (r: bool)
        ensures
            r == all_filled(self.partial(), self.order()),
    {
        let n = self.n();
        let mut i: usize = 0;
        while i < n
            invariant
                i <= n,
                n == self.order(),
                forall|a: int, b: int| 0 <= a < i && 0 <= b < n ==> #[trigger] self.partial()[a][b] is Some,
            decreases n - i,
        {
            let mut j: usize = 0;
            while j < n
                invariant
                    i < n,
                    j <= n,
                    n == self.order(),
                    forall|a: int, b: int| 0 <= a < i && 0 <= b < n ==> #[trigger] self.partial()[a][b] is Some,
                    forall|b: int| 0 <= b < j ==> #[trigger] self.partial()[i as int][b] is Some,
                decreases n - j,
            {
                if !self.is_set(i, j) {
                    return false;
                }
                j += 1;
            }
            i += 1;
        }
        true
    }

    /// Whether every empty cell still has a candidate.
    pub fn is_solvable(&self) -> (r: bool)
        ensures
            r == (forall|i: int, j: int| 0 <= i < self.order() && 0 <= j < self.order() && #[trigger] self.partial()[i][j] is None
                ==> !candidates(self.partial(), self.order(), i, j).is_empty()),
    {
        proof {
            use_type_invariant(self);
        }
        let n = self.n();
        let mut i: usize = 0;
        while i < n
            invariant
                i <= n,
                n == self.order(),
                forall|a: int, b: int| 0 <= a < i && 0 <= b < n && #[trigger] self.partial()[a][b] is None
                    ==> !candidates(self.partial(), n as nat, a, b).is_empty(),
            decreases n - i,
        {
            let mut j: usize = 0;
            while j < n
                invariant
                    i < n,
                    j <= n,
                    n == self.order(),
                    forall|a: int, b: int| 0 <= a < i && 0 <= b < n && #[trigger] self.partial()[a][b] is None
                        ==> !candidates(self.partial(), n as nat, a, b).is_empty(),
                    forall|b: int| 0 <= b < j && #[trigger] self.partial()[i as int][b] is None
                        ==> !candidates(self.partial(), n as nat, i as int, b).is_empty(),
                decreases n - j,
            {
                if !self.is_set(i, j) && self.get_possibilities(i, j).is_empty() {
                    return false;
                }
                j += 1;
            }
            i += 1;
        }
        true
    }
    /// The cell to fill next, or `None` when every cell is filled.
    pub fn first_empty(&self) -> (r: Option<(usize, usize)>)
        ensures
            r is None <==> all_filled(self.partial(), self.order()),
            r matches Some((i, j)) ==> is_next_cell(self.partial(), self.order(), i as int, j as int),
    {
        proof {
            use_type_invariant(self);
            Self::lemma_wf(self);
        }
        let n = self.n();
        let ghost s = self.partial();
        let mut i: usize = 0;
        while i < n
            invariant
                i <= n <= 16,
                s == self.partial(),
                n == self.order(),
                forall|b: int| 0 <= b < i ==> #[trigger] s[0][b] is Some,
            decreases n - i,
        {
            if !self.is_set(0, i) {
                return Some((0, i));
            }
            i += 1;
        }
        let mut i: usize = 0;
        while i < n
            invariant
                i <= n <= 16,
                s == self.partial(),
                n == self.order(),
                forall|b: int| 0 <= b < n ==> #[trigger] s[0][b] is Some,
                forall|a: int| 0 <= a < i ==> #[trigger] s[a][0] is Some,
            decreases n - i,
        {
            if !self.is_set(i, 0) {
                return Some((i, 0));
            }
            i += 1;
        }
        assert(n * n <= 256) by (nonlinear_arith)
            requires
                n <= 16,
        ;
        let mut min_values: usize = n * n + 1;
        let mut index: (usize, usize) = (0, 0);
        let mut i: usize = 0;
        while i < n
            invariant
                i <= n <= 16,
                s == self.partial(),
                n == self.order(),
                is_grid_of(s, n as nat),
                forall|b: int| 0 <= b < n ==> #[trigger] s[0][b] is Some,
                forall|a: int| 0 <= a < n ==> #[trigger] s[a][0] is Some,
                min_values <= n * n + 1,
                min_values == n * n + 1 <==> forall|a: int, b: int| 0 <= a < i && 0 <= b < n ==> #[trigger] s[a][b] is Some,
                min_values < n * n + 1 ==> {
                    &&& 0 <= index.0 < i && 0 <= index.1 < n
                    &&& s[index.0 as int][index.1 as int] is None
                    &&& min_values == num_candidates(s, n as nat, index.0 as int, index.1 as int)
                    &&& forall|a: int, b: int| 0 <= a < i && 0 <= b < n && #[trigger] s[a][b] is None
                        ==> num_candidates(s, n as nat, a, b) >= min_values
                    &&& forall|a: int, b: int| 0 <= a < i && 0 <= b < n && (a < index.0 || (a == index.0 && b < index.1)) && #[trigger] s[a][b] is None
                        ==> num_candidates(s, n as nat, a, b) > min_values
                },
            decreases n - i,
        {
            let mut j: usize = 0;
            while j < n
                invariant
                    i < n <= 16,
                    j <= n,
                    s == self.partial(),
                n == self.order(),
                    is_grid_of(s, n as nat),
                    min_values <= n * n + 1,
                    min_values == n * n + 1 <==> (forall|a: int, b: int| 0 <= a < i && 0 <= b < n ==> #[trigger] s[a][b] is Some)
                        && (forall|b: int| 0 <= b < j ==> #[trigger] s[i as int][b] is Some),
                    min_values < n * n + 1 ==> {
                        &&& (0 <= index.0 < i && 0 <= index.1 < n) || (index.0 == i && 0 <= index.1 < j)
                        &&& s[index.0 as int][index.1 as int] is None
                        &&& min_values == num_candidates(s, n as nat, index.0 as int, index.1 as int)
                        &&& forall|a: int, b: int| ((0 <= a < i && 0 <= b < n) || (a == i && 0 <= b < j)) && #[trigger] s[a][b] is None
                            ==> num_candidates(s, n as nat, a, b) >= min_values
                        &&& forall|a: int, b: int| ((0 <= a < i && 0 <= b < n) || (a == i && 0 <= b < j))
                            && (a < index.0 || (a == index.0 && b < index.1)) && #[trigger] s[a][b] is None
                            ==> num_candidates(s, n as nat, a, b) > min_values
                    },
                decreases n - j,
            {
                if !self.is_set(i, j) {
                    let len = self.get_possibilities(i, j).len();
                    proof {
                        lemma_candidates_finite(s, n as nat, i as int, j as int);
                        assert(n * n + 1 > n) by (nonlinear_arith)
                            requires
                                n >= 1,
                        ;
                    }
                    if len < min_values {
                        min_values = len;
                        index = (i, j);
                    }
                }
                j += 1;
            }
            i += 1;
        }
        if min_values < n * n + 1 {
            proof {
                assert(!(exists|b: int| 0 <= b < n && #[trigger] s[0][b] is None));
                assert(!(exists|a: int| 0 <= a < n && #[trigger] s[a][0] is None));
            }
            Some(index)
        } else {
            None
        }
    }

    /// The square with the filled cells of `sq`.
    pub fn new_partial(sq: &PartialLatinSquareDyn) -> (r: Self)
        requires
            sq.order() <= 16,
            is_partial_latin(sq.grid(), sq.order()),
            entries_below(sq.grid(), sq.order()),
        ensures
            r.order() == sq.order(),
            r.partial() == sq.grid(),
    {
        let n = sq.n();
        let mut constraints = Self::new(n);
        proof {
            use_type_invariant(sq);
            PartialLatinSquareDyn::lemma_shape(sq);
            use_type_invariant(&constraints);
            Self::lemma_wf(&constraints);
            assert(constraints.partial() =~= prefix_grid(sq.grid(), n as nat, 0, 0)) by {
                assert forall|a: int| 0 <= a < n implies #[trigger] constraints.partial()[a] =~= prefix_grid(sq.grid(), n as nat, 0, 0)[a] by {}
            }
        }
        let mut i: usize = 0;
        while i < n
            invariant
                i <= n <= 16,
                is_partial_latin(sq.grid(), n as nat),
                entries_below(sq.grid(), n as nat),
                is_grid_of(sq.grid(), n as nat),
                constraints.order() == n,
                sq.order() == n,
                constraints.order() == n,
                sq.order() == n,
                constraints.partial() == prefix_grid(sq.grid(), n as nat, i as int, 0),
            decreases n - i,
        {
            let mut j: usize = 0;
            while j < n
                invariant
                    i < n <= 16,
                    j <= n,
                    is_partial_latin(sq.grid(), n as nat),
                    entries_below(sq.grid(), n as nat),
                    is_grid_of(sq.grid(), n as nat),
                constraints.order() == n,
                sq.order() == n,
                    constraints.order() == n,
                    sq.order() == n,
                    constraints.partial() == prefix_grid(sq.grid(), n as nat, i as int, j as int),
                decreases n - j,
            {
                let ghost g = prefix_grid(sq.grid(), n as nat, i as int, j as int);
                let ghost g2 = prefix_grid(sq.grid(), n as nat, i as int, j as int + 1);
                match sq.get_partial(i, j) {
                    Some(value) => {
                        proof {
                            let v = value as int;
                            assert(sq.grid()[i as int][j as int] == Some(v as u8));
                            assert(!row_holds(g, n as nat, i as int, v)) by {
                                if row_holds(g, n as nat, i as int, v) {
                                    let b = choose|b: int| 0 <= b < n && g[i as int][b] == Some(v as u8);
                                    assert(sq.grid()[i as int][b] == sq.grid()[i as int][j as int]);
                                }
                            }
                            assert(!col_holds(g, n as nat, j as int, v)) by {
                                if col_holds(g, n as nat, j as int, v) {
                                    let a = choose|a: int| 0 <= a < n && g[a][j as int] == Some(v as u8);
                                    assert(sq.grid()[a][j as int] == sq.grid()[i as int][j as int]);
                                }
                            }
                            assert(candidates(g, n as nat, i as int, j as int).contains(v));
                        }
                        constraints.set(i, j, value);
                        proof {
                            assert(constraints.partial() =~= g2) by {
                                assert forall|a: int| 0 <= a < n implies #[trigger] constraints.partial()[a] =~= g2[a] by {}
                            }
                        }
                    },
                    None => {
                        proof {
                            assert(g =~= g2) by {
                                assert forall|a: int| 0 <= a < n implies #[trigger] g[a] =~= g2[a] by {}
                            }
                        }
                    },
                }
                j += 1;
            }
            proof {
                assert(prefix_grid(sq.grid(), n as nat, i as int, n as int) =~= prefix_grid(sq.grid(), n as nat, i as int + 1, 0)) by {
                    assert forall|a: int| 0 <= a < n implies #[trigger] prefix_grid(sq.grid(), n as nat, i as int, n as int)[a]
                        =~= prefix_grid(sq.grid(), n as nat, i as int + 1, 0)[a] by {}
                }
            }
            i += 1;
        }
        proof {
            assert(constraints.partial() =~= sq.grid()) by {
                assert forall|a: int| 0 <= a < n implies #[trigger] constraints.partial()[a] =~= sq.grid()[a] by {}
            }
        }
        constraints
    }
}

/// Every reading-order index of an n x n grid stands for one cell.
proof fn lemma_index_of_cell_all(n: nat)
    ensures
        forall|i: int, j: int| 0 <= i < n && 0 <= j < n ==> 0 <= #[trigger] (i * n + j) < n * n,
{
    assert forall|i: int, j: int| 0 <= i < n && 0 <= j < n implies 0 <= #[trigger] (i * n + j) < n * n by {
        lemma_index_of_cell(i, j, n as int);
    }
}

} // verus!
