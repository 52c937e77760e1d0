//! Partial grids and the Latin squares that complete them.
use vstd::prelude::*;
use crate::set_util::{is_perm, usize_seq_set, lemma_perm_surjective};
use crate::partial_latin_square::is_partial_latin;
use crate::latin_square::{is_latin, row_has, col_has, seq_has, lemma_full_row_distinct, lemma_cell_of_index, lemma_index_of_cell};
use crate::set_util::lemma_subset_range_finite;

verus! {

/// Row `i` of the partial grid holds `v`.
pub open spec fn row_holds(s: Seq<Seq<Option<u8>>>, n: nat, i: int, v: int) -> bool {
    exists|j: int| 0 <= j < n && s[i][j] == Some(v as u8)
}

/// Column `j` of the partial grid holds `v`.
pub open spec fn col_holds(s: Seq<Seq<Option<u8>>>, n: nat, j: int, v: int) -> bool {
    exists|i: int| 0 <= i < n && s[i][j] == Some(v as u8)
}

/// The values below n that row `i` does not hold.
pub open spec fn missing_in_row(s: Seq<Seq<Option<u8>>>, n: nat, i: int) -> Set<int> {
    Set::new(|v: int| 0 <= v < n && !row_holds(s, n, i, v))
}

/// The values below n that column `j` does not hold.
pub open spec fn missing_in_col(s: Seq<Seq<Option<u8>>>, n: nat, j: int) -> Set<int> {
    Set::new(|v: int| 0 <= v < n && !col_holds(s, n, j, v))
}

/// The values that the empty cell (i, j) can still take.
pub open spec fn candidates(s: Seq<Seq<Option<u8>>>, n: nat, i: int, j: int) -> Set<int> {
    missing_in_row(s, n, i).intersect(missing_in_col(s, n, j))
}

/// `s` is an n x n grid.
pub open spec fn is_grid_of(s: Seq<Seq<Option<u8>>>, n: nat) -> bool {
    &&& s.len() == n
    &&& forall|i: int| 0 <= i < n ==> #[trigger] s[i].len() == n
}

/// Every filled cell holds a value below n.
pub open spec fn entries_below(s: Seq<Seq<Option<u8>>>, n: nat) -> bool {
    forall|i: int, j: int| 0 <= i < n && 0 <= j < n && #[trigger] s[i][j] is Some ==> s[i][j]->0 < n
}

/// Every cell is filled.
pub open spec fn all_filled(s: Seq<Seq<Option<u8>>>, n: nat) -> bool {
    forall|i: int, j: int| 0 <= i < n && 0 <= j < n ==> #[trigger] s[i][j] is Some
}

/// `t` keeps every filled cell of `s`.
pub open spec fn extends(t: Seq<Seq<Option<u8>>>, s: Seq<Seq<Option<u8>>>, n: nat) -> bool {
    forall|i: int, j: int| 0 <= i < n && 0 <= j < n && #[trigger] s[i][j] is Some ==> t[i][j] == s[i][j]
}

/// The square `l` agrees with every filled cell of `s`.
pub open spec fn completes(l: Seq<Seq<u8>>, s: Seq<Seq<Option<u8>>>, n: nat) -> bool {
    forall|i: int, j: int| 0 <= i < n && 0 <= j < n && #[trigger] s[i][j] is Some ==> s[i][j] == Some(l[i][j])
}

/// The values of a grid whose cells are all filled.
pub open spec fn filled_values(s: Seq<Seq<Option<u8>>>, n: nat) -> Seq<Seq<u8>> {
    Seq::new(n, |i: int| Seq::new(n, |j: int| s[i][j]->0))
}

/// The rows and the columns of a Latin square hold no value twice.
pub proof fn lemma_latin_distinct(l: Seq<Seq<u8>>, n: nat)
    requires
        is_latin(l, n),
    ensures
        forall|i: int, j: int, k: int| 0 <= i < n && 0 <= j < n && 0 <= k < n && j != k ==> #[trigger] l[i][j] != #[trigger] l[i][k],
        forall|i: int, j: int, k: int| 0 <= i < n && 0 <= j < n && 0 <= k < n && j != k ==> #[trigger] l[j][i] != #[trigger] l[k][i],
{
    assert forall|i: int, j: int, k: int| 0 <= i < n && 0 <= j < n && 0 <= k < n && j != k implies #[trigger] l[i][j] != #[trigger] l[i][k] by {
        assert forall|v: int| 0 <= v < n implies #[trigger] seq_has(l[i], v) by {
            assert(row_has(l, i, v));
        }
        assert forall|c: int| 0 <= c < n implies #[trigger] l[i][c] < n by {}
        lemma_full_row_distinct(l[i], n);
    }
    assert forall|i: int, j: int, k: int| 0 <= i < n && 0 <= j < n && 0 <= k < n && j != k implies #[trigger] l[j][i] != #[trigger] l[k][i] by {
        let col = Seq::new(n, |r: int| l[r][i]);
        assert forall|v: int| 0 <= v < n implies #[trigger] seq_has(col, v) by {
            assert(col_has(l, i, v));
            let r = choose|r: int| 0 <= r < l.len() && l[r][i] as int == v;
            assert(col[r] as int == v);
        }
        assert forall|c: int| 0 <= c < n implies #[trigger] col[c] < n by {}
        lemma_full_row_distinct(col, n);
        assert(col[j] != col[k]);
    }
}

/// A completely filled grid with values below n and no value twice in a row or a
/// column is a Latin square.
pub proof fn lemma_filled_is_latin(s: Seq<Seq<Option<u8>>>, n: nat)
    requires
        is_grid_of(s, n),
        all_filled(s, n),
        entries_below(s, n),
        is_partial_latin(s, n),
        n <= 256,
    ensures
        is_latin(filled_values(s, n), n),
        completes(filled_values(s, n), s, n),
{
    let l = filled_values(s, n);
    assert forall|i: int, j: int| 0 <= i < n && 0 <= j < n implies #[trigger] l[i][j] < n by {
        assert(s[i][j] is Some);
    }
    assert forall|i: int, v: int| 0 <= i < n && 0 <= v < n implies #[trigger] row_has(l, i, v) by {
        let t = Seq::new(n, |j: int| l[i][j] as usize);
        assert forall|a: int, b: int| 0 <= a < n && 0 <= b < n && a != b implies #[trigger] t[a] != #[trigger] t[b] by {
            assert(s[i][a] is Some);
            assert(s[i][b] != s[i][a]);
        }
        assert(is_perm(t, n));
        lemma_perm_surjective(t, n);
        assert(usize_seq_set(t).contains(v));
        let j = choose|k: int| 0 <= k < t.len() && t[k] as int == v;
        assert(l[i][j] as int == v);
    }
    assert forall|j: int, v: int| 0 <= j < n && 0 <= v < n implies #[trigger] col_has(l, j, v) by {
        let t = Seq::new(n, |i: int| l[i][j] as usize);
        assert forall|a: int, b: int| 0 <= a < n && 0 <= b < n && a != b implies #[trigger] t[a] != #[trigger] t[b] by {
            assert(s[a][j] is Some);
            assert(s[b][j] != s[a][j]);
        }
        assert(is_perm(t, n));
        lemma_perm_surjective(t, n);
        assert(usize_seq_set(t).contains(v));
        let i = choose|k: int| 0 <= k < t.len() && t[k] as int == v;
        assert(l[i][j] as int == v);
    }
    assert forall|i: int, j: int| 0 <= i < n && 0 <= j < n && #[trigger] s[i][j] is Some implies s[i][j] == Some(l[i][j]) by {}
}

/// Filling more cells leaves each row and each column missing fewer values.
pub proof fn lemma_missing_shrinks(t: Seq<Seq<Option<u8>>>, s: Seq<Seq<Option<u8>>>, n: nat)
    requires
        extends(t, s, n),
    ensures
        forall|i: int| 0 <= i < n ==> #[trigger] missing_in_row(t, n, i).subset_of(missing_in_row(s, n, i)),
        forall|j: int| 0 <= j < n ==> #[trigger] missing_in_col(t, n, j).subset_of(missing_in_col(s, n, j)),
{
    assert forall|i: int| 0 <= i < n implies #[trigger] missing_in_row(t, n, i).subset_of(missing_in_row(s, n, i)) by {
        assert forall|v: int| missing_in_row(t, n, i).contains(v) implies missing_in_row(s, n, i).contains(v) by {
            if row_holds(s, n, i, v) {
                let k = choose|k: int| 0 <= k < n && s[i][k] == Some(v as u8);
                assert(t[i][k] == s[i][k]);
            }
        }
    }
    assert forall|j: int| 0 <= j < n implies #[trigger] missing_in_col(t, n, j).subset_of(missing_in_col(s, n, j)) by {
        assert forall|v: int| missing_in_col(t, n, j).contains(v) implies missing_in_col(s, n, j).contains(v) by {
            if col_holds(s, n, j, v) {
                let k = choose|k: int| 0 <= k < n && s[k][j] == Some(v as u8);
                assert(t[k][j] == s[k][j]);
            }
        }
    }
}

/// A value missing in row i that no other empty cell of the row can take goes into
/// cell (i, j) in every completing square.
pub proof fn lemma_hidden_single_row(s: Seq<Seq<Option<u8>>>, n: nat, i: int, j: int, v: int)
    requires
        is_grid_of(s, n),
        n <= 256,
        0 <= i < n,
        0 <= j < n,
        missing_in_row(s, n, i).contains(v),
        forall|k: int| 0 <= k < n && k != j && #[trigger] s[i][k] is None ==> !missing_in_col(s, n, k).contains(v),
    ensures
        forall|l: Seq<Seq<u8>>| is_latin(l, n) && completes(l, s, n) ==> #[trigger] l[i][j] as int == v,
{
    assert forall|l: Seq<Seq<u8>>| is_latin(l, n) && completes(l, s, n) implies #[trigger] l[i][j] as int == v by {
        lemma_latin_distinct(l, n);
        assert(row_has(l, i, v));
        let k = choose|k: int| 0 <= k < l[i].len() && l[i][k] as int == v;
        if s[i][k] is Some {
            assert(s[i][k] == Some(l[i][k]));
            assert(row_holds(s, n, i, v));
        }
        if col_holds(s, n, k, v) {
            let a = choose|a: int| 0 <= a < n && s[a][k] == Some(v as u8);
            assert(s[a][k] == Some(l[a][k]));
            assert(l[a][k] == l[i][k]);
            assert(a == i);
        }
        assert(missing_in_col(s, n, k).contains(v));
        assert(k == j);
    }
}

/// A value missing in column j that no other empty cell of the column can take goes
/// into cell (i, j) in every completing square.
pub proof fn lemma_hidden_single_col(s: Seq<Seq<Option<u8>>>, n: nat, i: int, j: int, v: int)
    requires
        is_grid_of(s, n),
        n <= 256,
        0 <= i < n,
        0 <= j < n,
        missing_in_col(s, n, j).contains(v),
        forall|k: int| 0 <= k < n && k != i && #[trigger] s[k][j] is None ==> !missing_in_row(s, n, k).contains(v),
    ensures
        forall|l: Seq<Seq<u8>>| is_latin(l, n) && completes(l, s, n) ==> #[trigger] l[i][j] as int == v,
{
    assert forall|l: Seq<Seq<u8>>| is_latin(l, n) && completes(l, s, n) implies #[trigger] l[i][j] as int == v by {
        lemma_latin_distinct(l, n);
        assert(col_has(l, j, v));
        let k = choose|k: int| 0 <= k < l.len() && l[k][j] as int == v;
        if s[k][j] is Some {
            assert(s[k][j] == Some(l[k][j]));
            assert(col_holds(s, n, j, v));
        }
        if row_holds(s, n, k, v) {
            let b = choose|b: int| 0 <= b < n && s[k][b] == Some(v as u8);
            assert(s[k][b] == Some(l[k][b]));
            assert(l[k][b] == l[k][j]);
            assert(b == j);
        }
        assert(missing_in_row(s, n, k).contains(v));
        assert(k == i);
    }
}

/// Emptying a cell keeps a partial Latin square one.
pub proof fn lemma_unplace(s: Seq<Seq<Option<u8>>>, n: nat, i: int, j: int)
    requires
        is_grid_of(s, n),
        entries_below(s, n),
        is_partial_latin(s, n),
        0 <= i < n,
        0 <= j < n,
    ensures
        is_grid_of(s.update(i, s[i].update(j, None)), n),
        entries_below(s.update(i, s[i].update(j, None)), n),
        is_partial_latin(s.update(i, s[i].update(j, None)), n),
{
    let t = s.update(i, s[i].update(j, None));
    assert forall|a: int| 0 <= a < n implies #[trigger] t[a].len() == n by {}
    assert forall|a: int, b: int| 0 <= a < n && 0 <= b < n && #[trigger] t[a][b] is Some implies t[a][b]->0 < n by {
        assert(t[a][b] == s[a][b]);
    }
    assert forall|a: int, b: int, c: int|
        0 <= a < n && 0 <= b < n && 0 <= c < n && b != c && #[trigger] t[a][b] is Some implies #[trigger] t[a][c] != t[a][b] by {
        assert(t[a][b] == s[a][b]);
        if !(a == i && c == j) {
            assert(t[a][c] == s[a][c]);
        }
    }
    assert forall|a: int, b: int, c: int|
        0 <= a < n && 0 <= b < n && 0 <= c < n && b != c && #[trigger] t[b][a] is Some implies #[trigger] t[c][a] != t[b][a] by {
        assert(t[b][a] == s[b][a]);
        if !(c == i && a == j) {
            assert(t[c][a] == s[c][a]);
        }
    }
}

/// A completely filled partial Latin square leaves no candidate to any cell.
pub proof fn lemma_filled_no_candidates(s: Seq<Seq<Option<u8>>>, n: nat, i: int, j: int)
    requires
        is_grid_of(s, n),
        all_filled(s, n),
        entries_below(s, n),
        is_partial_latin(s, n),
        n <= 256,
        0 <= i < n,
    ensures
        candidates(s, n, i, j) == Set::<int>::empty(),
{
    lemma_filled_is_latin(s, n);
    let l = filled_values(s, n);
    assert forall|v: int| !#[trigger] candidates(s, n, i, j).contains(v) by {
        if 0 <= v < n {
            assert(row_has(l, i, v));
            let k = choose|k: int| 0 <= k < l[i].len() && l[i][k] as int == v;
            assert(s[i][k] is Some);
            assert(s[i][k] == Some(v as u8));
            assert(row_holds(s, n, i, v));
        }
    }
    assert(candidates(s, n, i, j) =~= Set::<int>::empty());
}

/// A value that a completing square puts in an empty cell is a candidate of that cell.
pub proof fn lemma_completion_candidate(l: Seq<Seq<u8>>, s: Seq<Seq<Option<u8>>>, n: nat, i: int, j: int)
    requires
        is_latin(l, n),
        completes(l, s, n),
        is_grid_of(s, n),
        0 <= i < n,
        0 <= j < n,
        s[i][j] is None,
        n <= 256,
    ensures
        candidates(s, n, i, j).contains(l[i][j] as int),
{
    lemma_latin_distinct(l, n);
    let v = l[i][j] as int;
    assert(l[i][j] < n);
    if row_holds(s, n, i, v) {
        let k = choose|k: int| 0 <= k < n && s[i][k] == Some(v as u8);
        assert(s[i][k] == Some(l[i][k]));
        assert(k != j);
        assert(l[i][k] != l[i][j]);
    }
    if col_holds(s, n, j, v) {
        let k = choose|k: int| 0 <= k < n && s[k][j] == Some(v as u8);
        assert(s[k][j] == Some(l[k][j]));
        assert(k != i);
        assert(l[k][j] != l[i][j]);
    }
}

/// `s` with value `v` placed in cell (i, j).
pub open spec fn placed(s: Seq<Seq<Option<u8>>>, i: int, j: int, v: int) -> Seq<Seq<Option<u8>>> {
    s.update(i, s[i].update(j, Some(v as u8)))
}

/// Placing a candidate in an empty cell keeps the grid a partial Latin square and takes
/// the value out of the missing values of its row and its column.
pub proof fn lemma_place(s: Seq<Seq<Option<u8>>>, n: nat, i: int, j: int, v: int)
    requires
        is_grid_of(s, n),
        entries_below(s, n),
        is_partial_latin(s, n),
        n <= 256,
        0 <= i < n,
        0 <= j < n,
        s[i][j] is None,
        candidates(s, n, i, j).contains(v),
    ensures
        is_grid_of(placed(s, i, j, v), n),
        entries_below(placed(s, i, j, v), n),
        is_partial_latin(placed(s, i, j, v), n),
        extends(placed(s, i, j, v), s, n),
        missing_in_row(placed(s, i, j, v), n, i) == missing_in_row(s, n, i).remove(v),
        missing_in_col(placed(s, i, j, v), n, j) == missing_in_col(s, n, j).remove(v),
        forall|k: int| 0 <= k < n && k != i ==> #[trigger] missing_in_row(placed(s, i, j, v), n, k) == missing_in_row(s, n, k),
        forall|k: int| 0 <= k < n && k != j ==> #[trigger] missing_in_col(placed(s, i, j, v), n, k) == missing_in_col(s, n, k),
        forall|l: Seq<Seq<u8>>| completes(l, s, n) && l[i][j] as int == v ==> #[trigger] completes(l, placed(s, i, j, v), n),
{
    let t = placed(s, i, j, v);
    let e = Some(v as u8);
    assert(!row_holds(s, n, i, v));
    assert(!col_holds(s, n, j, v));
    assert forall|a: int| 0 <= a < n implies #[trigger] t[a].len() == n by {}
    assert forall|a: int, b: int| 0 <= a < n && 0 <= b < n && #[trigger] t[a][b] is Some implies t[a][b]->0 < n by {
        if a != i || b != j {
            assert(t[a][b] == s[a][b]);
        }
    }
    assert forall|a: int, b: int, c: int|
        0 <= a < n && 0 <= b < n && 0 <= c < n && b != c && #[trigger] t[a][b] is Some implies #[trigger] t[a][c] != t[a][b] by {
        if a == i && b == j {
            if t[a][c] == e {
                assert(s[i][c] == Some(v as u8));
            }
        } else if a == i && c == j {
            if t[a][b] == e {
                assert(s[i][b] == Some(v as u8));
            }
        } else {
            assert(t[a][b] == s[a][b] && t[a][c] == s[a][c]);
        }
    }
    assert forall|a: int, b: int, c: int|
        0 <= a < n && 0 <= b < n && 0 <= c < n && b != c && #[trigger] t[b][a] is Some implies #[trigger] t[c][a] != t[b][a] by {
        if a == j && b == i {
            if t[c][a] == e {
                assert(s[c][j] == Some(v as u8));
            }
        } else if a == j && c == i {
            if t[b][a] == e {
                assert(s[b][j] == Some(v as u8));
            }
        } else {
            assert(t[b][a] == s[b][a] && t[c][a] == s[c][a]);
        }
    }
    assert forall|a: int, b: int| 0 <= a < n && 0 <= b < n && #[trigger] s[a][b] is Some implies t[a][b] == s[a][b] by {}
    assert forall|u: int| #[trigger] missing_in_row(t, n, i).contains(u) == missing_in_row(s, n, i).remove(v).contains(u) by {
        if 0 <= u < n && u != v {
            if row_holds(t, n, i, u) {
                let b = choose|b: int| 0 <= b < n && t[i][b] == Some(u as u8);
                assert(b != j);
                assert(s[i][b] == Some(u as u8));
            }
            if row_holds(s, n, i, u) {
                let b = choose|b: int| 0 <= b < n && s[i][b] == Some(u as u8);
                assert(t[i][b] == Some(u as u8));
            }
        }
        if u == v {
            assert(t[i][j] == Some(v as u8));
        }
    }
    assert(missing_in_row(t, n, i) =~= missing_in_row(s, n, i).remove(v));
    assert forall|u: int| #[trigger] missing_in_col(t, n, j).contains(u) == missing_in_col(s, n, j).remove(v).contains(u) by {
        if 0 <= u < n && u != v {
            if col_holds(t, n, j, u) {
                let a = choose|a: int| 0 <= a < n && t[a][j] == Some(u as u8);
                assert(a != i);
                assert(s[a][j] == Some(u as u8));
            }
            if col_holds(s, n, j, u) {
                let a = choose|a: int| 0 <= a < n && s[a][j] == Some(u as u8);
                assert(t[a][j] == Some(u as u8));
            }
        }
        if u == v {
            assert(t[i][j] == Some(v as u8));
        }
    }
    assert(missing_in_col(t, n, j) =~= missing_in_col(s, n, j).remove(v));
    assert forall|k: int| 0 <= k < n && k != i implies #[trigger] missing_in_row(t, n, k) == missing_in_row(s, n, k) by {
        assert(t[k] == s[k]);
        assert forall|u: int| row_holds(t, n, k, u) == row_holds(s, n, k, u) by {}
        assert(missing_in_row(t, n, k) =~= missing_in_row(s, n, k));
    }
    assert forall|k: int| 0 <= k < n && k != j implies #[trigger] missing_in_col(t, n, k) == missing_in_col(s, n, k) by {
        assert forall|u: int| col_holds(t, n, k, u) == col_holds(s, n, k, u) by {
            if col_holds(t, n, k, u) {
                let a = choose|a: int| 0 <= a < n && t[a][k] == Some(u as u8);
                assert(s[a][k] == t[a][k]);
            }
            if col_holds(s, n, k, u) {
                let a = choose|a: int| 0 <= a < n && s[a][k] == Some(u as u8);
                assert(s[a][k] == t[a][k]);
            }
        }
        assert(missing_in_col(t, n, k) =~= missing_in_col(s, n, k));
    }
    assert forall|l: Seq<Seq<u8>>| completes(l, s, n) && l[i][j] as int == v implies #[trigger] completes(l, t, n) by {
        assert forall|a: int, b: int| 0 <= a < n && 0 <= b < n && #[trigger] t[a][b] is Some implies t[a][b] == Some(l[a][b]) by {
            if a == i && b == j {
                assert((v as u8) == l[i][j]);
            } else {
                assert(t[a][b] == s[a][b]);
            }
        }
    }
}

/// The reading-order indices of the empty cells.
pub open spec fn empty_cells(s: Seq<Seq<Option<u8>>>, n: nat) -> Set<int> {
    Set::new(|x: int| 0 <= x < n * n && s[x / (n as int)][x % (n as int)] is None)
}

pub proof fn lemma_empty_cells_finite(s: Seq<Seq<Option<u8>>>, n: nat)
    ensures
        empty_cells(s, n).finite(),
        empty_cells(s, n).len() <= n * n,
{
    lemma_subset_range_finite(empty_cells(s, n), 0, (n * n) as int);
}

/// The candidates of a cell are finitely many.
pub proof fn lemma_candidates_finite(s: Seq<Seq<Option<u8>>>, n: nat, i: int, j: int)
    ensures
        candidates(s, n, i, j).finite(),
        candidates(s, n, i, j).len() <= n,
{
    lemma_subset_range_finite(candidates(s, n, i, j), 0, n as int);
}

/// A grid that keeps the filled cells of another has no more empty cells.
pub proof fn lemma_extends_empty_cells(t: Seq<Seq<Option<u8>>>, s: Seq<Seq<Option<u8>>>, n: nat)
    requires
        extends(t, s, n),
    ensures
        empty_cells(t, n).subset_of(empty_cells(s, n)),
        empty_cells(t, n).len() <= empty_cells(s, n).len(),
{
    assert forall|x: int| empty_cells(t, n).contains(x) implies empty_cells(s, n).contains(x) by {
        lemma_cell_of_index(x, n as int);
        let a = x / (n as int);
        let b = x % (n as int);
        if s[a][b] is Some {
            assert(t[a][b] == s[a][b]);
        }
    }
    lemma_empty_cells_finite(s, n);
    vstd::set_lib::lemma_len_subset(empty_cells(t, n), empty_cells(s, n));
}

/// Keeping the filled cells is transitive.
pub proof fn lemma_extends_trans(u: Seq<Seq<Option<u8>>>, t: Seq<Seq<Option<u8>>>, s: Seq<Seq<Option<u8>>>, n: nat)
    requires
        extends(u, t, n),
        extends(t, s, n),
    ensures
        extends(u, s, n),
{
    assert forall|i: int, j: int| 0 <= i < n && 0 <= j < n && #[trigger] s[i][j] is Some implies u[i][j] == s[i][j] by {
        assert(t[i][j] == s[i][j]);
    }
}

/// A square that completes a grid completes every grid it extends.
pub proof fn lemma_completes_extends(l: Seq<Seq<u8>>, t: Seq<Seq<Option<u8>>>, s: Seq<Seq<Option<u8>>>, n: nat)
    requires
        completes(l, t, n),
        extends(t, s, n),
    ensures
        completes(l, s, n),
{
    assert forall|i: int, j: int| 0 <= i < n && 0 <= j < n && #[trigger] s[i][j] is Some implies s[i][j] == Some(l[i][j]) by {
        assert(t[i][j] == s[i][j]);
    }
}

/// An empty cell is counted among the empty cells.
pub proof fn lemma_has_empty_cell(s: Seq<Seq<Option<u8>>>, n: nat, i: int, j: int)
    requires
        0 <= i < n,
        0 <= j < n,
        s[i][j] is None,
    ensures
        empty_cells(s, n).len() >= 1,
{
    lemma_index_of_cell(i, j, n as int);
    assert(empty_cells(s, n).contains(i * n + j));
    lemma_empty_cells_finite(s, n);
}

/// Placing a value in an empty cell leaves one empty cell fewer.
pub proof fn lemma_place_shrinks(s: Seq<Seq<Option<u8>>>, n: nat, i: int, j: int, v: int)
    requires
        is_grid_of(s, n),
        0 <= i < n,
        0 <= j < n,
        s[i][j] is None,
    ensures
        empty_cells(s, n).finite(),
        empty_cells(placed(s, i, j, v), n).finite(),
        empty_cells(placed(s, i, j, v), n).len() < empty_cells(s, n).len(),
{
    let t = placed(s, i, j, v);
    let x = i * n + j;
    lemma_index_of_cell(i, j, n as int);
    lemma_subset_range_finite(empty_cells(s, n), 0, (n * n) as int);
    lemma_subset_range_finite(empty_cells(placed(s, i, j, v), n), 0, (n * n) as int);
    assert forall|y: int| #[trigger] empty_cells(t, n).contains(y) == empty_cells(s, n).remove(x).contains(y) by {
        if 0 <= y < n * n {
            lemma_cell_of_index(y, n as int);
            if y != x {
                if y / (n as int) == i && y % (n as int) == j {
                    assert(y == x);
                }
            }
        }
    }
    assert(empty_cells(t, n) =~= empty_cells(s, n).remove(x));
    assert(empty_cells(s, n).contains(x));
}

} // verus!
