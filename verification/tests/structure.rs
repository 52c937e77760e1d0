use latin_squares::latin_square::LatinSquare;

fn cyclic3() -> LatinSquare<3> {
    LatinSquare::new([[0, 1, 2], [1, 2, 0], [2, 0, 1]])
}

fn cyclic4() -> LatinSquare<4> {
    LatinSquare::new([[0, 1, 2, 3], [1, 2, 3, 0], [2, 3, 0, 1], [3, 0, 1, 2]])
}

fn cyclic5() -> LatinSquare<5> {
    let mut rows = [[0u8; 5]; 5];
    for i in 0..5 {
        for j in 0..5 {
            rows[i][j] = ((i + j) % 5) as u8;
        }
    }
    LatinSquare::new(rows)
}

#[test]
fn conjugates_of_a_square() {
    let sq = LatinSquare::new([[0, 1, 2], [2, 0, 1], [1, 2, 0]]);
    let conjugates = sq.conjugates();
    assert_eq!(conjugates.len(), 6);
    assert_eq!(conjugates[0], sq);
    // rows and columns exchanged: the transpose
    let transpose = conjugates[2];
    for i in 0..3 {
        for j in 0..3 {
            assert_eq!(transpose.get(j, i), sq.get(i, j));
        }
    }
    // columns and values exchanged: cell (i, s[i][j]) holds j
    let swapped = conjugates[1];
    for i in 0..3 {
        for j in 0..3 {
            assert_eq!(swapped.get(i, sq.get(i, j)), j);
        }
    }
    for c in conjugates {
        assert!(LatinSquare::<3>::is_valid(c.values()));
    }
}

#[test]
fn from_rcs_places_entries() {
    let rows = [[0, 0], [1, 1]];
    let cols = [[1, 0], [1, 0]];
    let vals = [[0, 1], [1, 0]];
    let sq = LatinSquare::<2>::from_rcs(rows, cols, vals);
    assert_eq!(sq.values(), &[[1, 0], [0, 1]]);
}

#[test]
fn row_col_val_cycles_of_cyclic_squares() {
    assert_eq!(cyclic3().row_cycles(), vec![vec![3], vec![3], vec![3]]);
    assert_eq!(
        cyclic4().row_cycles(),
        vec![vec![2, 2], vec![2, 2], vec![4], vec![4], vec![4], vec![4]]
    );
    assert_eq!(cyclic4().col_cycles(), cyclic4().row_cycles());
    assert_eq!(cyclic4().val_cycles().len(), 6);
    let klein = LatinSquare::new([[0, 1, 2, 3], [1, 0, 3, 2], [2, 3, 0, 1], [3, 2, 1, 0]]);
    assert_eq!(klein.row_cycles(), vec![vec![2, 2]; 6]);
    assert_eq!(klein.val_cycles(), vec![vec![2, 2]; 6]);
}

#[test]
fn transversal_counts() {
    assert_eq!(cyclic3().num_transversals(), 3);
    assert_eq!(cyclic4().num_transversals(), 0);
    assert_eq!(cyclic5().num_transversals(), 15);
    let klein = LatinSquare::new([[0, 1, 2, 3], [1, 0, 3, 2], [2, 3, 0, 1], [3, 2, 1, 0]]);
    assert_eq!(klein.num_transversals(), 8);
}

#[test]
fn transversals_of_cyclic3() {
    let sets = cyclic3().transversals_bitset();
    assert_eq!(sets.len(), 3);
    for t in &sets {
        assert_eq!(t.len(), 3);
        let mut rows = [false; 3];
        let mut cols = [false; 3];
        let mut vals = [false; 3];
        let mut it = t.iter();
        while let Some(x) = it.next() {
            rows[x / 3] = true;
            cols[x % 3] = true;
            vals[cyclic3().get(x / 3, x % 3)] = true;
        }
        assert!(rows.iter().all(|b| *b) && cols.iter().all(|b| *b) && vals.iter().all(|b| *b));
    }
    // the main diagonal holds 0, 2, 1: the first transversal in value order
    assert!(sets[0].contains(0) && sets[0].contains(4) && sets[0].contains(8));
}

#[test]
fn subsquare_counts() {
    assert_eq!(cyclic4().num_subsquares(1), 16);
    assert_eq!(cyclic4().num_subsquares(2), 4);
    assert_eq!(cyclic4().num_subsquares(4), 1);
    assert_eq!(cyclic3().num_subsquares(2), 0);
    let sets = cyclic4().subsquares_bitset(2);
    assert_eq!(sets.len(), 4);
    assert!(sets[0].contains(0) && sets[0].contains(2) && sets[0].contains(8) && sets[0].contains(10));
    assert_eq!(sets[0].len(), 4);
}

#[test]
fn orthogonal_mates_of_cyclic_squares() {
    let mates = cyclic3().orthogonal_squares();
    assert_eq!(mates.len(), 1);
    assert!(cyclic3().is_orthogonal_to(&mates[0]));
    assert_eq!(cyclic3().full_disjoint_transversals_bitset().len(), 1);
    assert!(cyclic4().orthogonal_squares().is_empty());
    let mates5 = cyclic5().orthogonal_squares();
    assert!(!mates5.is_empty());
    for m in &mates5 {
        assert!(cyclic5().is_orthogonal_to(m));
        // transversal k passes through cell (0, k)
        for k in 0..5 {
            assert_eq!(m.get(0, k), k);
        }
    }
}

#[test]
fn max_disjoint_transversal_counts() {
    assert_eq!(cyclic3().max_disjoint_transversals(), 3);
    assert_eq!(cyclic4().max_disjoint_transversals(), 0);
    assert_eq!(cyclic5().max_disjoint_transversals(), 5);
    let klein = LatinSquare::new([[0, 1, 2, 3], [1, 0, 3, 2], [2, 3, 0, 1], [3, 2, 1, 0]]);
    assert_eq!(klein.max_disjoint_transversals(), 4);
}
