use latin_squares::latin_square::{Error as SquareError, LatinSquare};
use latin_squares::mols::{Error, Mols};
use latin_squares::permutation::Permutation;

fn first() -> LatinSquare<3> {
    LatinSquare::new([[0, 1, 2], [1, 2, 0], [2, 0, 1]])
}

fn second() -> LatinSquare<3> {
    LatinSquare::new([[0, 1, 2], [2, 0, 1], [1, 2, 0]])
}

#[test]
fn orthogonal_pair_is_accepted() {
    let mols = Mols::new(vec![first(), second()]).unwrap();
    assert_eq!(mols.squares(), &vec![first(), second()]);
}

#[test]
fn first_clashing_pair_is_reported() {
    assert_eq!(Mols::new(vec![first(), second(), first()]), Err((0, 2)));
    assert_eq!(Mols::new(vec![first(), first(), second()]), Err((0, 1)));
    assert!(Mols::<3>::new(vec![]).is_ok());
}

#[test]
fn unchecked_keeps_the_squares() {
    let mols = Mols::new_unchecked(vec![first(), first()]);
    assert_eq!(mols.squares().len(), 2);
}

#[test]
fn parse_a_set() {
    let mols = Mols::<3>::try_from_str("012120201-012201120").unwrap();
    assert_eq!(mols.squares(), &vec![first(), second()]);
}

#[test]
fn parse_errors() {
    assert_eq!(
        Mols::<3>::try_from_str("012120201-01220112"),
        Err(Error::InvalidLength { len: 18, expected: 19 })
    );
    assert_eq!(
        Mols::<3>::try_from_str("012120201-012201120-012120201-012120201"),
        Err(Error::InvalidSeparators { count: 3, expected: 2 })
    );
    assert_eq!(
        Mols::<3>::try_from_str("012120201-012201x20"),
        Err(Error::InvalidLatinSquare {
            index: 1,
            error: SquareError::InvalidChar { index: 6, char: 'x' }
        })
    );
    assert_eq!(
        Mols::<3>::try_from_str("012120201-0122011-20120120120"),
        Err(Error::InvalidLatinSquare {
            index: 1,
            error: SquareError::InvalidLength { len: 7, expected: 9 }
        })
    );
    assert_eq!(
        Mols::<3>::try_from_str("012120201-000000000"),
        Err(Error::InvalidLatinSquare { index: 1, error: SquareError::NotALatinSquare })
    );
    assert_eq!(
        Mols::<3>::try_from_str("012120201-012120201"),
        Err(Error::NotOrthogonal { indices: (0, 1) })
    );
}

#[test]
fn permuting_rows_moves_rows_of_every_square() {
    let mut mols = Mols::new(vec![first(), second()]).unwrap();
    let p = Permutation::from_array([1, 2, 0]);
    mols.permute_rows(&p);
    let sqs = mols.squares();
    for i in 0..3 {
        for j in 0..3 {
            assert_eq!(sqs[0].get(p.apply(i), j), first().get(i, j));
            assert_eq!(sqs[1].get(p.apply(i), j), second().get(i, j));
        }
    }
}

#[test]
fn permuting_columns_and_reducing() {
    let mut mols = Mols::new(vec![first(), second()]).unwrap();
    let p = Permutation::from_array([2, 0, 1]);
    mols.permute_cols_and_reduce(&p);
    for sq in mols.squares() {
        assert_eq!(sq.get_row(0), &[0, 1, 2]);
    }
    // column 0 of the first square (0, 1, 2) moves to column 2 and the value found at
    // position d of the first row becomes p[d]
    let sq = mols.squares()[0];
    assert_eq!([sq.get(0, 2), sq.get(1, 2), sq.get(2, 2)], [2, 0, 1]);
}

#[test]
fn sets_compare_square_by_square() {
    let a = Mols::new(vec![first(), second()]).unwrap();
    let b = Mols::new(vec![second(), first()]).unwrap();
    assert_eq!(a.compare(&b), -1);
    assert_eq!(b.compare(&a), 1);
    assert_eq!(a.compare(&a.clone()), 0);
}
