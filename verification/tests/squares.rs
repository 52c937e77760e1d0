use latin_squares::constraints::{Constraints, ConstraintsDyn};
use latin_squares::latin_square::{Error, LatinSquare};
use latin_squares::latin_square_dyn::{isqrt, Error as DynError, LatinSquareDyn};
use latin_squares::latin_square_generator::{LatinSquareGenerator, LatinSquareGeneratorDyn};
use latin_squares::partial_latin_square::{Error as PartialError, PartialLatinSquare};
use latin_squares::partial_latin_square_dyn::{Error as PartialDynError, PartialLatinSquareDyn};
use latin_squares::permutation::Permutation;

fn cyclic4() -> LatinSquare<4> {
    LatinSquare::new([[0, 1, 2, 3], [1, 2, 3, 0], [2, 3, 0, 1], [3, 0, 1, 2]])
}

#[test]
fn parse_square() {
    let sq = LatinSquare::<4>::try_from_str("0123123023013012").unwrap();
    assert_eq!(sq, cyclic4());
    assert_eq!(sq.get(2, 3), 1);
    assert_eq!(sq.get_col(1), [1, 2, 3, 0]);
    assert_eq!(sq.get_val(0), [0, 3, 2, 1]);
}

#[test]
fn parse_square_errors() {
    assert_eq!(
        LatinSquare::<4>::try_from_str("012"),
        Err(Error::InvalidLength { len: 3, expected: 16 })
    );
    assert_eq!(
        LatinSquare::<4>::try_from_str("0123123023013x12"),
        Err(Error::InvalidChar { index: 13, char: 'x' })
    );
    assert_eq!(
        LatinSquare::<4>::try_from_str("0123123023013412"),
        Err(Error::InvalidChar { index: 13, char: '4' })
    );
    assert_eq!(
        LatinSquare::<4>::try_from_str("0123012301230123"),
        Err(Error::NotALatinSquare)
    );
}

#[test]
fn parse_hex_square() {
    let text: String = (0..11)
        .flat_map(|i| (0..11).map(move |j| std::char::from_digit((i + j) % 11, 16).unwrap()))
        .collect();
    let sq = LatinSquare::<11>::try_from_str(&text).unwrap();
    assert_eq!(sq.get(5, 7), 1);
    assert_eq!(sq.get(10, 0), 10);
}

#[test]
fn try_from_values_checks() {
    assert!(LatinSquare::<3>::try_from_values([[0, 1, 2], [1, 2, 0], [2, 0, 1]]).is_ok());
    assert_eq!(
        LatinSquare::<3>::try_from_values([[0, 1, 2], [1, 0, 2], [2, 0, 1]]),
        Err(Error::NotALatinSquare)
    );
}

#[test]
fn validity_and_orthogonality() {
    assert!(LatinSquare::<3>::is_valid(&[[0, 1, 2], [2, 0, 1], [1, 2, 0]]));
    assert!(!LatinSquare::<3>::is_valid(&[[0, 1, 2], [2, 0, 1], [1, 0, 2]]));
    assert!(!LatinSquare::<3>::is_valid(&[[0, 1, 3], [1, 3, 0], [3, 0, 1]]));
    let a = LatinSquare::new([[0, 1, 2], [1, 2, 0], [2, 0, 1]]);
    let b = LatinSquare::new([[0, 1, 2], [2, 0, 1], [1, 2, 0]]);
    assert!(a.is_orthogonal_to(&b));
    assert!(!a.is_orthogonal_to(&a));
}

#[test]
fn reduced_and_same_rows() {
    let sq = cyclic4();
    assert!(sq.is_reduced());
    let swapped = sq.permuted_rows(&Permutation::from_array([0, 1, 3, 2]));
    assert!(!swapped.is_reduced());
    assert_eq!(sq.num_same_rows(&swapped), 2);
}

#[test]
fn permutations_keep_latin() {
    let sq = cyclic4();
    let p = Permutation::from_array([2, 0, 3, 1]);
    let rows = sq.permuted_rows(&p);
    let cols = sq.permuted_cols(&p);
    let vals = sq.permuted_vals(&p);
    assert!(LatinSquare::<4>::is_valid(rows.values()));
    assert!(LatinSquare::<4>::is_valid(cols.values()));
    assert!(LatinSquare::<4>::is_valid(vals.values()));
    for i in 0..4 {
        assert_eq!(rows.get_row(p.apply(i)), sq.get_row(i));
        for j in 0..4 {
            assert_eq!(cols.get(i, p.apply(j)), sq.get(i, j));
            assert_eq!(vals.get(i, j), p.apply(sq.get(i, j)));
        }
    }
    let mut in_place = sq;
    in_place.permute_vals(&p);
    assert_eq!(in_place, vals);
    let mut simd = sq;
    simd.permute_vals_simd(&p);
    assert_eq!(simd, vals);
}

#[test]
fn compare_in_reading_order() {
    let a = cyclic4();
    let b = a.permuted_rows(&Permutation::from_array([0, 2, 1, 3]));
    assert_eq!(a.cmp_rows(&b), std::cmp::Ordering::Less);
    assert_eq!(b.cmp_rows(&a), std::cmp::Ordering::Greater);
    assert_eq!(a.cmp_rows(&a), std::cmp::Ordering::Equal);
}

#[test]
fn reduced_generator_counts() {
    let mut count = 0;
    let mut generator = LatinSquareGenerator::<4>::new();
    while let Some(sq) = generator.next() {
        assert!(sq.is_reduced());
        assert!(LatinSquare::<4>::is_valid(sq.values()));
        count += 1;
    }
    assert_eq!(count, 4);

    let mut count = 0;
    let mut generator = LatinSquareGenerator::<5>::new();
    while generator.next().is_some() {
        count += 1;
    }
    assert_eq!(count, 56);
}

#[test]
fn generator_completes_partial_square() {
    let partial = PartialLatinSquare::<4>::try_from_str("0123...............").unwrap_err();
    assert_eq!(partial, PartialError::InvalidLength { len: 19, expected: 16 });
    let partial = PartialLatinSquare::<4>::try_from_str("0123123023013...").unwrap();
    let mut generator = LatinSquareGenerator::from_partial_sq(&partial);
    assert_eq!(generator.next(), Some(cyclic4()));
    assert_eq!(generator.next(), None);
}

#[test]
fn partial_parse_errors() {
    assert_eq!(
        PartialLatinSquare::<3>::try_from_str("01.1.0.x."),
        Err(PartialError::InvalidChar { index: 7, char: 'x' })
    );
    let sq = PartialLatinSquare::<3>::try_from_str("01...0...").unwrap();
    assert_eq!(sq.get(0, 1), Some(1));
    assert_eq!(sq.get(0, 2), None);
    assert_eq!(sq.num_entries(), 3);
    assert!(sq.is_valid());
}

#[test]
fn constraints_solve_by_singles() {
    let partial = PartialLatinSquare::<4>::try_from_str("0123123023013...").unwrap();
    let mut constraints = Constraints::new_partial(&partial);
    assert!(!constraints.is_solved());
    assert!(constraints.is_solvable());
    assert_eq!(constraints.first_empty(), Some((3, 1)));
    constraints.find_singles();
    assert!(constraints.is_solved());
    assert_eq!(constraints.into_latin_square(), cyclic4());
}

#[test]
fn constraints_possibilities() {
    let mut constraints = Constraints::<4>::new();
    constraints.set(0, 0, 2);
    assert!(constraints.is_set(0, 0));
    assert!(!constraints.get_possibilities(0, 1).contains(2));
    assert!(!constraints.get_possibilities(3, 0).contains(2));
    assert!(constraints.get_possibilities(1, 1).contains(2));
}

#[test]
fn unsolvable_constraints() {
    let partial = PartialLatinSquare::<3>::try_from_str("01..2....").unwrap();
    let mut constraints = Constraints::new_partial(&partial);
    constraints.find_singles();
    let mut generator = LatinSquareGenerator::from_partial_sq(&partial);
    let first = generator.next();
    assert!(first.is_some());
    let partial = PartialLatinSquare::<3>::try_from_str("0.1.2....").unwrap();
    let mut generator = LatinSquareGenerator::from_partial_sq(&partial);
    assert_eq!(generator.next(), None);
}

#[test]
fn isqrt_values() {
    assert_eq!(isqrt(0), Some(0));
    assert_eq!(isqrt(1), Some(1));
    assert_eq!(isqrt(15), None);
    assert_eq!(isqrt(16), Some(4));
    assert_eq!(isqrt(17), None);
    assert_eq!(isqrt(144), Some(12));
}

#[test]
fn dyn_parse_and_errors() {
    let sq = LatinSquareDyn::try_from_str("012120201").unwrap();
    assert_eq!(sq.values(), &[0, 1, 2, 1, 2, 0, 2, 0, 1]);
    assert_eq!(sq.entry(1, 2), 0);
    assert_eq!(LatinSquareDyn::try_from_str("01212020"), Err(DynError::InvalidLength { len: 8 }));
    assert_eq!(
        LatinSquareDyn::try_from_str("012130201"),
        Err(DynError::InvalidChar { index: 4, char: '3' })
    );
    assert_eq!(LatinSquareDyn::try_from_str("012012012"), Err(DynError::InvalidLatinSquare));
    assert!(LatinSquareDyn::from_boxed_slice(vec![0, 1, 1, 0]).is_some());
    assert!(LatinSquareDyn::from_boxed_slice(vec![0, 1, 0]).is_none());
}

#[test]
fn dyn_partial_parse_and_completion() {
    let partial = PartialLatinSquareDyn::try_from_str("01.12....").unwrap();
    assert_eq!(partial.num_entries(), 4);
    assert_eq!(partial.first_empty_index(), Some(2));
    assert_eq!(partial.next_empty_index(3), Some(5));
    assert!(partial.is_uniquely_completable());
    assert_eq!(
        PartialLatinSquareDyn::try_from_str("01.12..."),
        Err(PartialDynError::InvalidLength { len: 8 })
    );
    assert_eq!(
        PartialLatinSquareDyn::try_from_str("01.13...."),
        Err(PartialDynError::InvalidChar { index: 4, char: '3' })
    );
    let sq = LatinSquareDyn::try_from_str("012120201").unwrap();
    assert!(partial.is_uniquely_completable_to(&sq));
    let empty = PartialLatinSquareDyn::empty(3);
    assert!(!empty.is_uniquely_completable());
}

#[test]
fn dyn_generator_yields_latin_squares() {
    let mut generator = LatinSquareGeneratorDyn::new(4);
    let mut count = 0;
    while let Some(sq) = generator.next() {
        assert!(LatinSquareDyn::from_boxed_slice(sq.values().to_vec()).is_some());
        count += 1;
        if count > 50 {
            break;
        }
    }
    assert!(count > 0);
}

#[test]
fn dyn_solver_finds_singles() {
    let partial = PartialLatinSquareDyn::try_from_str("0121202..").unwrap();
    let mut constraints = ConstraintsDyn::new_partial(&partial);
    assert_eq!(constraints.n(), 3);
    assert_eq!(constraints.first_empty(), Some((2, 1)));
    constraints.find_singles();
    assert!(constraints.is_solved());
}

#[test]
fn dyn_from_static_square() {
    let sq = LatinSquareDyn::from_latin_square(cyclic4());
    assert_eq!(sq.entry(3, 1), 0);
    let without = sq.without_rows(&[0, 2]);
    assert_eq!(without.num_entries(), 8);
    let without = sq.without_vals(&[1]);
    assert_eq!(without.num_entries(), 12);
}

#[test]
fn dyn_generator_hands_out_every_square_of_order_3_once() {
    let mut generator = LatinSquareGeneratorDyn::new(3);
    let mut seen: Vec<Vec<u8>> = Vec::new();
    while let Some(sq) = generator.next() {
        let values = sq.values().to_vec();
        assert!(!seen.contains(&values));
        seen.push(values);
    }
    assert_eq!(seen.len(), 12);
    assert!(generator.next().is_none());
}

#[test]
fn dyn_generator_hands_out_a_full_square_once() {
    let full = PartialLatinSquareDyn::try_from_str("012120201").unwrap();
    let mut generator = LatinSquareGeneratorDyn::from_partial_sq(&full);
    let sq = generator.next().unwrap();
    assert_eq!(sq.values().to_vec(), vec![0, 1, 2, 1, 2, 0, 2, 0, 1]);
    assert!(generator.next().is_none());
}

#[test]
fn generator_of_fixed_order_yields_nothing_from_a_full_square() {
    let full = PartialLatinSquare::<3>::try_from_str("012120201").unwrap();
    let mut generator = LatinSquareGenerator::from_partial_sq(&full);
    assert_eq!(generator.next(), None);
}

#[test]
fn two_completions_are_not_unique() {
    let partial = PartialLatinSquareDyn::try_from_str("0........").unwrap();
    assert!(!partial.is_uniquely_completable());
    let sq = LatinSquareDyn::try_from_str("012120201").unwrap();
    assert!(!partial.is_uniquely_completable_to(&sq));
    assert!(!partial.is_critical_set_of(&sq));
    let full = PartialLatinSquareDyn::try_from_str("012120201").unwrap();
    assert!(full.is_uniquely_completable());
    assert!(full.is_uniquely_completable_to(&sq));
    assert!(!full.is_critical_set_of(&sq));
}
