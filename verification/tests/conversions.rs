use latin_squares::latin_square::LatinSquare;
use latin_squares::partial_latin_square::PartialLatinSquare;
use latin_squares::permutation::Permutation;
use latin_squares::permutation_dyn::PermutationDyn;

#[test]
fn full_partial_square_and_back() {
    let sq = LatinSquare::new([[0, 1, 2], [2, 0, 1], [1, 2, 0]]);
    let partial = PartialLatinSquare::from_latin_square(sq);
    for i in 0..3 {
        for j in 0..3 {
            assert_eq!(partial.get_partial(i, j), Some(sq.get(i, j)));
        }
    }
    assert_eq!(LatinSquare::from_partial(partial), Ok(sq));
}

#[test]
fn run_time_permutation_to_fixed_length() {
    let p = PermutationDyn::from_array([2, 0, 3, 1]);
    let q = Permutation::<4>::from_dyn(&p);
    assert_eq!(q.as_array(), &[2, 0, 3, 1]);
}
