use latin_squares::compressed_latin_square::{permutation_from_rank, rank_of_permutation, CompressedLatinSquare};
use latin_squares::latin_square::LatinSquare;
use latin_squares::permutation::factorial;

#[test]
fn compressed_latin_square_test() {
    assert_eq!(rank_of_permutation(&[0, 1, 2, 3, 4]), 0);
    assert_eq!(rank_of_permutation(&[4, 3, 2, 1, 0]), factorial(5) as u32 - 1);
    assert_eq!(
        permutation_from_rank(rank_of_permutation(&[0, 3, 1, 4, 2])),
        [0, 3, 1, 4, 2]
    )
}

#[test]
fn rank_of_small_permutations() {
    assert_eq!(rank_of_permutation(&[1, 0, 2]), 2);
    assert_eq!(rank_of_permutation(&[2, 0, 1]), 4);
    assert_eq!(permutation_from_rank::<3>(3), [1, 2, 0]);
    assert_eq!(permutation_from_rank::<3>(5), [2, 1, 0]);
}

#[test]
fn rank_round_trip_over_all_ranks() {
    for rank in 0..120u32 {
        let p = permutation_from_rank::<5>(rank);
        assert_eq!(rank_of_permutation(&p), rank);
    }
}

#[test]
fn compression_round_trip() {
    let sq = LatinSquare::new([[0, 1, 2, 3], [1, 3, 0, 2], [2, 0, 3, 1], [3, 2, 1, 0]]);
    let compressed = CompressedLatinSquare::from_latin_square(sq);
    assert_eq!(compressed.values, [0, 10, 13, 23]);
    assert_eq!(compressed.to_latin_square(), sq);
}
