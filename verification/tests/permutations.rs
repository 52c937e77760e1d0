use latin_squares::permutable::Permutable;
use latin_squares::permutation::{Permutation, PermutationIter};
use latin_squares::permutation_dyn::{PermutationDyn, PermutationDynIter};

#[test]
fn duplicates() {
    let items = vec![0, 1, 1];
    let mut permutations = items.permutations();

    assert_eq!(permutations.next(), Some(vec![0, 1, 1]));
    assert_eq!(permutations.next(), Some(vec![1, 0, 1]));
    assert_eq!(permutations.next(), Some(vec![1, 1, 0]));
    assert_eq!(permutations.next(), None);
}

#[test]
fn unordered_start() {
    let items = vec![2, 0, 1];
    let mut permutations = items.permutations();

    assert_eq!(permutations.next(), Some(vec![2, 0, 1]));
    assert_eq!(permutations.next(), Some(vec![2, 1, 0]));
    assert_eq!(permutations.next(), Some(vec![0, 1, 2]));
    assert_eq!(permutations.next(), Some(vec![0, 2, 1]));
    assert_eq!(permutations.next(), Some(vec![1, 0, 2]));
    assert_eq!(permutations.next(), Some(vec![1, 2, 0]));
    assert_eq!(permutations.next(), None);
}

#[test]
fn inverse_test() {
    let permutation = Permutation::from_array([3, 1, 4, 2, 0]);
    let inverse = permutation.inverse();
    assert_eq!(inverse.into_array(), [4, 1, 3, 0, 2]);
}

#[test]
fn permutation_iter_test() {
    let mut iter = PermutationIter::<3>::new();

    assert_eq!(iter.next(), Some(Permutation::from_array([0, 1, 2])));
    assert_eq!(iter.next(), Some(Permutation::from_array([0, 2, 1])));
    assert_eq!(iter.next(), Some(Permutation::from_array([1, 0, 2])));
    assert_eq!(iter.next(), Some(Permutation::from_array([1, 2, 0])));
    assert_eq!(iter.next(), Some(Permutation::from_array([2, 0, 1])));
    assert_eq!(iter.next(), Some(Permutation::from_array([2, 1, 0])));
    assert_eq!(iter.next(), None);
}

#[test]
fn order_test() {
    assert_eq!(Permutation::from_array([1, 0, 3, 2]).order(), 2);
    assert_eq!(Permutation::from_array([1, 2, 0, 3]).order(), 3);
    assert_eq!(Permutation::from_array([1, 2, 3, 0]).order(), 4);
}

#[test]
fn cycle_test() {
    assert_eq!(
        Permutation::from_array([1, 2, 3, 0]).cycles(),
        vec![vec![0, 1, 2, 3]]
    );
    assert_eq!(
        Permutation::from_array([1, 0, 3, 2, 4]).cycles(),
        vec![vec![0, 1], vec![2, 3], vec![4]]
    );
    assert_eq!(
        Permutation::from_array([3, 0, 1, 2]).cycles(),
        vec![vec![0, 3, 2, 1]]
    );
}

#[test]
fn permutation_single_iter() {
    let mut iter = PermutationDynIter::new(1);
    assert_eq!(iter.next(), Some(PermutationDyn::from_array([0])));
    assert_eq!(iter.next(), None);
}

#[test]
fn permutation_dyn_single_iter() {
    let mut iter = PermutationDynIter::new(1);
    assert_eq!(iter.next(), Some(PermutationDyn::from_array([0])));
    assert_eq!(iter.next(), None);
}

#[test]
fn inverse_undoes_apply() {
    let p = Permutation::from_array([2, 4, 0, 1, 3]);
    let q = Permutation::from_array([2, 4, 0, 1, 3]).inverse();
    for i in 0..5 {
        assert_eq!(q.apply(p.apply(i)), i);
    }
}

#[test]
fn order_of_identity_and_product_cycle() {
    assert_eq!(Permutation::<5>::identity().order(), 1);
    assert_eq!(Permutation::from_array([1, 0, 3, 4, 2]).order(), 6);
}

#[test]
fn cycle_lengths_and_fixed_points() {
    let p = Permutation::from_array([1, 0, 2, 4, 5, 3]);
    assert_eq!(p.cycle_lengths(), vec![2, 1, 3]);
    assert_eq!(p.fixed_points(), vec![2]);
    assert_eq!(p.num_fixed_points(), 1);
}

#[test]
fn permutation_iter_counts_all() {
    let mut iter = PermutationIter::<4>::new();
    let mut count = 0;
    while iter.next().is_some() {
        count += 1;
    }
    assert_eq!(count, 24);
}

#[test]
fn dyn_from_rank_matches_iteration_order() {
    let mut iter = PermutationDynIter::new(4);
    let mut rank = 0;
    while let Some(p) = iter.next() {
        assert_eq!(PermutationDyn::from_rank(rank, 4), p);
        rank += 1;
    }
    assert_eq!(rank, 24);
}

#[test]
fn dyn_inverse() {
    let p = PermutationDyn::from_array([3, 1, 4, 2, 0]);
    assert_eq!(p.inverse().into_vec(), vec![4, 1, 3, 0, 2]);
}

#[test]
fn order_is_at_most_the_factorial() {
    let limit = latin_squares::permutation::factorial(5);
    for p in [[1, 0, 3, 4, 2], [1, 2, 3, 4, 0], [0, 1, 2, 3, 4], [2, 0, 1, 4, 3]] {
        assert!(Permutation::from_array(p).order() <= limit);
    }
    assert_eq!(Permutation::from_array([2, 0, 1, 4, 3]).order(), 6);
}
