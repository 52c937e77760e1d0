use latin_squares::bitset::{BitSet128, BitSet256};
use latin_squares::cycles::tally;
use latin_squares::permutation_simd::PermutationSimd;
use latin_squares::row_partial_latin_square::RowPartialLatinSquare;
use latin_squares::transversal::group_subtransversals;
use latin_squares::bitvec::BitVec;
use latin_squares::cycle_lookup::generate_minimize_rows_lookup;
use latin_squares::latin_square::LatinSquare;
use latin_squares::latin_square_generator::completions;
use latin_squares::partial_latin_square_dyn::PartialLatinSquareDyn;
use latin_squares::permutation::Permutation;

fn square4() -> LatinSquare<4> {
    LatinSquare::new([[0, 1, 2, 3], [1, 3, 0, 2], [2, 0, 3, 1], [3, 2, 1, 0]])
}

fn apply(sq: &LatinSquare<4>, p: &[Permutation<4>; 3]) -> LatinSquare<4> {
    sq.permuted_rows(&p[0]).permuted_cols(&p[1]).permuted_vals(&p[2])
}

fn table() -> Vec<Vec<(Permutation<4>, Permutation<4>)>> {
    let a = Permutation::from_array([1, 0, 3, 2]);
    let b = Permutation::from_array([2, 3, 0, 1]);
    let entries = vec![
        (Permutation::identity(), Permutation::identity()),
        (a.clone(), b.clone()),
        (b.clone(), a.clone()),
        (a.clone(), a.clone()),
    ];
    vec![entries.clone(), entries]
}

#[test]
fn isotopy_search_with_an_empty_table_keeps_the_square() {
    let sq = square4();
    let (rep, perms) = sq.isotopy_class_permutations(&Vec::new());
    assert_eq!(rep, sq);
    assert_eq!(perms.len(), 1);
    assert_eq!(apply(&sq, &perms[0]), rep);
}

#[test]
fn isotopy_search_gives_permutations_that_reach_its_square() {
    let sq = square4();
    let (rep, perms) = sq.isotopy_class_permutations(&table());
    assert!(rep <= sq);
    assert!(!perms.is_empty());
    for p in &perms {
        assert_eq!(apply(&sq, p), rep);
    }
}

#[test]
fn main_class_search_gives_arrangements_that_reach_its_square() {
    let sq = square4();
    let (rep, perms) = sq.main_class_permutations(&table());
    assert!(rep <= sq);
    assert!(!perms.is_empty());
    for (rcs, p) in &perms {
        assert_eq!(apply(&sq.permuted_rcs(rcs), p), rep);
    }
    let (iso, _) = sq.isotopy_class_permutations(&table());
    assert!(rep <= iso);
}

#[test]
fn completions_of_a_partial_square_each_once() {
    let partial = PartialLatinSquareDyn::try_from_str("0........").unwrap();
    let all = completions(&partial);
    assert_eq!(all.len(), 4);
    assert_ne!(all[0].values(), all[1].values());
    let full = PartialLatinSquareDyn::try_from_str("012120201").unwrap();
    assert_eq!(completions(&full).len(), 1);
    let empty = PartialLatinSquareDyn::empty(3);
    assert_eq!(completions(&empty).len(), 12);
}

#[test]
fn pop_of_256_bit_sets() {
    let mut s1 = BitSet256::from_slice(&[3, 64, 200]);
    let mut s2 = BitSet256::from_slice(&[64, 200]);
    let mut e = BitSet256::empty();
    s1.pop();
    s2.pop();
    e.pop();
    assert_eq!(s1, BitSet256::from_slice(&[64, 200]));
    assert_eq!(s2, BitSet256::from_slice(&[200]));
    assert_eq!(e, BitSet256::empty());
}

#[test]
fn union_into_overwrites_the_result() {
    let a = BitVec::from_iter(vec![1, 70]);
    let b = BitVec::from_iter(vec![2, 130]);
    let mut r = BitVec::from_iter(vec![5, 300]);
    a.union_into(&b, &mut r);
    for i in 0..400 {
        assert_eq!(r.contains(i), a.contains(i) || b.contains(i));
    }
}

#[test]
fn tally_counts_each_list_once_in_order() {
    let lists = vec![vec![2, 2], vec![4], vec![2, 2], vec![1, 3], vec![4], vec![2, 2]];
    let t = tally(&lists);
    assert_eq!(t, vec![(vec![1, 3], 1), (vec![2, 2], 3), (vec![4], 2)]);
}

#[test]
fn subtransversal_groups_keep_the_subsquares_with_transversals() {
    let subs = vec![BitSet128::from_slice(&[0, 1, 4, 5]), BitSet128::from_slice(&[10, 11, 14, 15])];
    let ts = vec![BitSet128::from_slice(&[0, 5, 10, 15]), BitSet128::from_slice(&[1, 6, 11, 12])];
    let g = group_subtransversals(&subs, &ts, 2);
    assert_eq!(g.len(), 2);
    assert_eq!(g[0].1, vec![ts[0]]);
    assert_eq!(g[1].1, vec![ts[0]]);
    let g1 = group_subtransversals(&subs, &ts, 1);
    assert_eq!(g1.len(), 2);
    assert_eq!(g1[0].1, vec![ts[1]]);
    assert_eq!(g1[1].1, vec![ts[1]]);
}

#[test]
fn from_rows_gives_a_complete_square_no_later_than_its_rows() {
    let mut rows = [[0u8; 16]; 4];
    let sq = [[0u8, 1, 2, 3], [1, 3, 0, 2], [2, 0, 3, 1], [3, 2, 1, 0]];
    for i in 0..4 {
        rows[i][..4].copy_from_slice(&sq[i]);
    }
    let id = PermutationSimd::from_array(4, [0, 1, 2, 3, 4, 5, 6, 7, 8, 9, 10, 11, 12, 13, 14, 15]);
    let lookup = vec![vec![(id.clone(), id.clone())], vec![(id.clone(), id)]];
    let r = RowPartialLatinSquare::<4>::from_rows(rows, &lookup);
    assert!(r.is_complete());
    for j in 0..4 {
        assert!(r.get_col_mask(j).is_empty());
    }
    let mut got = Vec::new();
    let mut given = Vec::new();
    for i in 0..4 {
        got.push(r.get_row(i)[..4].to_vec());
        given.push(rows[i][..4].to_vec());
    }
    assert!(got <= given);
}

#[test]
fn lookup_searches_agree_with_the_permutation_searches() {
    let sq = square4();
    let (iso, _) = sq.isotopy_class_permutations(&table());
    assert_eq!(sq.isotopy_class_lookup(&table()), iso);
    let main = sq.main_class_lookup(&table());
    assert!(main <= sq);
    assert_eq!(sq.main_class_lookup(&Vec::new()), sq);
}

#[test]
fn normalize_main_class() {
    let lookup = generate_minimize_rows_lookup();

    assert_eq!(
        LatinSquare::new([[0, 1, 2, 3], [1, 3, 0, 2], [2, 0, 3, 1], [3, 2, 1, 0]]).main_class_lookup(&lookup),
        LatinSquare::new([[0, 1, 2, 3], [1, 0, 3, 2], [2, 3, 1, 0], [3, 2, 0, 1]])
    )
}

#[test]
fn table_of_order_4_and_class_searches() {
    let lookup = generate_minimize_rows_lookup::<4>();
    assert_eq!(lookup.len(), 2);
    for list in &lookup {
        assert!(!list.is_empty());
        for (s, c) in list {
            for i in 0..4 {
                assert_eq!(c.apply(s.apply(i)), i);
            }
        }
    }
    let sq = square4();
    let (iso, perms) = sq.isotopy_class_permutations(&lookup);
    for p in &perms {
        assert_eq!(apply(&sq, p), iso);
    }
    assert_eq!(sq.isotopy_class_lookup(&lookup), iso);
    let (main, found) = sq.main_class_permutations(&lookup);
    for (rcs, p) in &found {
        assert_eq!(apply(&sq.permuted_rcs(rcs), p), main);
    }
}

#[test]
fn isotopy_classes_of_the_conjugates() {
    let lookup = generate_minimize_rows_lookup::<4>();
    let count = square4().num_isotopy_classes(&lookup);
    assert!(1 <= count && count <= 6);
    let cyclic = LatinSquare::new([[0, 1, 2, 3], [1, 2, 3, 0], [2, 3, 0, 1], [3, 0, 1, 2]]);
    assert_eq!(cyclic.num_isotopy_classes(&lookup), 1);
}

fn canonical_row<const N: usize>(lens: &[usize]) -> [usize; N] {
    let mut row = [0usize; N];
    let mut start = 0;
    for &len in lens {
        for j in 0..len {
            row[start + j] = start + (j + 1) % len;
        }
        start += len;
    }
    row
}

fn check_table<const N: usize>(types: &[&[usize]], sizes: &[usize]) {
    let lookup = generate_minimize_rows_lookup::<N>();
    assert_eq!(lookup.len(), types.len());
    for (t, list) in lookup.iter().enumerate() {
        let pi = canonical_row::<N>(types[t]);
        assert_eq!(list.len(), sizes[t]);
        for (s, c) in list {
            for x in 0..N {
                assert_eq!(s.apply(pi[x]), pi[s.apply(x)]);
                assert_eq!(c.apply(s.apply(x)), x);
            }
        }
        for w in list.windows(2) {
            assert!(w[0].0.as_array() < w[1].0.as_array());
        }
    }
}

#[test]
fn table_lists_every_renaming_that_commutes() {
    check_table::<4>(&[&[2, 2], &[4]], &[8, 4]);
    check_table::<5>(&[&[2, 3], &[5]], &[6, 5]);
    check_table::<6>(&[&[2, 2, 2], &[2, 4], &[3, 3], &[6]], &[48, 8, 18, 6]);
}
