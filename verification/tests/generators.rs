use latin_squares::latin_square_dyn::LatinSquareDyn;
use latin_squares::latin_square_trait::PartialLatinSquareTrait;
use latin_squares::partial_latin_square_dyn::PartialLatinSquareDyn;
use latin_squares::partial_square_generator::PartialSquareGeneratorDyn;
use latin_squares::random_latin_square_generator::RandomLatinSquareGeneratorDyn;

fn filled_cells(sq: &PartialLatinSquareDyn) -> Vec<usize> {
    let n = sq.n();
    let mut cells = Vec::new();
    for i in 0..n {
        for j in 0..n {
            if sq.get_partial(i, j).is_some() {
                cells.push(i * n + j);
            }
        }
    }
    cells
}

#[test]
fn random_squares_have_the_order_asked_for() {
    let mut gen = RandomLatinSquareGeneratorDyn::new(6, 12345);
    for _ in 0..5 {
        let sq = gen.next().unwrap();
        assert_eq!(sq.n(), 6);
        assert!(LatinSquareDyn::from_boxed_slice(sq.values().to_vec()).is_some());
    }
}

#[test]
fn random_squares_follow_the_seed() {
    let mut a = RandomLatinSquareGeneratorDyn::new(7, 99);
    let mut b = RandomLatinSquareGeneratorDyn::new(7, 99);
    for _ in 0..3 {
        let x = a.next().unwrap();
        let y = b.next().unwrap();
        assert!(x.same_as(&y));
    }
}

#[test]
fn no_entries_gives_the_empty_square_once() {
    let sq = LatinSquareDyn::try_from_str("0110").unwrap();
    let mut gen = PartialSquareGeneratorDyn::new(sq, 0);
    let first = gen.next().unwrap();
    assert_eq!(first.num_entries(), 0);
    assert!(gen.next().is_none());
}

#[test]
fn single_entries_in_reading_order() {
    let sq = LatinSquareDyn::try_from_str("0110").unwrap();
    let mut gen = PartialSquareGeneratorDyn::new(sq.clone(), 1);
    for cell in 0..4 {
        let p = gen.next().unwrap();
        assert_eq!(filled_cells(&p), vec![cell]);
        assert_eq!(p.get_partial(cell / 2, cell % 2), Some(sq.get_partial(cell / 2, cell % 2).unwrap()));
    }
    assert!(gen.next().is_none());
}

#[test]
fn pairs_of_entries() {
    let sq = LatinSquareDyn::try_from_str("0110").unwrap();
    let mut gen = PartialSquareGeneratorDyn::new(sq, 2);
    let mut seen = Vec::new();
    while let Some(p) = gen.next() {
        seen.push(filled_cells(&p));
    }
    assert_eq!(seen, vec![vec![0, 1], vec![0, 2], vec![0, 3], vec![1, 3]]);
}

#[test]
fn entries_added_to_a_partial_square() {
    let sq = LatinSquareDyn::try_from_str("012120201").unwrap();
    let partial = PartialLatinSquareDyn::try_from_str("0........").unwrap();
    let mut gen = PartialSquareGeneratorDyn::new_partial(sq.clone(), partial, 2);
    let mut count = 0;
    while let Some(p) = gen.next() {
        let cells = filled_cells(&p);
        assert_eq!(cells.len(), 2);
        assert_eq!(cells[0], 0);
        for c in cells {
            assert_eq!(p.get_partial(c / 3, c % 3), sq.get_partial(c / 3, c % 3));
        }
        count += 1;
    }
    assert_eq!(count, 8);
}

#[test]
fn differences_of_the_cyclic_square_of_order_3() {
    let sq = LatinSquareDyn::try_from_str("012120201").unwrap();
    let bits: Vec<u128> = sq.differences().iter().map(|s| s.bits()).collect();
    assert_eq!(bits, vec![0x3f, 0xdb, 0xf5, 0x15e, 0x16d, 0x1ab, 0x1b6, 0x1c7, 0x1f8]);
}

#[test]
fn differences_of_the_cyclic_square_of_order_4() {
    let sq = LatinSquareDyn::try_from_str("0123123023013012").unwrap();
    let sets = sq.differences();
    assert_eq!(sets.len(), 64);
    let first: Vec<u128> = sets.iter().take(6).map(|s| s.bits()).collect();
    assert_eq!(first, vec![0x505, 0xa0a, 0x5050, 0xa0a0, 0xff, 0xff0]);
    for a in 0..sets.len() {
        for b in 0..sets.len() {
            if a != b {
                assert!(!sets[a].is_subset_of(sets[b]));
            }
        }
    }
}

#[test]
fn squares_below_order_3_have_no_differences() {
    let sq = LatinSquareDyn::try_from_str("0110").unwrap();
    assert!(sq.differences().is_empty());
}
