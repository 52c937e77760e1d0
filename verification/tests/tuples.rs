use latin_squares::tuple_iterator::{TupleIterator, TupleIteratorDyn};

#[test]
fn test_4_2() {
    let mut iter = TupleIterator::new(4);

    assert_eq!(iter.next(), Some([0, 1]));
    assert_eq!(iter.next(), Some([0, 2]));
    assert_eq!(iter.next(), Some([0, 3]));
    assert_eq!(iter.next(), Some([1, 2]));
    assert_eq!(iter.next(), Some([1, 3]));
    assert_eq!(iter.next(), Some([2, 3]));
    assert_eq!(iter.next(), None);
}

#[test]
fn test_3_3() {
    let mut iter = TupleIterator::new(3);

    assert_eq!(iter.next(), Some([0, 1, 2]));
    assert_eq!(iter.next(), None);
}

#[test]
fn test_3_2() {
    let mut iter = TupleIterator::new(3);

    assert_eq!(iter.next(), Some([0, 1]));
    assert_eq!(iter.next(), Some([0, 2]));
    assert_eq!(iter.next(), Some([1, 2]));
    assert_eq!(iter.next(), None);
}

#[test]
fn dyn_tuples_of_five_choose_three() {
    let mut iter = TupleIteratorDyn::new(5, 3);
    let mut count = 0;
    let mut last = Vec::new();
    while let Some(t) = iter.next() {
        assert!(t.windows(2).all(|w| w[0] < w[1]));
        last = t;
        count += 1;
    }
    assert_eq!(count, 10);
    assert_eq!(last, vec![2, 3, 4]);
}

#[test]
fn row_partial_latin_square_test() {}
