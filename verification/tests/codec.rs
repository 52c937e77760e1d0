use latin_squares::codec::{decode_sq, encode_sq, row_size, try_decode_sq};
use latin_squares::latin_square::LatinSquare;
use latin_squares::latin_square_generator::LatinSquareGenerator;

fn split_rows<const N: usize>(bytes: &[u8], rows: usize) -> [[u8; 8]; N] {
    let size = row_size::<N>();
    let mut buffer = [[0u8; 8]; N];
    for r in 0..rows {
        buffer[r][..size].copy_from_slice(&bytes[r * size..(r + 1) * size]);
    }
    buffer
}

#[test]
fn row_sizes() {
    assert_eq!(row_size::<2>(), 0);
    assert_eq!(row_size::<3>(), 1);
    assert_eq!(row_size::<4>(), 1);
    assert_eq!(row_size::<5>(), 1);
    assert_eq!(row_size::<6>(), 2);
    assert_eq!(row_size::<7>(), 2);
    assert_eq!(row_size::<8>(), 3);
    assert_eq!(row_size::<10>(), 4);
}

#[test]
fn encode_first_square() {
    let sq = LatinSquare::new([[0, 1, 2, 3], [1, 0, 3, 2], [2, 3, 0, 1], [3, 2, 1, 0]]);
    let mut buffer = Vec::new();
    encode_sq(sq, None, &mut buffer);
    // no shared rows; rows 0, 1 and 2 coded in one byte each (base 3 digits of cells 1 and 2)
    // row 0: digits 0, 1 -> 1; row 1: 0, 2 -> 2; row 2: 2, 0 -> 6
    assert_eq!(buffer, vec![0, 1, 2, 6]);
}

#[test]
fn round_trip_all_reduced_squares_of_order_5() {
    let mut generator = LatinSquareGenerator::<5>::new();
    let mut prev: Option<LatinSquare<5>> = None;
    let mut count = 0;
    while let Some(sq) = generator.next() {
        let mut bytes = Vec::new();
        encode_sq(sq, prev, &mut bytes);
        let same = bytes[0] as usize;
        let rows = 5 - 1 - same;
        assert_eq!(bytes.len(), 1 + rows * row_size::<5>());
        let buffer = split_rows::<5>(&bytes[1..], rows);
        let decoded = decode_sq(prev.as_ref(), same, &buffer);
        assert_eq!(decoded, sq);
        prev = Some(sq);
        count += 1;
    }
    assert_eq!(count, 56);
}

#[test]
fn checked_decoding_accepts_what_was_encoded() {
    let sq = LatinSquare::new([[0, 1, 2, 3], [1, 0, 3, 2], [2, 3, 0, 1], [3, 2, 1, 0]]);
    let mut bytes = Vec::new();
    encode_sq(sq, None, &mut bytes);
    let buffer = split_rows::<4>(&bytes[1..], 3);
    assert_eq!(try_decode_sq(None, 0, &buffer), Some(sq));
}

#[test]
fn checked_decoding_refuses_bad_input() {
    let sq = LatinSquare::new([[0, 1, 2, 3], [1, 0, 3, 2], [2, 3, 0, 1], [3, 2, 1, 0]]);
    let buffer = [[0u8; 8]; 4];
    // rows shared with a square that is not there
    assert_eq!(try_decode_sq::<4>(None, 1, &buffer), None);
    // more shared rows than the order allows
    assert_eq!(try_decode_sq(Some(&sq), 4, &buffer), None);
    // every row coded as 0: row 0 would start 0 1 1, repeating a value
    assert_eq!(try_decode_sq::<4>(None, 0, &[[0u8; 8]; 4]), None);
}
