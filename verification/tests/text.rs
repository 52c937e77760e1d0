use latin_squares::latin_square::LatinSquare;
use latin_squares::latin_square_dyn::LatinSquareDyn;
use latin_squares::mols::Mols;
use latin_squares::partial_latin_square_dyn::PartialLatinSquareDyn;

#[test]
fn square_text_is_hexadecimal() {
    let mut rows = [[0u8; 12]; 12];
    for i in 0..12 {
        for j in 0..12 {
            rows[i][j] = ((i + j) % 12) as u8;
        }
    }
    let sq = LatinSquare::new(rows);
    let text = sq.to_text();
    assert_eq!(&text[0..12], "0123456789ab");
    assert_eq!(LatinSquare::<12>::try_from_str(&text), Ok(sq));
}

#[test]
fn square_text_round_trip() {
    let sq = LatinSquare::new([[0, 1, 2, 3], [1, 0, 3, 2], [2, 3, 0, 1], [3, 2, 1, 0]]);
    assert_eq!(sq.to_text(), "0123103223013210");
    assert_eq!(LatinSquare::<4>::try_from_str(&sq.to_text()), Ok(sq));
}

#[test]
fn dyn_square_text_round_trip() {
    let sq = LatinSquareDyn::try_from_str("012120201").unwrap();
    assert_eq!(sq.to_text(), "012120201");
    assert!(LatinSquareDyn::try_from_str(&sq.to_text()).unwrap().same_as(&sq));
}

#[test]
fn partial_square_text_round_trip() {
    let sq = PartialLatinSquareDyn::try_from_str("01.12....").unwrap();
    assert_eq!(sq.to_text(), "01.12....");
    assert_eq!(PartialLatinSquareDyn::try_from_str(&sq.to_text()).unwrap().to_text(), "01.12....");
}

#[test]
fn set_text_joins_with_dashes() {
    let text = "012120201-012201120";
    let mols = Mols::<3>::try_from_str(text).unwrap();
    assert_eq!(mols.to_text(), text);
    assert_eq!(Mols::<3>::new_unchecked(vec![]).to_text(), "");
}
