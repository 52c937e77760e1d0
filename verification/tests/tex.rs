use latin_squares::partial_latin_square_dyn::PartialLatinSquareDyn;
use latin_squares::tex::{next_position, tex_closing, tex_opening, tex_picture, tex_scope};

const MAKEROW_2: &str = "        \\newcommand{\\makerow}[2]{
        \\setcounter{col}{0}
        \\foreach \\n in {#1, #2} {
            \\edef\\x{\\value{col} + 0.5}
                \\edef\\y{1.5 - \\value{row}}
                \\node[anchor=center] at (\\x, \\y) {\\n};
                \\stepcounter{col}
            }
            \\stepcounter{row}
        }
        \\setcounter{row}{0}
";

#[test]
fn tex_picture_of_one_small_square() {
    let sq = PartialLatinSquareDyn::try_from_str("0.1.").unwrap();
    let text = tex_picture(&vec![sq], false).unwrap();
    let expected = format!(
        "\\begin{{tikzpicture}}[scale=0.5]
% 0.1.
    \\begin{{scope}}[xshift = 0cm, yshift = 0cm]
        \\draw (0, 0) grid (2, 2);
{MAKEROW_2}        \\makerow{{1}}{{}}
        \\makerow{{2}}{{}}
    \\end{{scope}}
\\end{{tikzpicture}}
"
    );
    assert_eq!(text, expected);
}

#[test]
fn tex_picture_standalone_wraps_document() {
    let sq = PartialLatinSquareDyn::try_from_str("0110").unwrap();
    let text = tex_picture(&vec![sq], true).unwrap();
    assert!(text.starts_with("\\documentclass[preview]{standalone}\n\\usepackage{tikz}\n\\newcounter{row}\n\\newcounter{col}\n\\begin{document}\n\\begin{tikzpicture}[scale=0.5]\n"));
    assert!(text.ends_with("\\end{tikzpicture}\n\\end{document}\n"));
    assert!(text.contains("        \\makerow{1}{2}\n        \\makerow{2}{1}\n"));
}

#[test]
fn tex_picture_refuses_mixed_orders() {
    let a = PartialLatinSquareDyn::try_from_str("0110").unwrap();
    let b = PartialLatinSquareDyn::try_from_str("0........").unwrap();
    assert_eq!(tex_picture(&vec![a, b], false), None);
}

#[test]
fn tex_picture_places_squares_along_diagonals() {
    let squares: Vec<PartialLatinSquareDyn> =
        (0..3).map(|_| PartialLatinSquareDyn::try_from_str("0110").unwrap()).collect();
    let text = tex_picture(&squares, false).unwrap();
    assert!(text.contains("[xshift = 0cm, yshift = 0cm]"));
    assert!(text.contains("[xshift = 0cm, yshift = 3cm]"));
    assert!(text.contains("[xshift = 3cm, yshift = 0cm]"));
}

#[test]
fn tex_positions_fill_diagonals() {
    let mut p = (0, 0);
    let mut seen = vec![p];
    for _ in 0..5 {
        p = next_position(p.0, p.1);
        seen.push(p);
    }
    assert_eq!(seen, vec![(0, 0), (0, 1), (1, 0), (1, 1), (0, 2), (1, 2)]);
}

#[test]
fn tex_scope_of_large_square_uses_nodes() {
    let mut cells = String::from("0");
    cells.push_str(&".".repeat(99));
    let sq = PartialLatinSquareDyn::try_from_str(&cells).unwrap();
    let scope = tex_scope(&sq, 1, 0);
    let mut expected = format!(
        "% {cells}\n    \\begin{{scope}}[xshift = 11cm, yshift = 0cm]\n        \\draw (0, 0) grid (10, 10);\n\\node[anchor=center] at (0.5, 9.5) {{1}};\n"
    );
    for _ in 1..10 {
        expected.push('\n');
    }
    expected.push_str("    \\end{scope}\n");
    assert_eq!(scope, expected);
}

#[test]
fn tex_opening_and_closing() {
    assert_eq!(tex_opening(false), "\\begin{tikzpicture}[scale=0.5]\n");
    assert_eq!(tex_closing(false), "\\end{tikzpicture}\n");
    assert_eq!(tex_closing(true), "\\end{tikzpicture}\n\\end{document}\n");
}
