//! A TikZ picture of partial squares of one order, laid out along the diagonals of a grid.
use vstd::prelude::*;
use crate::latin_square_trait::PartialLatinSquareTrait;
use crate::partial_latin_square_dyn::{PartialLatinSquareDyn, partial_cells_text};
use crate::text::{chars_of, digit_char, to_digit_char, string_from_chars};

verus! {

/// `n` in decimal.
pub open spec fn decimal(n: nat) -> Seq<char>
    decreases n,
{
    if n < 10 {
        seq![digit_char(n as int)]
    } else {
        decimal(n / 10).push(digit_char((n % 10) as int))
    }
}

/// Appends `n` in decimal.
fn push_decimal(out: &mut Vec<char>, n: usize)
    ensures
        final(out)@ == old(out)@ + decimal(n as nat),
    decreases n,
{
    if n >= 10 {
        push_decimal(out, n / 10);
    }
    let d = to_digit_char((n % 10) as u8);
    out.push(d);
    proof {
        if n >= 10 {
            assert(out@ =~= old(out)@ + decimal(n as nat));
        } else {
            assert(out@ =~= old(out)@ + decimal(n as nat));
        }
    }
}

/// Appends the characters of `s`.
fn push_text(out: &mut Vec<char>, s: &str)
    ensures
        final(out)@ == old(out)@ + s@,
{
    let chars = chars_of(s);
    let mut k: usize = 0;
    while k < chars.len()
        invariant
            k <= chars@.len(),
            chars@ == s@,
            out@ == old(out)@ + s@.take(k as int),
        decreases chars@.len() - k,
    {
        out.push(chars[k]);
        k += 1;
        assert(out@ =~= old(out)@ + s@.take(k as int));
    }
    assert(s@.take(k as int) =~= s@);
}

/// Where the picture puts the square after the one at (x, y): the squares fill ever larger
/// square blocks of the grid, block m + 1 adding (0, m), ..., (m - 1, m) and then
/// (m, 0), ..., (m, m) to block m.
pub open spec fn next_tex_position(x: nat, y: nat) -> (nat, nat) {
    if x == y {
        (0, x + 1)
    } else if x < y {
        if x + 1 == y { (x + 1, 0) } else { (x + 1, y) }
    } else {
        (x, y + 1)
    }
}

/// Where the picture puts square `k`.
pub open spec fn tex_position(k: nat) -> (nat, nat)
    decreases k,
{
    if k == 0 {
        (0, 0)
    } else {
        let p = tex_position((k - 1) as nat);
        next_tex_position(p.0, p.1)
    }
}

pub proof fn lemma_tex_position_bound(k: nat)
    ensures
        tex_position(k).0 <= k,
        tex_position(k).1 <= k,
    decreases k,
{
    if k > 0 {
        lemma_tex_position_bound((k - 1) as nat);
    }
}

/// The position after (x, y), as `next_tex_position` gives it.
pub fn next_position(x: usize, y: usize) -> (r: (usize, usize))
    requires
        x < usize::MAX,
        y < usize::MAX,
    ensures
        r.0 as nat == next_tex_position(x as nat, y as nat).0,
        r.1 as nat == next_tex_position(x as nat, y as nat).1,
{
    if x == y {
        (0, x + 1)
    } else if x < y {
        if x + 1 == y { (x + 1, 0) } else { (x + 1, y) }
    } else {
        (x, y + 1)
    }
}

/// The argument list `#1, #2, ..., #k` of the row macro.
pub open spec fn macro_args(k: nat) -> Seq<char>
    decreases k,
{
    if k <= 1 {
        "#1"@
    } else {
        macro_args((k - 1) as nat) + ", #"@ + decimal(k)
    }
}

/// The definition of the row macro for squares of order n.
pub open spec fn makerow_definition(n: nat) -> Seq<char> {
    "        \\newcommand{\\makerow}["@ + decimal(n) + "]{\n        \\setcounter{col}{0}\n        \\foreach \\n in {"@
        + macro_args(n) + "} {\n            \\edef\\x{\\value{col} + 0.5}\n                \\edef\\y{"@ + decimal((n - 1) as nat)
        + ".5 - \\value{row}}\n                \\node[anchor=center] at (\\x, \\y) {\\n};\n                \\stepcounter{col}\n            }\n            \\stepcounter{row}\n        }\n        \\setcounter{row}{0}\n"@
}

/// A cell as an argument of the row macro: its value plus one in braces, or empty braces.
pub open spec fn makerow_cell(c: Option<usize>) -> Seq<char> {
    match c {
        Some(v) => "{"@ + decimal((v + 1) as nat) + "}"@,
        None => "{}"@,
    }
}

/// A filled cell (i, j) of a square of order n as a node; an empty one as nothing.
pub open spec fn node_cell(c: Option<usize>, n: nat, i: int, j: int) -> Seq<char> {
    match c {
        Some(v) => "\\node[anchor=center] at ("@ + decimal(j as nat) + ".5, "@ + decimal((n - i - 1) as nat) + ".5) {"@
            + decimal((v + 1) as nat) + "};"@,
        None => Seq::empty(),
    }
}

/// The first `k` cells of row `i`, each as the row macro or the node form asks.
pub open spec fn row_cells_text(sq: PartialLatinSquareDyn, i: int, k: nat) -> Seq<char>
    decreases k,
{
    if k == 0 {
        Seq::empty()
    } else {
        row_cells_text(sq, i, (k - 1) as nat) + if sq.size() <= 9 {
            makerow_cell(sq.cell(i, k - 1))
        } else {
            node_cell(sq.cell(i, k - 1), sq.size() as nat, i, k - 1)
        }
    }
}

/// The line of row `i`.
pub open spec fn row_line(sq: PartialLatinSquareDyn, i: int) -> Seq<char> {
    if sq.size() <= 9 {
        "        \\makerow"@ + row_cells_text(sq, i, sq.size() as nat) + "\n"@
    } else {
        row_cells_text(sq, i, sq.size() as nat) + "\n"@
    }
}

/// The lines of the first `k` rows.
pub open spec fn rows_text(sq: PartialLatinSquareDyn, k: nat) -> Seq<char>
    decreases k,
{
    if k == 0 {
        Seq::empty()
    } else {
        rows_text(sq, (k - 1) as nat) + row_line(sq, k - 1)
    }
}

/// The scope that draws one square at position (x, y) of the grid of squares, after a
/// comment line with its cells.
pub open spec fn scope_text(sq: PartialLatinSquareDyn, x: nat, y: nat) -> Seq<char> {
    let n = sq.size() as nat;
    "% "@ + partial_cells_text(sq.flat()) + "\n    \\begin{scope}[xshift = "@ + decimal(x * (n + 1)) + "cm, yshift = "@
        + decimal(y * (n + 1)) + "cm]\n        \\draw (0, 0) grid ("@ + decimal(n) + ", "@ + decimal(n) + ");\n"@
        + (if n <= 9 { makerow_definition(n) } else { Seq::empty() }) + rows_text(sq, n) + "    \\end{scope}\n"@
}

/// The scopes of the first `k` squares, each at its position.
pub open spec fn scopes_text(sqs: Seq<PartialLatinSquareDyn>, k: nat) -> Seq<char>
    decreases k,
{
    if k == 0 {
        Seq::empty()
    } else {
        scopes_text(sqs, (k - 1) as nat) + scope_text(sqs[k - 1], tex_position((k - 1) as nat).0, tex_position((k - 1) as nat).1)
    }
}

/// Every square has the order of the first.
pub open spec fn same_orders(sqs: Seq<PartialLatinSquareDyn>) -> bool {
    forall|k: int| 0 <= k < sqs.len() ==> #[trigger] sqs[k].size() == sqs[0].size()
}

/// Every filled cell holds a value below 10, so that it is written as one digit.
pub open spec fn digit_entries(sq: PartialLatinSquareDyn) -> bool {
    forall|k: int| 0 <= k < sq.flat().len() && #[trigger] sq.flat()[k] is Some ==> sq.flat()[k]->0 < 10
}

/// Appends the lines of the rows of `sq`.
fn push_rows(out: &mut Vec<char>, sq: &PartialLatinSquareDyn)
    ensures
        final(out)@ == old(out)@ + rows_text(*sq, sq.size() as nat),
{
    let n = sq.n();
    let mut i: usize = 0;
    while i < n
        invariant
            i <= n,
            n == sq.size(),
            out@ == old(out)@ + rows_text(*sq, i as nat),
        decreases n - i,
    {
        let ghost before = out@;
        if n <= 9 {
            push_text(out, "        \\makerow");
        }
        let ghost mid = out@;
        let mut j: usize = 0;
        while j < n
            invariant
                j <= n,
                i < n,
                n == sq.size(),
                out@ == mid + row_cells_text(*sq, i as int, j as nat),
            decreases n - j,
        {
            let c = sq.get_partial(i, j);
            if n <= 9 {
                match c {
                    Some(v) => {
                        push_text(out, "{");
                        push_decimal(out, v + 1);
                        push_text(out, "}");
                    },
                    None => {
                        push_text(out, "{}");
                    },
                }
            } else {
                match c {
                    Some(v) => {
                        push_text(out, "\\node[anchor=center] at (");
                        push_decimal(out, j);
                        push_text(out, ".5, ");
                        push_decimal(out, n - i - 1);
                        push_text(out, ".5) {");
                        push_decimal(out, v + 1);
                        push_text(out, "};");
                    },
                    None => {},
                }
            }
            proof {
                assert(out@ =~= mid + row_cells_text(*sq, i as int, (j + 1) as nat));
            }
            j += 1;
        }
        push_text(out, "\n");
        proof {
            assert(out@ =~= old(out)@ + rows_text(*sq, (i + 1) as nat));
        }
        i += 1;
    }
}

/// Appends the definition of the row macro for squares of order n.
fn push_makerow_definition(out: &mut Vec<char>, n: usize)
    requires
        n >= 1,
    ensures
        final(out)@ == old(out)@ + makerow_definition(n as nat),
{
    push_text(out, "        \\newcommand{\\makerow}[");
    push_decimal(out, n);
    push_text(out, "]{\n        \\setcounter{col}{0}\n        \\foreach \\n in {");
    let ghost base = out@;
    push_text(out, "#1");
    let mut k: usize = 1;
    while k < n
        invariant
            1 <= k <= n,
            out@ == base + macro_args(k as nat),
        decreases n - k,
    {
        push_text(out, ", #");
        push_decimal(out, k + 1);
        k += 1;
        assert(out@ =~= base + macro_args(k as nat));
    }
    push_text(out, "} {\n            \\edef\\x{\\value{col} + 0.5}\n                \\edef\\y{");
    push_decimal(out, n - 1);
    push_text(out, ".5 - \\value{row}}\n                \\node[anchor=center] at (\\x, \\y) {\\n};\n                \\stepcounter{col}\n            }\n            \\stepcounter{row}\n        }\n        \\setcounter{row}{0}\n");
    assert(out@ =~= old(out)@ + makerow_definition(n as nat));
}

/// Appends the scope of one square at position (x, y).
#[verifier::rlimit(30)]
fn push_scope(out: &mut Vec<char>, sq: &PartialLatinSquareDyn, x: usize, y: usize)
    requires
        digit_entries(*sq),
        1 <= sq.size() < usize::MAX,
        x * (sq.size() + 1) <= usize::MAX,
        y * (sq.size() + 1) <= usize::MAX,
    ensures
        final(out)@ == old(out)@ + scope_text(*sq, x as nat, y as nat),
{
    let n = sq.n();
    push_text(out, "% ");
    let text = sq.to_text();
    push_text(out, text.as_str());
    push_text(out, "\n    \\begin{scope}[xshift = ");
    push_decimal(out, x * (n + 1));
    push_text(out, "cm, yshift = ");
    push_decimal(out, y * (n + 1));
    push_text(out, "cm]\n        \\draw (0, 0) grid (");
    push_decimal(out, n);
    push_text(out, ", ");
    push_decimal(out, n);
    push_text(out, ");\n");
    let ghost before = out@;
    if n <= 9 {
        push_makerow_definition(out, n);
    }
    proof {
        assert(out@ =~= before + (if n <= 9 { makerow_definition(n as nat) } else { Seq::empty() }));
    }
    push_rows(out, sq);
    push_text(out, "    \\end{scope}\n");
    assert(out@ =~= old(out)@ + scope_text(*sq, x as nat, y as nat));
}

/// The scope that draws the square `sq` at position (x, y) of the grid of squares, after a
/// comment line with its cells.
pub fn tex_scope(sq: &PartialLatinSquareDyn, x: usize, y: usize) -> (r: String)
    requires
        digit_entries(*sq),
        1 <= sq.size() < usize::MAX,
        x * (sq.size() + 1) <= usize::MAX,
        y * (sq.size() + 1) <= usize::MAX,
    ensures
        r@ == scope_text(*sq, x as nat, y as nat),
{
    let mut out: Vec<char> = Vec::new();
    push_scope(&mut out, sq, x, y);
    assert(out@ =~= scope_text(*sq, x as nat, y as nat));
    string_from_chars(out)
}

/// What comes before the squares: the document's preamble when `standalone`, then the
/// opening of the picture.
pub open spec fn tex_opening_text(standalone: bool) -> Seq<char> {
    (if standalone {
        "\\documentclass[preview]{standalone}\n\\usepackage{tikz}\n\\newcounter{row}\n\\newcounter{col}\n\\begin{document}\n"@
    } else {
        Seq::empty()
    }) + "\\begin{tikzpicture}[scale=0.5]\n"@
}

/// What comes after the squares: the end of the picture, then of the document when
/// `standalone`.
pub open spec fn tex_closing_text(standalone: bool) -> Seq<char> {
    "\\end{tikzpicture}\n"@ + (if standalone { "\\end{document}\n"@ } else { Seq::empty() })
}

fn push_opening(out: &mut Vec<char>, standalone: bool)
    ensures
        final(out)@ == old(out)@ + tex_opening_text(standalone),
{
    if standalone {
        push_text(out, "\\documentclass[preview]{standalone}\n\\usepackage{tikz}\n\\newcounter{row}\n\\newcounter{col}\n\\begin{document}\n");
    }
    let ghost mid = out@;
    push_text(out, "\\begin{tikzpicture}[scale=0.5]\n");
    assert(out@ =~= old(out)@ + tex_opening_text(standalone));
}

fn push_closing(out: &mut Vec<char>, standalone: bool)
    ensures
        final(out)@ == old(out)@ + tex_closing_text(standalone),
{
    push_text(out, "\\end{tikzpicture}\n");
    if standalone {
        push_text(out, "\\end{document}\n");
    }
    assert(out@ =~= old(out)@ + tex_closing_text(standalone));
}

/// The text before the squares.
pub fn tex_opening(standalone: bool) -> (r: String)
    ensures
        r@ == tex_opening_text(standalone),
{
    let mut out: Vec<char> = Vec::new();
    push_opening(&mut out, standalone);
    assert(out@ =~= tex_opening_text(standalone));
    string_from_chars(out)
}

/// The text after the squares.
pub fn tex_closing(standalone: bool) -> (r: String)
    ensures
        r@ == tex_closing_text(standalone),
{
    let mut out: Vec<char> = Vec::new();
    push_closing(&mut out, standalone);
    assert(out@ =~= tex_closing_text(standalone));
    string_from_chars(out)
}

/// The TikZ picture of the squares, each in a scope of its own at its place in the grid of
/// squares, with the document around it when `standalone`; `None` when their orders differ.
pub fn tex_picture(squares: &Vec<PartialLatinSquareDyn>, standalone: bool) -> (r: Option<String>)
    requires
        forall|k: int| 0 <= k < squares@.len() ==> digit_entries(#[trigger] squares@[k]) && 1 <= squares@[k].size()
            && squares@.len() * (squares@[k].size() + 1) <= usize::MAX,
    ensures
        r is Some <==> same_orders(squares@),
        r matches Some(s) ==> s@ == tex_opening_text(standalone) + scopes_text(squares@, squares@.len()) + tex_closing_text(standalone),
{
    let mut k: usize = 0;
    while k < squares.len()
        invariant
            k <= squares@.len(),
            forall|j: int| 0 <= j < k ==> #[trigger] squares@[j].size() == squares@[0].size(),
        decreases squares@.len() - k,
    {
        if squares[k].n() != squares[0].n() {
            return None;
        }
        k += 1;
    }
    let mut out: Vec<char> = Vec::new();
    push_opening(&mut out, standalone);
    let ghost base = out@;
    let mut x: usize = 0;
    let mut y: usize = 0;
    let mut k: usize = 0;
    while k < squares.len()
        invariant
            k <= squares@.len(),
            forall|j: int| 0 <= j < squares@.len() ==> digit_entries(#[trigger] squares@[j]) && 1 <= squares@[j].size()
                && squares@.len() * (squares@[j].size() + 1) <= usize::MAX,
            out@ == base + scopes_text(squares@, k as nat),
            x as nat == tex_position(k as nat).0,
            y as nat == tex_position(k as nat).1,
        decreases squares@.len() - k,
    {
        proof {
            lemma_tex_position_bound(k as nat);
            let sz = squares@[k as int].size();
            assert(x * (sz + 1) <= squares@.len() * (sz + 1)) by (nonlinear_arith)
                requires x <= k, k < squares@.len();
            assert(y * (sz + 1) <= squares@.len() * (sz + 1)) by (nonlinear_arith)
                requires y <= k, k < squares@.len();
            assert(sz + 1 <= squares@.len() * (sz + 1)) by (nonlinear_arith)
                requires k < squares@.len();
        }
        push_scope(&mut out, &squares[k], x, y);
        let (nx, ny) = next_position(x, y);
        x = nx;
        y = ny;
        k += 1;
        assert(out@ =~= base + scopes_text(squares@, k as nat));
    }
    push_closing(&mut out, standalone);
    assert(out@ =~= tex_opening_text(standalone) + scopes_text(squares@, squares@.len()) + tex_closing_text(standalone));
    Some(string_from_chars(out))
}

/// The number of positions that come before (x, y): the m * m of the block of side m =
/// max(x, y), then (0, m), ..., (x - 1, m) when x < y, or all m of those and (m, 0), ...,
/// (m, y - 1) when x >= y.
pub open spec fn tex_rank(x: nat, y: nat) -> nat {
    if x < y { y * y + x } else { x * x + x + y }
}

/// The position after (x, y) comes right after it in that count.
proof fn lemma_tex_rank_next(x: nat, y: nat)
    ensures
        tex_rank(next_tex_position(x, y).0, next_tex_position(x, y).1) == tex_rank(x, y) + 1,
{
    if x == y {
        assert((x + 1) * (x + 1) == x * x + x + x + 1) by (nonlinear_arith);
    } else if x < y {
        if x + 1 == y {
            assert(y * y + x + 1 == y * y + y);
        }
    }
}

/// Square k of a picture has exactly k positions before it: the picture places its squares
/// at the positions of the grid in that count, one after the other.
pub proof fn lemma_tex_position_rank(k: nat)
    ensures
        tex_rank(tex_position(k).0, tex_position(k).1) == k,
    decreases k,
{
    if k > 0 {
        lemma_tex_position_rank((k - 1) as nat);
        let p = tex_position((k - 1) as nat);
        lemma_tex_rank_next(p.0, p.1);
    }
}

/// No two squares of a picture share a place in the grid.
pub proof fn lemma_tex_positions_distinct(k1: nat, k2: nat)
    requires
        k1 != k2,
    ensures
        tex_position(k1) != tex_position(k2),
{
    lemma_tex_position_rank(k1);
    lemma_tex_position_rank(k2);
}

/// Every place of the grid holds a square of a large enough picture: the one whose rank it is.
pub proof fn lemma_tex_position_onto(x: nat, y: nat)
    ensures
        tex_position(tex_rank(x, y)) == (x, y),
{
    let k = tex_rank(x, y);
    let p = tex_position(k);
    lemma_tex_position_rank(k);
    lemma_tex_rank_injective(p.0, p.1, x, y);
}

/// Different places have different ranks.
proof fn lemma_tex_rank_injective(a: nat, b: nat, x: nat, y: nat)
    requires
        tex_rank(a, b) == tex_rank(x, y),
    ensures
        a == x && b == y,
{
    let m1 = if a < b { b } else { a };
    let m2 = if x < y { y } else { x };
    // the rank of a place in block side m lies in [m * m, (m + 1) * (m + 1))
    assert(m1 * m1 <= tex_rank(a, b) < (m1 + 1) * (m1 + 1)) by (nonlinear_arith)
        requires
            m1 == (if a < b { b } else { a }),
            tex_rank(a, b) == (if a < b { b * b + a } else { a * a + a + b }),
    ;
    assert(m2 * m2 <= tex_rank(x, y) < (m2 + 1) * (m2 + 1)) by (nonlinear_arith)
        requires
            m2 == (if x < y { y } else { x }),
            tex_rank(x, y) == (if x < y { y * y + x } else { x * x + x + y }),
    ;
    if m1 < m2 {
        assert((m1 + 1) * (m1 + 1) <= m2 * m2) by (nonlinear_arith)
            requires
                m1 + 1 <= m2,
        ;
    } else if m2 < m1 {
        assert((m2 + 1) * (m2 + 1) <= m1 * m1) by (nonlinear_arith)
            requires
                m2 + 1 <= m1,
        ;
    }
}

} // verus!
