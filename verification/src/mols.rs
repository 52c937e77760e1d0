//! Sets of mutually orthogonal Latin squares.
use vstd::prelude::*;
use vstd::utf8::encode_utf8;
use vstd::string::StringSliceAdditionalSpecFns;
use crate::latin_square::{LatinSquare, Error as SquareError, seq_has, are_orthogonal, is_latin, grid_less, digit_grid, is_square_text, square_text_error, square_text_outcome, square_text, lemma_text_round_trip};
use crate::permutation::Permutation;

use crate::text::{chars_of, char_width, lemma_encode_push, string_from_chars};

verus! {

/// The grids of a list of squares.
pub open spec fn grids_of<const N: usize>(sqs: Seq<LatinSquare<N>>) -> Seq<Seq<Seq<u8>>> {
    sqs.map_values(|sq: LatinSquare<N>| sq@)
}

/// Every two of the grids are orthogonal.
pub open spec fn mutually_orthogonal(g: Seq<Seq<Seq<u8>>>, n: nat) -> bool {
    forall|i: int, j: int| 0 <= i < j < g.len() ==> #[trigger] are_orthogonal(g[i], g[j], n)
}

/// (a, b) comes before (i, j) in lexicographic order.
pub open spec fn pair_before(a: int, b: int, i: int, j: int) -> bool {
    a < i || (a == i && b < j)
}

/// Grids i and j are the first pair, in lexicographic order, that is not orthogonal.
pub open spec fn first_clash(g: Seq<Seq<Seq<u8>>>, n: nat, i: int, j: int) -> bool {
    &&& 0 <= i < j < g.len()
    &&& !are_orthogonal(g[i], g[j], n)
    &&& forall|a: int, b: int| 0 <= a < b < g.len() && pair_before(a, b, i, j)
        ==> #[trigger] are_orthogonal(g[a], g[b], n)
}

/// `a` comes before `b`: they agree on the first grids and at the first grid where they
/// differ, `a`'s comes first in reading order.
pub open spec fn sets_less(a: Seq<Seq<Seq<u8>>>, b: Seq<Seq<Seq<u8>>>, n: nat) -> bool {
    exists|k: int| 0 <= k < a.len() && (forall|m: int| 0 <= m < k ==> #[trigger] a[m] == b[m])
        && #[trigger] grid_less(a[k], b[k], n)
}

/// A list of Latin squares of order N, meant to be mutually orthogonal.
#[derive(Clone, Debug, PartialEq, Eq, Hash)]
pub struct Mols<const N: usize> {
    sqs: Vec<LatinSquare<N>>,
}

impl<const N: usize> View for Mols<N> {
    type V = Seq<Seq<Seq<u8>>>;

    closed spec fn view(&self) -> Seq<Seq<Seq<u8>>> {
        grids_of(self.sqs@)
    }
}

/// The renaming of values that sends the value at position c of `row` to p[c].
fn reducing_renaming<const N: usize>(row: &[u8; N], p: &Permutation<N>) -> (r: Permutation<N>)
    requires
        forall|c: int| 0 <= c < N ==> #[trigger] row@[c] < N,
        forall|c: int, d: int| 0 <= c < N && 0 <= d < N && c != d ==> #[trigger] row@[c] != #[trigger] row@[d],
        forall|v: int| 0 <= v < N ==> #[trigger] seq_has(row@, v),
    ensures
        forall|c: int| 0 <= c < N ==> #[trigger] r@[row@[c] as int] == p@[c],
{
    proof {
        use_type_invariant(p);
        Permutation::lemma_wf(p);
    }
    let mut renaming = [0usize; N];
    let mut c: usize = 0;
    while c < N
        invariant
            c <= N,
            forall|k: int| 0 <= k < N ==> #[trigger] row@[k] < N,
            forall|k: int, d: int| 0 <= k < N && 0 <= d < N && k != d ==> #[trigger] row@[k] != #[trigger] row@[d],
            forall|k: int| 0 <= k < c ==> #[trigger] renaming@[row@[k] as int] == p@[k],
        decreases N - c,
    {
        renaming[row[c] as usize] = p.apply(c);
        proof {
            assert forall|k: int| 0 <= k < c + 1 implies #[trigger] renaming@[row@[k] as int] == p@[k] by {
                if k < c {
                    assert(row@[k] != row@[c as int]);
                }
            }
        }
        c += 1;
    }
    proof {
        assert forall|v: int| 0 <= v < N implies #[trigger] renaming@[v] < N by {
            assert(seq_has(row@, v));
            let k = choose|k: int| 0 <= k < row@.len() && #[trigger] row@[k] as int == v;
            assert(renaming@[row@[k] as int] == p@[k]);
        }
        assert forall|v: int, w: int| 0 <= v < N && 0 <= w < N && v != w implies #[trigger] renaming@[v] != #[trigger] renaming@[w] by {
            assert(seq_has(row@, v));
            assert(seq_has(row@, w));
            let k = choose|k: int| 0 <= k < row@.len() && #[trigger] row@[k] as int == v;
            let l = choose|l: int| 0 <= l < row@.len() && #[trigger] row@[l] as int == w;
            assert(renaming@[row@[k] as int] == p@[k]);
            assert(renaming@[row@[l] as int] == p@[l]);
            assert(k != l);
        }
    }
    Permutation::from_array(renaming)
}

impl<const N: usize> Mols<N> {
    /// The squares as a set, or the first pair (in lexicographic order) of positions whose
    /// squares are not orthogonal.
    pub fn new(sqs: Vec<LatinSquare<N>>) -> (r: Result<Self, (usize, usize)>)
        requires
            N <= 16,
        ensures
            r is Ok <==> mutually_orthogonal(grids_of(sqs@), N as nat),
            r matches Ok(m) ==> m@ == grids_of(sqs@),
            r matches Err((i, j)) ==> first_clash(grids_of(sqs@), N as nat, i as int, j as int),
    {
        let ghost g = grids_of(sqs@);
        let mut i: usize = 0;
        while i < sqs.len()
            invariant
                N <= 16,
                g == grids_of(sqs@),
                i <= sqs@.len(),
                forall|a: int, b: int| 0 <= a < b < g.len() && a < i ==> #[trigger] are_orthogonal(g[a], g[b], N as nat),
            decreases sqs@.len() - i,
        {
            let mut j: usize = i + 1;
            while j < sqs.len()
                invariant
                    N <= 16,
                    g == grids_of(sqs@),
                    i < j <= sqs@.len() || (i < sqs@.len() && j == i + 1),
                    i < sqs@.len(),
                    forall|a: int, b: int| 0 <= a < b < g.len() && pair_before(a, b, i as int, j as int)
                        ==> #[trigger] are_orthogonal(g[a], g[b], N as nat),
                decreases sqs@.len() - j,
            {
                if !sqs[i].is_orthogonal_to(&sqs[j]) {
                    assert(!are_orthogonal(g[i as int], g[j as int], N as nat));
                    return Err((i, j));
                }
                proof {
                    assert forall|a: int, b: int| 0 <= a < b < g.len() && pair_before(a, b, i as int, j + 1)
                        implies #[trigger] are_orthogonal(g[a], g[b], N as nat) by {
                        if !pair_before(a, b, i as int, j as int) {
                            assert(a == i && b == j);
                        }
                    }
                }
                j += 1;
            }
            proof {
                assert forall|a: int, b: int| 0 <= a < b < g.len() && a < i + 1
                    implies #[trigger] are_orthogonal(g[a], g[b], N as nat) by {
                    assert(pair_before(a, b, i as int, j as int));
                }
            }
            i += 1;
        }
        Ok(Mols { sqs })
    }

    /// The squares as a set, without checking that they are orthogonal.
    pub fn new_unchecked(sqs: Vec<LatinSquare<N>>) -> (r: Self)
        ensures
            r@ == grids_of(sqs@),
    {
        Mols { sqs }
    }

    /// The squares in order.
    pub fn squares(&self) -> (r: &Vec<LatinSquare<N>>)
        ensures
            grids_of(r@) == self@,
    {
        &self.sqs
    }

    /// Moves row i of every square to position p[i].
    pub fn permute_rows(&mut self, permutation: &Permutation<N>)
        ensures
            final(self)@.len() == old(self)@.len(),
            forall|k: int, i: int| 0 <= k < old(self)@.len() && 0 <= i < N
                ==> #[trigger] final(self)@[k][permutation@[i] as int] == old(self)@[k][i],
    {
        let ghost before = self.sqs@;
        let mut k: usize = 0;
        while k < self.sqs.len()
            invariant
                k <= self.sqs@.len() == before.len(),
                forall|m: int| k <= m < before.len() ==> #[trigger] self.sqs@[m] == before[m],
                forall|m: int, i: int| 0 <= m < k && 0 <= i < N
                    ==> #[trigger] self.sqs@[m]@[permutation@[i] as int] == before[m]@[i],
            decreases before.len() - k,
        {
            let mut sq = self.sqs[k];
            sq.permute_rows(permutation);
            self.sqs.set(k, sq);
            k += 1;
        }
    }

    /// Moves column j of every square to position p[j].
    fn permute_cols(&mut self, permutation: &Permutation<N>)
        requires
            N <= 16,
        ensures
            final(self)@.len() == old(self)@.len(),
            forall|k: int, i: int, j: int| 0 <= k < old(self)@.len() && 0 <= i < N && 0 <= j < N
                ==> #[trigger] final(self)@[k][i][permutation@[j] as int] == old(self)@[k][i][j],
    {
        let inverse = permutation.clone().inverse();
        let ghost before = self.sqs@;
        let mut k: usize = 0;
        while k < self.sqs.len()
            invariant
                N <= 16,
                k <= self.sqs@.len() == before.len(),
                forall|i: int| 0 <= i < N ==> #[trigger] inverse@[permutation@[i] as int] == i,
                forall|m: int| k <= m < before.len() ==> #[trigger] self.sqs@[m] == before[m],
                forall|m: int, i: int, j: int| 0 <= m < k && 0 <= i < N && 0 <= j < N
                    ==> #[trigger] self.sqs@[m]@[i][permutation@[j] as int] == before[m]@[i][j],
            decreases before.len() - k,
        {
            proof {
                use_type_invariant(permutation);
                Permutation::lemma_wf(permutation);
            }
            let mut sq = self.sqs[k];
            sq.permute_cols_simd(&inverse);
            proof {
                assert forall|i: int, j: int| 0 <= i < N && 0 <= j < N
                    implies #[trigger] sq@[i][permutation@[j] as int] == before[k as int]@[i][j] by {
                    assert(permutation@[j] < N);
                    assert(inverse@[permutation@[j] as int] == j);
                }
            }
            self.sqs.set(k, sq);
            k += 1;
        }
    }

    /// Renames the values of every square so that its first row reads 0, 1, ..., N - 1.
    fn reduce_all_sqs(&mut self)
        requires
            1 <= N <= 16,
        ensures
            final(self)@.len() == old(self)@.len(),
            forall|k: int, i: int, j: int, d: int|
                #![trigger final(self)@[k][i][j], old(self)@[k][0][d]]
                0 <= k < old(self)@.len() && 0 <= i < N && 0 <= j < N && 0 <= d < N
                && old(self)@[k][0][d] == old(self)@[k][i][j] ==> final(self)@[k][i][j] as int == d,
    {
        let identity = Permutation::<N>::identity();
        let ghost before = self.sqs@;
        let mut k: usize = 0;
        while k < self.sqs.len()
            invariant
                1 <= N <= 16,
                k <= self.sqs@.len() == before.len(),
                forall|c: int| 0 <= c < N ==> #[trigger] identity@[c] as int == c,
                forall|m: int| k <= m < before.len() ==> #[trigger] self.sqs@[m] == before[m],
                forall|m: int, i: int, j: int, d: int|
                    #![trigger self.sqs@[m]@[i][j], before[m]@[0][d]]
                    0 <= m < k && 0 <= i < N && 0 <= j < N && 0 <= d < N
                    && before[m]@[0][d] == before[m]@[i][j] ==> self.sqs@[m]@[i][j] as int == d,
            decreases before.len() - k,
        {
            let mut sq = self.sqs[k];
            proof {
                use_type_invariant(&sq);
                LatinSquare::lemma_latin(&sq);
                assert forall|v: int| 0 <= v < N implies #[trigger] seq_has(sq@[0], v) by {
                    assert(crate::latin_square::row_has(sq@, 0, v));
                }
            }
            let renaming = reducing_renaming(sq.get_row(0), &identity);
            let ghost old_sq = sq@;
            sq.permute_vals_simd(&renaming);
            proof {
                assert forall|i: int, j: int, d: int|
                    #![trigger sq@[i][j], old_sq[0][d]]
                    0 <= i < N && 0 <= j < N && 0 <= d < N
                    && old_sq[0][d] == old_sq[i][j] implies sq@[i][j] as int == d by {
                    assert(renaming@[old_sq[0][d] as int] == identity@[d]);
                }
            }
            self.sqs.set(k, sq);
            k += 1;
        }
    }

    /// Moves column c of every square to position p[c] and renames its values so that its
    /// first row reads 0, 1, ..., N - 1: the value found at position d of the first row
    /// becomes p[d].
    pub fn permute_cols_and_reduce(&mut self, col_permutation: &Permutation<N>)
        requires
            1 <= N <= 16,
        ensures
            final(self)@.len() == old(self)@.len(),
            forall|k: int, i: int, c: int, d: int|
                #![trigger final(self)@[k][i][col_permutation@[c] as int], old(self)@[k][0][d]]
                0 <= k < old(self)@.len() && 0 <= i < N && 0 <= c < N && 0 <= d < N
                && old(self)@[k][0][d] == old(self)@[k][i][c]
                ==> final(self)@[k][i][col_permutation@[c] as int] as int == col_permutation@[d] as int,
    {
        let inverse = col_permutation.clone().inverse();
        let ghost before = self.sqs@;
        let mut k: usize = 0;
        while k < self.sqs.len()
            invariant
                1 <= N <= 16,
                k <= self.sqs@.len() == before.len(),
                forall|i: int| 0 <= i < N ==> #[trigger] inverse@[col_permutation@[i] as int] == i,
                forall|m: int| k <= m < before.len() ==> #[trigger] self.sqs@[m] == before[m],
                forall|m: int, i: int, c: int, d: int|
                    #![trigger self.sqs@[m]@[i][col_permutation@[c] as int], before[m]@[0][d]]
                    0 <= m < k && 0 <= i < N && 0 <= c < N && 0 <= d < N
                    && before[m]@[0][d] == before[m]@[i][c]
                    ==> self.sqs@[m]@[i][col_permutation@[c] as int] as int == col_permutation@[d] as int,
            decreases before.len() - k,
        {
            proof {
                use_type_invariant(col_permutation);
                Permutation::lemma_wf(col_permutation);
            }
            let mut sq = self.sqs[k];
            proof {
                use_type_invariant(&sq);
                LatinSquare::lemma_latin(&sq);
                assert forall|v: int| 0 <= v < N implies #[trigger] seq_has(sq@[0], v) by {
                    assert(crate::latin_square::row_has(sq@, 0, v));
                }
            }
            let renaming = reducing_renaming(sq.get_row(0), col_permutation);
            let ghost old_sq = sq@;
            sq.permute_cols_vals_simd(&inverse, &renaming);
            proof {
                assert forall|i: int, c: int, d: int|
                    #![trigger sq@[i][col_permutation@[c] as int], old_sq[0][d]]
                    0 <= i < N && 0 <= c < N && 0 <= d < N
                    && old_sq[0][d] == old_sq[i][c]
                    implies sq@[i][col_permutation@[c] as int] as int == col_permutation@[d] as int by {
                    assert(col_permutation@[c] < N);
                    assert(inverse@[col_permutation@[c] as int] == c);
                    assert(renaming@[old_sq[0][d] as int] == col_permutation@[d]);
                }
            }
            self.sqs.set(k, sq);
            k += 1;
        }
    }
}

impl<const N: usize> Mols<N> {
    /// -1, 0 or 1 as `self` comes before, equals or comes after `other`: the squares are
    /// compared in order, each in reading order.
    pub fn compare(&self, other: &Self) -> (r: i8)
        requires
            self@.len() == other@.len(),
        ensures
            r == -1 ==> sets_less(self@, other@, N as nat),
            r == 1 ==> sets_less(other@, self@, N as nat),
            r == 0 ==> self@ == other@,
            -1 <= r <= 1,
    {
        let mut k: usize = 0;
        while k < self.sqs.len()
            invariant
                self@.len() == other@.len() == self.sqs@.len() == other.sqs@.len(),
                k <= self.sqs@.len(),
                forall|m: int| 0 <= m < k ==> #[trigger] self@[m] == other@[m],
            decreases self.sqs@.len() - k,
        {
            let c = self.sqs[k].compare(&other.sqs[k]);
            if c != 0 {
                assert(self@[k as int] == self.sqs@[k as int]@ && other@[k as int] == other.sqs@[k as int]@);
                if c < 0 {
                    assert(grid_less(self@[k as int], other@[k as int], N as nat));
                } else {
                    assert(grid_less(other@[k as int], self@[k as int], N as nat));
                    assert(forall|m: int| 0 <= m < k ==> #[trigger] other@[m] == self@[m]);
                }
                return c;
            }
            k += 1;
        }
        assert(self@ =~= other@);
        0
    }
}

/// The character that separates the squares of a set written as text.
pub const SEPARATOR: char = '-';

/// The pieces of `s` between separators, as `str::split` cuts them.
pub open spec fn dash_pieces(s: Seq<char>) -> Seq<Seq<char>>
    decreases s.len(),
{
    if s.len() == 0 {
        seq![Seq::<char>::empty()]
    } else {
        let p = dash_pieces(s.drop_last());
        if s.last() == SEPARATOR {
            p.push(Seq::<char>::empty())
        } else {
            p.update(p.len() - 1, p.last().push(s.last()))
        }
    }
}

/// The number of separators in `s`.
pub open spec fn dash_count(s: Seq<char>) -> nat
    decreases s.len(),
{
    if s.len() == 0 {
        0
    } else {
        dash_count(s.drop_last()) + if s.last() == SEPARATOR { 1nat } else { 0nat }
    }
}

/// The length in bytes of a text of `count + 1` squares of order n and `count` separators.
pub open spec fn set_text_len(count: nat, n: nat) -> int {
    ((count + 1) * n * n + count) as int
}

/// Each of the first `k` pieces writes a Latin square of order n.
pub open spec fn squares_before(pieces: Seq<Seq<char>>, k: int, n: nat) -> bool {
    forall|m: int| 0 <= m < k ==> #[trigger] is_square_text(pieces[m], n)
}

/// The grids that the pieces write.
pub open spec fn piece_grids(pieces: Seq<Seq<char>>, n: nat) -> Seq<Seq<Seq<u8>>> {
    pieces.map_values(|p: Seq<char>| digit_grid(p, n, 16))
}

/// There is one piece more than there are separators.
pub proof fn lemma_pieces_len(s: Seq<char>)
    ensures
        dash_pieces(s).len() == dash_count(s) + 1,
    decreases s.len(),
{
    if s.len() > 0 {
        lemma_pieces_len(s.drop_last());
    }
}

/// Reading further leaves every piece but the last one as it was.
proof fn lemma_pieces_prefix(s: Seq<char>, i: int, j: int)
    requires
        0 <= i <= j <= s.len(),
    ensures
        dash_pieces(s.take(i)).len() <= dash_pieces(s.take(j)).len(),
        forall|m: int| 0 <= m < dash_pieces(s.take(i)).len() - 1
            ==> #[trigger] dash_pieces(s.take(j))[m] == dash_pieces(s.take(i))[m],
    decreases j - i,
{
    if j > i {
        lemma_pieces_prefix(s, i, j - 1);
        assert(s.take(j).drop_last() =~= s.take(j - 1));
        lemma_pieces_len(s.take(j - 1));
    }
}

/// The encoding of a prefix is no longer than the encoding of the whole.
proof fn lemma_encode_take(s: Seq<char>, i: int)
    requires
        0 <= i <= s.len(),
    ensures
        encode_utf8(s.take(i)).len() <= encode_utf8(s).len(),
    decreases s.len() - i,
{
    if i < s.len() {
        lemma_encode_take(s, i + 1);
        assert(s.take(i + 1) =~= s.take(i).push(s[i]));
        lemma_encode_push(s.take(i), s[i]);
    } else {
        assert(s.take(i) =~= s);
    }
}

/// Why text does not describe a set of mutually orthogonal Latin squares.
#[derive(Debug, Clone, Copy, PartialEq, Eq)]
pub enum Error {
    InvalidLength { len: usize, expected: usize },
    InvalidSeparators { count: usize, expected: usize },
    InvalidLatinSquare { index: usize, error: SquareError },
    NotOrthogonal { indices: (usize, usize) },
}

impl<const N: usize> Mols<N> {
    /// Reads squares written as hexadecimal digits and separated by dashes.
    pub fn try_from_str(value: &str) -> (r: Result<Self, Error>)
        requires
            1 <= N <= 16,
            set_text_len(dash_count(value@), N as nat) <= usize::MAX,
        ensures
            value.spec_bytes().len() != set_text_len(dash_count(value@), N as nat) ==> r == Err::<Self, Error>(
                Error::InvalidLength {
                    len: value.spec_bytes().len() as usize,
                    expected: set_text_len(dash_count(value@), N as nat) as usize,
                },
            ),
            value.spec_bytes().len() == set_text_len(dash_count(value@), N as nat) && dash_count(value@) >= N
                ==> r == Err::<Self, Error>(Error::InvalidSeparators {
                    count: dash_count(value@) as usize,
                    expected: (N - 1) as usize,
                }),
            value.spec_bytes().len() == set_text_len(dash_count(value@), N as nat) && dash_count(value@) < N
                ==> match r {
                Ok(m) => squares_before(dash_pieces(value@), dash_pieces(value@).len() as int, N as nat)
                    && m@ == piece_grids(dash_pieces(value@), N as nat) && mutually_orthogonal(m@, N as nat),
                Err(Error::InvalidLatinSquare { index, error }) => index < dash_pieces(value@).len()
                    && squares_before(dash_pieces(value@), index as int, N as nat)
                    && !is_square_text(dash_pieces(value@)[index as int], N as nat)
                    && square_text_error(dash_pieces(value@)[index as int], N as nat, error),
                Err(Error::NotOrthogonal { indices }) => squares_before(dash_pieces(value@), dash_pieces(value@).len() as int, N as nat)
                    && first_clash(piece_grids(dash_pieces(value@), N as nat), N as nat, indices.0 as int, indices.1 as int),
                Err(_) => false,
            },
    {
        let chars = chars_of(value);
        let mut count: usize = 0;
        let mut i: usize = 0;
        while i < chars.len()
            invariant
                i <= chars@.len(),
                count == dash_count(chars@.take(i as int)),
                count <= i,
            decreases chars@.len() - i,
        {
            assert(chars@.take(i + 1).drop_last() =~= chars@.take(i as int));
            if chars[i] == SEPARATOR {
                count += 1;
            }
            i += 1;
        }
        assert(chars@.take(i as int) =~= value@);
        assert(N * N <= 256) by (nonlinear_arith)
            requires
                N <= 16,
        ;
        assert((count + 1) * N * N == count * (N * N) + N * N) by (nonlinear_arith);
        let expected = count * (N * N) + N * N + count;
        let len = value.as_bytes().len();
        if len != expected {
            return Err(Error::InvalidLength { len, expected });
        }
        if count >= N {
            return Err(Error::InvalidSeparators { count, expected: N - 1 });
        }
        let ghost pieces = dash_pieces(value@);
        let mut sqs: Vec<LatinSquare<N>> = Vec::new();
        let mut cur: Vec<char> = Vec::new();
        let mut width: usize = 0;
        let ghost mut done: int = 0;
        i = 0;
        proof {
            assert(chars@.take(0) =~= Seq::<char>::empty());
        }
        while i < chars.len()
            invariant
                1 <= N <= 16,
                chars@ == value@,
                pieces == dash_pieces(value@),
                len == encode_utf8(value@).len(),
                value.spec_bytes().len() == set_text_len(dash_count(value@), N as nat),
                dash_count(value@) < N,
                N * N <= 256,
                i <= chars@.len(),
                dash_pieces(chars@.take(i as int)).len() == sqs@.len() + 1,
                cur@ == dash_pieces(chars@.take(i as int)).last(),
                width == encode_utf8(cur@).len(),
                0 <= done,
                done + width == encode_utf8(chars@.take(i as int)).len(),
                forall|m: int| 0 <= m < sqs@.len() ==> square_text_outcome::<N>(
                    #[trigger] dash_pieces(chars@.take(i as int))[m], Ok(sqs@[m])),
            decreases chars@.len() - i,
        {
            let c = chars[i];
            let ghost before = chars@.take(i as int);
            proof {
                assert(chars@.take(i + 1).drop_last() =~= before);
                assert(chars@.take(i + 1) =~= before.push(c));
                lemma_encode_push(before, c);
                lemma_encode_take(chars@, i + 1);
                lemma_pieces_len(before);
            }
            if c == SEPARATOR {
                let index = sqs.len();
                proof {
                    lemma_pieces_prefix(chars@, i + 1, chars@.len() as int);
                    lemma_pieces_prefix(chars@, i as int, chars@.len() as int);
                    assert(chars@.take(chars@.len() as int) =~= chars@);
                    assert(pieces[index as int] == cur@);
                    assert forall|m: int| 0 <= m < index implies #[trigger] is_square_text(pieces[m], N as nat) by {
                        assert(pieces[m] == dash_pieces(before)[m]);
                        assert(square_text_outcome::<N>(dash_pieces(before)[m], Ok(sqs@[m])));
                    }
                }
                if width != N * N {
                    return Err(Error::InvalidLatinSquare {
                        index,
                        error: SquareError::InvalidLength { len: width, expected: N * N },
                    });
                }
                match LatinSquare::<N>::parse_cells(&cur) {
                    Ok(sq) => {
                        sqs.push(sq);
                    },
                    Err(e) => {
                        return Err(Error::InvalidLatinSquare { index, error: e });
                    },
                }
                proof {
                    let now = dash_pieces(chars@.take(i + 1));
                    assert(now == dash_pieces(before).push(Seq::<char>::empty()));
                    assert forall|m: int| 0 <= m < sqs@.len() implies square_text_outcome::<N>(
                        #[trigger] now[m], Ok(sqs@[m])) by {
                        if m < index {
                            assert(now[m] == dash_pieces(before)[m]);
                        }
                    }
                    done = done + width + 1;
                }
                cur = Vec::new();
                width = 0;
                proof {
                    assert(encode_utf8(cur@) =~= Seq::<u8>::empty());
                }
            } else {
                proof {
                    lemma_encode_push(cur@, c);
                    let now = dash_pieces(chars@.take(i + 1));
                    assert(now == dash_pieces(before).update(sqs@.len() as int, cur@.push(c)));
                    assert forall|m: int| 0 <= m < sqs@.len() implies square_text_outcome::<N>(
                        #[trigger] now[m], Ok(sqs@[m])) by {
                        assert(now[m] == dash_pieces(before)[m]);
                    }
                }
                cur.push(c);
                width = width + char_width(c);
            }
            i += 1;
        }
        let index = sqs.len();
        proof {
            assert(chars@.take(i as int) =~= value@);
            assert(pieces[index as int] == cur@);
        }
        if width != N * N {
            return Err(Error::InvalidLatinSquare {
                index,
                error: SquareError::InvalidLength { len: width, expected: N * N },
            });
        }
        match LatinSquare::<N>::parse_cells(&cur) {
            Ok(sq) => {
                sqs.push(sq);
            },
            Err(e) => {
                return Err(Error::InvalidLatinSquare { index, error: e });
            },
        }
        proof {
            assert forall|m: int| 0 <= m < pieces.len() implies #[trigger] is_square_text(pieces[m], N as nat) by {
                assert(square_text_outcome::<N>(pieces[m], Ok(sqs@[m])));
            }
            assert(grids_of(sqs@) =~= piece_grids(pieces, N as nat)) by {
                assert forall|m: int| 0 <= m < pieces.len() implies #[trigger] grids_of(sqs@)[m]
                    == piece_grids(pieces, N as nat)[m] by {
                    assert(square_text_outcome::<N>(pieces[m], Ok(sqs@[m])));
                }
            }
        }
        match Self::new(sqs) {
            Ok(m) => Ok(m),
            Err(indices) => Err(Error::NotOrthogonal { indices }),
        }
    }
}

/// The text of a set of grids of order n: their texts, separated by dashes.
pub open spec fn set_text(g: Seq<Seq<Seq<u8>>>, n: nat) -> Seq<char>
    decreases g.len(),
{
    if g.len() == 0 {
        Seq::empty()
    } else if g.len() == 1 {
        square_text(g[0], n)
    } else {
        set_text(g.drop_last(), n).push(SEPARATOR) + square_text(g.last(), n)
    }
}

impl<const N: usize> Mols<N> {
    /// The squares written one after the other, separated by dashes.
    pub fn to_text(&self) -> (r: String)
        requires
            N <= 16,
        ensures
            r@ == set_text(self@, N as nat),
    {
        let mut chars: Vec<char> = Vec::new();
        let mut k: usize = 0;
        while k < self.sqs.len()
            invariant
                N <= 16,
                k <= self.sqs@.len(),
                chars@ == set_text(self@.take(k as int), N as nat),
            decreases self.sqs@.len() - k,
        {
            let ghost before = chars@;
            if k > 0 {
                chars.push(SEPARATOR);
            }
            let mut part = self.sqs[k].text_chars();
            chars.append(&mut part);
            proof {
                let g = self@.take(k + 1);
                assert(g.drop_last() =~= self@.take(k as int));
                assert(g.last() == self.sqs@[k as int]@);
                if k == 0 {
                    assert(chars@ =~= square_text(g[0], N as nat));
                } else {
                    assert(chars@ =~= before.push(SEPARATOR) + square_text(g.last(), N as nat));
                }
            }
            k += 1;
        }
        proof {
            assert(self@.take(k as int) =~= self@);
        }
        string_from_chars(chars)
    }
}

/// Text with no separator extends the last piece.
proof fn lemma_pieces_append(s: Seq<char>, t: Seq<char>)
    requires
        forall|k: int| 0 <= k < t.len() ==> #[trigger] t[k] != SEPARATOR,
    ensures
        dash_pieces(s + t) == dash_pieces(s).update(dash_pieces(s).len() - 1, dash_pieces(s).last() + t),
        dash_count(s + t) == dash_count(s),
    decreases t.len(),
{
    lemma_pieces_len(s);
    if t.len() == 0 {
        assert(s + t =~= s);
        assert(dash_pieces(s).last() + t =~= dash_pieces(s).last());
        assert(dash_pieces(s).update(dash_pieces(s).len() - 1, dash_pieces(s).last()) =~= dash_pieces(s));
    } else {
        let t0 = t.drop_last();
        assert forall|k: int| 0 <= k < t0.len() implies #[trigger] t0[k] != SEPARATOR by {
            assert(t0[k] == t[k]);
        }
        lemma_pieces_append(s, t0);
        assert((s + t).drop_last() =~= s + t0);
        assert((s + t).last() == t.last());
        lemma_pieces_len(s + t0);
        let p = dash_pieces(s);
        let q = dash_pieces(s + t0);
        assert(q == p.update(p.len() - 1, p.last() + t0));
        assert(q.len() == p.len());
        assert(q.last() == p.last() + t0);
        assert(t.last() != SEPARATOR);
        assert(dash_pieces(s + t) == q.update(q.len() - 1, q.last().push(t.last())));
        assert((p.last() + t0).push(t.last()) =~= p.last() + t);
        assert(dash_pieces(s + t) =~= p.update(p.len() - 1, p.last() + t));
    }
}

/// The encoding of two texts one after the other is as long as both encodings.
proof fn lemma_encode_concat(s: Seq<char>, t: Seq<char>)
    ensures
        encode_utf8(s + t).len() == encode_utf8(s).len() + encode_utf8(t).len(),
    decreases t.len(),
{
    if t.len() == 0 {
        assert(s + t =~= s);
    } else {
        let t0 = t.drop_last();
        lemma_encode_concat(s, t0);
        assert(s + t =~= (s + t0).push(t.last()));
        assert(t =~= t0.push(t.last()));
        lemma_encode_push(s + t0, t.last());
        lemma_encode_push(t0, t.last());
    }
}

/// Reading the text of Latin squares of order n gives them back: the text has a separator
/// between each two of them, the length that the reading asks for, and pieces that write
/// the squares.
pub proof fn lemma_set_text_round_trip(g: Seq<Seq<Seq<u8>>>, n: nat)
    requires
        1 <= g.len(),
        n <= 16,
        forall|k: int| 0 <= k < g.len() ==> is_latin(#[trigger] g[k], n),
    ensures
        dash_count(set_text(g, n)) == g.len() - 1,
        encode_utf8(set_text(g, n)).len() == set_text_len(dash_count(set_text(g, n)), n),
        squares_before(dash_pieces(set_text(g, n)), g.len() as int, n),
        piece_grids(dash_pieces(set_text(g, n)), n) == g,
    decreases g.len(),
{
    let last = g.last();
    lemma_text_round_trip(last, n);
    let sq_text = square_text(last, n);
    assert forall|k: int| 0 <= k < sq_text.len() implies #[trigger] sq_text[k] != SEPARATOR by {
        crate::latin_square::lemma_cell_of_index(k, n as int);
        crate::text::lemma_digit_char(last[k / n as int][k % n as int] as int, 16);
    }
    if g.len() == 1 {
        let e = Seq::<char>::empty();
        assert(e + sq_text =~= sq_text);
        lemma_pieces_append(e, sq_text);
        assert(dash_pieces(e) =~= seq![e]);
        assert(dash_pieces(sq_text) =~= seq![sq_text]) by {
            assert(e + sq_text == sq_text);
            assert(seq![e].update(0, e + sq_text) =~= seq![sq_text]);
        }
        assert(piece_grids(dash_pieces(set_text(g, n)), n) =~= g);
        assert((n * n) as int == set_text_len(0, n)) by (nonlinear_arith);
    } else {
        let g0 = g.drop_last();
        assert forall|k: int| 0 <= k < g0.len() implies is_latin(#[trigger] g0[k], n) by {
            assert(g0[k] == g[k]);
        }
        lemma_set_text_round_trip(g0, n);
        let s0 = set_text(g0, n);
        let s1 = s0.push(SEPARATOR);
        assert(s1.drop_last() =~= s0);
        lemma_pieces_len(s0);
        lemma_pieces_len(s1);
        lemma_pieces_append(s1, sq_text);
        let p1 = dash_pieces(s1);
        assert(p1 == dash_pieces(s0).push(Seq::<char>::empty()));
        assert(Seq::<char>::empty() + sq_text =~= sq_text);
        let p = dash_pieces(set_text(g, n));
        assert(p =~= dash_pieces(s0).push(sq_text));
        assert(piece_grids(p, n) =~= g) by {
            assert forall|k: int| 0 <= k < g.len() implies #[trigger] piece_grids(p, n)[k] == g[k] by {
                if k < g0.len() {
                    assert(p[k] == dash_pieces(s0)[k]);
                    assert(piece_grids(dash_pieces(s0), n)[k] == g0[k]);
                }
            }
        }
        assert forall|k: int| 0 <= k < g.len() implies #[trigger] is_square_text(p[k], n) by {
            if k < g0.len() {
                assert(p[k] == dash_pieces(s0)[k]);
            }
        }
        lemma_encode_concat(s1, sq_text);
        lemma_encode_push(s0, SEPARATOR);
        let c = dash_count(s0);
        assert(set_text_len(c + 1, n) == set_text_len(c, n) + n * n + 1) by (nonlinear_arith);
    }
}

} // verus!
