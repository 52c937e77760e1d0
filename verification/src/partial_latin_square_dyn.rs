//! Partial squares whose order is chosen at run time, stored row by row.
use vstd::prelude::*;
use crate::latin_square_trait::PartialLatinSquareTrait;
use crate::partial_latin_square::{entry_value, filled_in_row};
use crate::latin_square::lemma_index_of_cell;
use crate::latin_square_dyn::LatinSquareDyn;
use crate::latin_square::is_latin;
use crate::partial_latin_square::is_partial_latin;
use crate::completion::{completes, entries_below, is_grid_of, lemma_unplace};
use crate::latin_square_generator::{LatinSquareGeneratorDyn, is_completion};
use crate::latin_square_dyn::isqrt;
use crate::text::{chars_of, to_digit, lemma_chars_fit_bytes, is_cell_digit, cells_before, cell_value, digit_char, to_digit_char, lemma_digit_char, lemma_ascii_len, string_from_chars};
use vstd::string::StringSliceAdditionalSpecFns;

verus! {

/// The n x n grid whose cell (i, j) is entry i * n + j of `values`.
pub open spec fn unflatten<T>(values: Seq<T>, n: nat) -> Seq<Seq<T>> {
    Seq::new(n, |i: int| Seq::new(n, |j: int| values[i * n + j]))
}

/// Changing entry i * n + j of the flat list changes cell (i, j) of the grid.
pub proof fn lemma_unflatten_update<T>(values: Seq<T>, n: nat, i: int, j: int, e: T)
    requires
        values.len() == n * n,
        0 <= i < n,
        0 <= j < n,
    ensures
        unflatten(values.update(i * n + j, e), n)
            == unflatten(values, n).update(i, unflatten(values, n)[i].update(j, e)),
{
    let a = unflatten(values.update(i * n + j, e), n);
    let b = unflatten(values, n).update(i, unflatten(values, n)[i].update(j, e));
    lemma_index_of_cell(i, j, n as int);
    assert forall|r: int| 0 <= r < n implies #[trigger] a[r] =~= b[r] by {
        assert forall|c: int| 0 <= c < n implies #[trigger] a[r][c] == b[r][c] by {
            lemma_index_of_cell(r, c, n as int);
            if r != i || c != j {
                assert(r * n + c != i * n + j);
            }
        }
    }
    assert(a =~= b);
}

/// A partial square of order n: cell (i, j) is entry i * n + j.
#[derive(PartialEq, Eq, Hash, Debug)]
pub struct PartialLatinSquareDyn {
    n: usize,
    values: Vec<Option<u8>>,
}

impl Clone for PartialLatinSquareDyn {
    fn clone(&self) -> (r: Self)
        ensures
            r.order() == self.order(),
            r.flat() == self.flat(),
    {
        proof {
            use_type_invariant(self);
        }
        let values = self.values.clone();
        assert(values@ =~= self.values@);
        PartialLatinSquareDyn { n: self.n, values }
    }
}

impl PartialLatinSquareDyn {
    #[verifier::type_invariant]
    pub closed spec fn has_n_squared_cells(&self) -> bool {
        self.values@.len() == self.n * self.n
    }

    /// The order.
    pub closed spec fn order(&self) -> nat {
        self.n as nat
    }

    /// The cells in reading order.
    pub closed spec fn flat(&self) -> Seq<Option<u8>> {
        self.values@
    }

    /// The grid of cells.
    pub open spec fn grid(&self) -> Seq<Seq<Option<u8>>> {
        unflatten(self.flat(), self.order())
    }

    pub proof fn lemma_shape(sq: &Self)
        requires
            sq.has_n_squared_cells(),
        ensures
            sq.flat().len() == sq.order() * sq.order(),
            sq.grid().len() == sq.order(),
            forall|i: int| 0 <= i < sq.order() ==> #[trigger] sq.grid()[i].len() == sq.order(),
            forall|i: int, j: int| 0 <= i < sq.order() && 0 <= j < sq.order()
                ==> #[trigger] sq.grid()[i][j] == sq.flat()[i * sq.order() + j],
            forall|i: int, j: int| 0 <= i < sq.order() && 0 <= j < sq.order()
                ==> 0 <= #[trigger] (i * sq.order() + j) < sq.order() * sq.order(),
    {
        assert forall|i: int, j: int| 0 <= i < sq.order() && 0 <= j < sq.order()
            implies #[trigger] sq.grid()[i][j] == sq.flat()[i * sq.order() + j] by {}
        assert forall|i: int, j: int| 0 <= i < sq.order() && 0 <= j < sq.order()
            implies 0 <= #[trigger] (i * sq.order() + j) < sq.order() * sq.order() by {
            lemma_index_of_cell(i, j, sq.order() as int);
        }
    }

    /// The square of order n with every cell empty.
    pub fn empty(n: usize) -> (r: Self)
        requires
            n * n <= usize::MAX,
        ensures
            r.order() == n,
            forall|k: int| 0 <= k < n * n ==> #[trigger] r.flat()[k] is None,
    {
        let mut values: Vec<Option<u8>> = Vec::new();
        let mut k: usize = 0;
        while k < n * n
            invariant
                k <= n * n <= usize::MAX,
                values@.len() == k,
                forall|m: int| 0 <= m < k ==> #[trigger] values@[m] is None,
            decreases n * n - k,
        {
            values.push(None);
            k += 1;
        }
        PartialLatinSquareDyn { n, values }
    }

    /// Fills or empties cell (row, col); a value is stored as its low byte.
    pub fn set(&mut self, row: usize, col: usize, val: Option<usize>)
        requires
            row < old(self).order(),
            col < old(self).order(),
        ensures
            final(self).order() == old(self).order(),
            final(self).flat() == old(self).flat().update(row * old(self).order() + col, match val {
                Some(v) => Some(v as u8),
                None => None,
            }),
    {
        proof {
            use_type_invariant(&*self);
            lemma_index_of_cell(row as int, col as int, self.n as int);
        }
        let e: Option<u8> = match val {
            Some(v) => Some(v as u8),
            None => None,
        };
        let mut taken = PartialLatinSquareDyn { n: 0, values: Vec::new() };
        std::mem::swap(&mut taken, self);
        let PartialLatinSquareDyn { n, mut values } = taken;
        let len = values.len();
        assert(row * n + col < len);
        assert(row * n <= row * n + col);
        values.set(row * n + col, e);
        *self = PartialLatinSquareDyn { n, values };
    }

    /// The partial square with every cell of `sq` filled.
    pub fn from_latin_square(sq: &LatinSquareDyn) -> (r: Self)
        ensures
            r.order() == sq.order(),
            r.flat() == sq.flat().map_values(|v: u8| Some(v)),
    {
        proof {
            use_type_invariant(sq);
            LatinSquareDyn::lemma_latin(sq);
        }
        let src = sq.values();
        let mut values: Vec<Option<u8>> = Vec::new();
        let mut k: usize = 0;
        while k < src.len()
            invariant
                k <= src@.len(),
                src@ == sq.flat(),
                values@ == src@.take(k as int).map_values(|v: u8| Some(v)),
            decreases src@.len() - k,
        {
            values.push(Some(src[k]));
            k += 1;
            assert(values@ =~= src@.take(k as int).map_values(|v: u8| Some(v)));
        }
        assert(src@.take(src@.len() as int) =~= src@);
        PartialLatinSquareDyn { n: sq.n(), values }
    }

    /// The number of filled cells.
    pub fn num_entries(&self) -> (r: usize)
        ensures
            r == filled_in_row(self.flat()),
    {
        let mut count: usize = 0;
        let mut k: usize = 0;
        while k < self.values.len()
            invariant
                k <= self.values@.len(),
                count == filled_in_row(self.values@.take(k as int)),
                count <= k,
            decreases self.values@.len() - k,
        {
            assert(self.values@.take(k as int + 1).drop_last() =~= self.values@.take(k as int));
            if self.values[k].is_some() {
                count += 1;
            }
            k += 1;
        }
        assert(self.values@.take(self.values@.len() as int) =~= self.values@);
        count
    }

    /// The reading-order index of the first empty cell.
    pub fn first_empty_index(&self) -> (r: Option<usize>)
        ensures
            r matches Some(k) ==> k < self.flat().len() && self.flat()[k as int] is None
                && forall|m: int| 0 <= m < k ==> #[trigger] self.flat()[m] is Some,
            r is None ==> forall|m: int| 0 <= m < self.flat().len() ==> #[trigger] self.flat()[m] is Some,
    {
        self.next_empty_index(0)
    }

    /// The reading-order index of the first empty cell at or after `start`.
    pub fn next_empty_index(&self, start: usize) -> (r: Option<usize>)
        ensures
            r matches Some(k) ==> start <= k < self.flat().len() && self.flat()[k as int] is None
                && forall|m: int| start <= m < k ==> #[trigger] self.flat()[m] is Some,
            r is None ==> forall|m: int| start <= m < self.flat().len() ==> #[trigger] self.flat()[m] is Some,
    {
        let mut k: usize = start;
        while k < self.values.len()
            invariant
                start <= k || k == start,
                forall|m: int| start <= m < k ==> #[trigger] self.flat()[m] is Some,
            decreases self.values@.len() - k,
        {
            if self.values[k].is_none() {
                return Some(k);
            }
            k += 1;
        }
        None
    }
}

/// `l` is the one Latin square of order n that completes `p`.
pub open spec fn completes_uniquely_to(p: Seq<Seq<Option<u8>>>, n: nat, l: Seq<Seq<u8>>) -> bool {
    &&& is_completion(l, p, n)
    &&& forall|m: Seq<Seq<u8>>| #[trigger] is_completion(m, p, n) ==> m == l
}

/// Exactly one Latin square of order n completes `p`.
pub open spec fn has_unique_completion(p: Seq<Seq<Option<u8>>>, n: nat) -> bool {
    exists|l: Seq<Seq<u8>>| #[trigger] completes_uniquely_to(p, n, l)
}

/// `p` with cell (i, j) emptied.
pub open spec fn emptied(p: Seq<Seq<Option<u8>>>, i: int, j: int) -> Seq<Seq<Option<u8>>> {
    p.update(i, p[i].update(j, None))
}

/// `p` is a critical set of `l`: `l` is its one completion, and emptying any one of its
/// filled cells leaves a grid that does not have exactly one completion.
pub open spec fn is_critical_set(p: Seq<Seq<Option<u8>>>, n: nat, l: Seq<Seq<u8>>) -> bool {
    &&& completes_uniquely_to(p, n, l)
    &&& forall|i: int, j: int| 0 <= i < n && 0 <= j < n && #[trigger] p[i][j] is Some
        ==> !has_unique_completion(emptied(p, i, j), n)
}

impl PartialLatinSquareDyn {
    /// Whether exactly one Latin square completes this partial square, by the search of
    /// `LatinSquareGeneratorDyn`.
    pub fn is_uniquely_completable(&self) -> (r: bool)
        requires
            1 <= self.order() <= 16,
            is_partial_latin(self.grid(), self.order()),
            entries_below(self.grid(), self.order()),
        ensures
            r == has_unique_completion(self.grid(), self.order()),
    {
        let ghost g = self.grid();
        let ghost n = self.order();
        let mut generator = LatinSquareGeneratorDyn::from_partial_sq(self);
        let first_solution = generator.next();
        let second_solution = generator.next();
        match first_solution {
            Some(s) => {
                proof {
                    use_type_invariant(&s);
                    LatinSquareDyn::lemma_latin(&s);
                    assert(is_completion(s.square(), g, n));
                    match &second_solution {
                        Some(t) => {
                            use_type_invariant(t);
                            LatinSquareDyn::lemma_latin(t);
                            assert(is_completion(t.square(), g, n));
                            assert(t.square() != s.square());
                            if has_unique_completion(g, n) {
                                let l = choose|l: Seq<Seq<u8>>| #[trigger] completes_uniquely_to(g, n, l);
                                assert(s.square() == l);
                                assert(t.square() == l);
                            }
                        },
                        None => {
                            assert(completes_uniquely_to(g, n, s.square()));
                        },
                    }
                }
                second_solution.is_none()
            },
            None => {
                proof {
                    if has_unique_completion(g, n) {
                        let l = choose|l: Seq<Seq<u8>>| #[trigger] completes_uniquely_to(g, n, l);
                        assert(is_completion(l, g, n));
                    }
                }
                false
            },
        }
    }

    /// Whether the search of `LatinSquareGeneratorDyn` finds exactly one completion, `sq`.
    pub fn is_uniquely_completable_to(&self, sq: &LatinSquareDyn) -> (r: bool)
        requires
            1 <= self.order() <= 16,
            sq.order() == self.order(),
            is_partial_latin(self.grid(), self.order()),
            entries_below(self.grid(), self.order()),
        ensures
            r == completes_uniquely_to(self.grid(), self.order(), sq.square()),
    {
        let ghost g = self.grid();
        let ghost n = self.order();
        let mut generator = LatinSquareGeneratorDyn::from_partial_sq(self);
        let first_solution = generator.next();
        let second_solution = generator.next();
        proof {
            use_type_invariant(sq);
            LatinSquareDyn::lemma_latin(sq);
        }
        if second_solution.is_some() {
            proof {
                match (&first_solution, &second_solution) {
                    (Some(s), Some(t)) => {
                        use_type_invariant(s);
                        LatinSquareDyn::lemma_latin(s);
                        use_type_invariant(t);
                        LatinSquareDyn::lemma_latin(t);
                        assert(is_completion(s.square(), g, n));
                        assert(is_completion(t.square(), g, n));
                        assert(t.square() != s.square());
                    },
                    _ => {},
                }
            }
            return false;
        }
        match first_solution {
            Some(s) => {
                let same = s.same_as(sq);
                proof {
                    use_type_invariant(&s);
                    LatinSquareDyn::lemma_latin(&s);
                    assert(is_completion(s.square(), g, n));
                    assert(completes_uniquely_to(g, n, s.square()));
                    if completes_uniquely_to(g, n, sq.square()) {
                        assert(s.square() == sq.square());
                        LatinSquareDyn::lemma_square_determines(&s, sq);
                    }
                }
                same
            },
            None => {
                proof {
                    assert(!is_completion(sq.square(), g, n));
                }
                false
            },
        }
    }

    /// Whether this partial square is a critical set of `sq`: it completes uniquely to
    /// `sq`, and emptying any one of its filled cells loses the uniqueness.
    pub fn is_critical_set_of(&self, sq: &LatinSquareDyn) -> (r: bool)
        requires
            1 <= self.order() <= 16,
            sq.order() == self.order(),
            is_partial_latin(self.grid(), self.order()),
            entries_below(self.grid(), self.order()),
        ensures
            r == is_critical_set(self.grid(), self.order(), sq.square()),
    {
        if !self.is_uniquely_completable_to(sq) {
            return false;
        }
        proof {
            use_type_invariant(self);
            Self::lemma_shape(self);
        }
        let ghost g = self.grid();
        let n = self.n;
        let mut i: usize = 0;
        while i < n
            invariant
                i <= n,
                n == self.order(),
                1 <= n <= 16,
                g == self.grid(),
                is_grid_of(self.grid(), n as nat),
                is_partial_latin(self.grid(), self.order()),
                entries_below(self.grid(), self.order()),
                forall|a: int, b: int| 0 <= a < i && 0 <= b < n && #[trigger] g[a][b] is Some
                    ==> !has_unique_completion(emptied(g, a, b), n as nat),
            decreases n - i,
        {
            let mut j: usize = 0;
            while j < n
                invariant
                    i < n,
                    j <= n,
                    n == self.order(),
                    1 <= n <= 16,
                    g == self.grid(),
                    is_grid_of(self.grid(), n as nat),
                    is_partial_latin(self.grid(), self.order()),
                    entries_below(self.grid(), self.order()),
                    forall|a: int, b: int| 0 <= a < i && 0 <= b < n && #[trigger] g[a][b] is Some
                        ==> !has_unique_completion(emptied(g, a, b), n as nat),
                    forall|b: int| 0 <= b < j && #[trigger] g[i as int][b] is Some
                        ==> !has_unique_completion(emptied(g, i as int, b), n as nat),
                decreases n - j,
            {
                if self.get_partial(i, j).is_some() {
                    let mut copy = self.clone();
                    let ghost before = copy.flat();
                    proof {
                        use_type_invariant(&copy);
                    }
                    copy.set(i, j, None);
                    proof {
                        lemma_unflatten_update(before, n as nat, i as int, j as int, None::<u8>);
                        lemma_unplace(self.grid(), n as nat, i as int, j as int);
                        assert(copy.grid() == emptied(g, i as int, j as int));
                    }
                    if copy.is_uniquely_completable() {
                        return false;
                    }
                }
                j += 1;
            }
            i += 1;
        }
        true
    }
}

impl PartialLatinSquareTrait for PartialLatinSquareDyn {
    open spec fn size(&self) -> nat {
        self.order()
    }

    open spec fn cell(&self, i: int, j: int) -> Option<usize> {
        entry_value(self.grid()[i][j])
    }

    fn n(&self) -> (r: usize) {
        self.n
    }

    fn get_partial(&self, row: usize, col: usize) -> (r: Option<usize>) {
        proof {
            use_type_invariant(self);
            Self::lemma_shape(self);
        }
        let len = self.values.len();
        assert(row * self.n + col < len);
        assert(row * self.n <= row * self.n + col);
        match self.values[row * self.n + col] {
            Some(v) => Some(v as usize),
            None => None,
        }
    }
}

/// Why text does not describe a partial square.
#[derive(Debug, Clone, Copy, PartialEq, Eq)]
pub enum Error {
    InvalidLength { len: usize },
    InvalidChar { index: usize, char: char },
}

/// The `len` cells that the characters describe, cell i from character i: a dot or a
/// missing character leaves the cell empty.
pub open spec fn partial_digit_cells(chars: Seq<char>, len: nat, radix: u32) -> Seq<Option<u8>> {
    Seq::new(len, |i: int| if i < chars.len() && chars[i] != '.' { Some(cell_value(chars[i], radix)) } else { None })
}

impl PartialLatinSquareDyn {
    /// Reads a grid written row by row as one decimal digit per cell, with a dot for an
    /// empty cell; the order is the square root of the length.
    pub fn try_from_str(value: &str) -> (r: Result<Self, Error>)
        ensures
            (forall|k: nat| #[trigger] (k * k) != value.spec_bytes().len())
                ==> r == Err::<Self, Error>(Error::InvalidLength { len: value.spec_bytes().len() as usize }),
            forall|n: nat| #[trigger] (n * n) == value.spec_bytes().len() ==> match r {
                Ok(sq) => cells_before(value@, value@.len() as int, 10, n)
                    && sq.order() == n && sq.flat() == partial_digit_cells(value@, n * n, 10),
                Err(Error::InvalidChar { index, char }) => index < value@.len() && value@[index as int] == char
                    && char != '.' && !is_cell_digit(char, 10, n) && cells_before(value@, index as int, 10, n),
                Err(Error::InvalidLength { .. }) => false,
            },
    {
        let len = value.as_bytes().len();
        let n = match isqrt(len) {
            Some(n) => n,
            None => {
                return Err(Error::InvalidLength { len });
            },
        };
        proof {
            assert forall|m: nat| #[trigger] (m * m) == len implies m == n by {
                if m < n {
                    assert(m * m < n * n) by (nonlinear_arith)
                        requires
                            m < n,
                    ;
                } else if m > n {
                    assert(m * m > n * n) by (nonlinear_arith)
                        requires
                            m > n,
                    ;
                }
            }
        }
        let chars = chars_of(value);
        proof {
            lemma_chars_fit_bytes(value@);
        }
        let mut values: Vec<Option<u8>> = vec![None; len];
        let mut i: usize = 0;
        while i < chars.len()
            invariant
                value.spec_bytes().len() == len,
                n * n == len,
                forall|m: nat| #[trigger] (m * m) == len ==> m == n,
                values@.len() == len,
                i <= chars@.len() <= len,
                chars@ == value@,
                cells_before(chars@, i as int, 10, n as nat),
                forall|k: int| 0 <= k < len ==> #[trigger] values@[k]
                    == if k < i && chars@[k] != '.' { Some(cell_value(chars@[k], 10)) } else { None::<u8> },
            decreases chars@.len() - i,
        {
            let c = chars[i];
            if c != '.' {
                match to_digit(c, 10) {
                    None => {
                        return Err(Error::InvalidChar { index: i, char: c });
                    },
                    Some(entry) => {
                        if entry as usize >= n {
                            return Err(Error::InvalidChar { index: i, char: c });
                        }
                        values.set(i, Some(entry as u8));
                    },
                }
            }
            i += 1;
        }
        assert(values@ =~= partial_digit_cells(value@, (n * n) as nat, 10));
        Ok(PartialLatinSquareDyn { n, values })
    }
}

/// The text of the cells: one decimal digit per filled cell and a dot per empty cell,
/// in reading order.
pub open spec fn partial_cells_text(f: Seq<Option<u8>>) -> Seq<char> {
    Seq::new(f.len(), |k: int| match f[k] {
        Some(v) => digit_char(v as int),
        None => '.',
    })
}

impl PartialLatinSquareDyn {
    /// The grid written row by row, one decimal digit per filled cell and a dot per empty one.
    pub fn to_text(&self) -> (r: String)
        requires
            forall|k: int| 0 <= k < self.flat().len() && #[trigger] self.flat()[k] is Some ==> self.flat()[k]->0 < 10,
        ensures
            r@ == partial_cells_text(self.flat()),
    {
        let mut chars: Vec<char> = Vec::new();
        let mut k: usize = 0;
        while k < self.values.len()
            invariant
                k <= self.values@.len(),
                self.values@ == self.flat(),
                forall|x: int| 0 <= x < self.flat().len() && #[trigger] self.flat()[x] is Some ==> self.flat()[x]->0 < 10,
                chars@.len() == k,
                forall|x: int| 0 <= x < k ==> #[trigger] chars@[x] == partial_cells_text(self.flat())[x],
            decreases self.values@.len() - k,
        {
            let c = match self.values[k] {
                Some(v) => to_digit_char(v),
                None => '.',
            };
            chars.push(c);
            k += 1;
        }
        proof {
            assert(chars@ =~= partial_cells_text(self.flat()));
        }
        string_from_chars(chars)
    }
}

/// Reading the text of a grid of order n whose entries are below n and below 10 gives the
/// grid back.
pub proof fn lemma_partial_text_round_trip(f: Seq<Option<u8>>, n: nat)
    requires
        f.len() == n * n,
        forall|k: int| 0 <= k < f.len() && #[trigger] f[k] is Some ==> f[k]->0 < n && f[k]->0 < 10,
    ensures
        vstd::utf8::encode_utf8(partial_cells_text(f)).len() == n * n,
        cells_before(partial_cells_text(f), (n * n) as int, 10, n),
        partial_digit_cells(partial_cells_text(f), n * n, 10) == f,
{
    let text = partial_cells_text(f);
    assert forall|k: int| 0 <= k < text.len() implies (#[trigger] text[k] as u32) < 128
        && (text[k] == '.' <==> f[k] is None)
        && (f[k] is Some ==> is_cell_digit(text[k], 10, n) && cell_value(text[k], 10) == f[k]->0) by {
        if f[k] is Some {
            lemma_digit_char(f[k]->0 as int, 10);
        }
    }
    lemma_ascii_len(text);
    assert(partial_digit_cells(text, n * n, 10) =~= f) by {
        assert forall|k: int| 0 <= k < n * n implies #[trigger] partial_digit_cells(text, n * n, 10)[k] == f[k] by {
            if f[k] is Some {
                assert(text[k] != '.');
            }
        }
    }
}

/// Cell (i, j) is empty, or holds a value below n that no other cell of its row or column
/// holds.
pub open spec fn cell_fits(g: Seq<Seq<Option<u8>>>, n: nat, i: int, j: int) -> bool {
    g[i][j] is Some ==> {
        &&& g[i][j]->0 < n
        &&& forall|k: int| 0 <= k < n && k != j ==> #[trigger] g[i][k] != g[i][j]
        &&& forall|k: int| 0 <= k < n && k != i ==> #[trigger] g[k][j] != g[i][j]
    }
}

/// Every cell fits exactly when the grid is a partial Latin square with entries below n.
proof fn lemma_cells_fit(g: Seq<Seq<Option<u8>>>, n: nat)
    ensures
        (forall|i: int, j: int| 0 <= i < n && 0 <= j < n ==> #[trigger] cell_fits(g, n, i, j))
            <==> (is_partial_latin(g, n) && entries_below(g, n)),
{
    if forall|i: int, j: int| 0 <= i < n && 0 <= j < n ==> #[trigger] cell_fits(g, n, i, j) {
        assert forall|i: int, j: int, k: int|
            0 <= i < n && 0 <= j < n && 0 <= k < n && j != k && #[trigger] g[i][j] is Some implies #[trigger] g[i][k] != g[i][j] by {
            assert(cell_fits(g, n, i, j));
        }
        assert forall|i: int, j: int, k: int|
            0 <= i < n && 0 <= j < n && 0 <= k < n && j != k && #[trigger] g[j][i] is Some implies #[trigger] g[k][i] != g[j][i] by {
            assert(cell_fits(g, n, j, i));
        }
        assert forall|i: int, j: int| 0 <= i < n && 0 <= j < n && #[trigger] g[i][j] is Some implies g[i][j]->0 < n by {
            assert(cell_fits(g, n, i, j));
        }
    }
    if is_partial_latin(g, n) && entries_below(g, n) {
        assert forall|i: int, j: int| 0 <= i < n && 0 <= j < n implies #[trigger] cell_fits(g, n, i, j) by {
            if g[i][j] is Some {
                assert forall|k: int| 0 <= k < n && k != j implies #[trigger] g[i][k] != g[i][j] by {}
                assert forall|k: int| 0 <= k < n && k != i implies #[trigger] g[k][j] != g[i][j] by {}
            }
        }
    }
}

impl PartialLatinSquareDyn {
    /// Whether every entry is below the order and no value occurs twice in a row or a column.
    pub fn is_valid(&self) -> (r: bool)
        ensures
            r == (is_partial_latin(self.grid(), self.order()) && entries_below(self.grid(), self.order())),
    {
        proof {
            use_type_invariant(self);
            Self::lemma_shape(self);
            lemma_cells_fit(self.grid(), self.order());
        }
        let n = self.n;
        let total = self.values.len();
        let ghost g = self.grid();
        let mut i: usize = 0;
        while i < n
            invariant
                i <= n,
                n == self.order(),
                g == self.grid(),
                is_grid_of(g, n as nat),
                forall|a: int, b: int| 0 <= a < n && 0 <= b < n ==> #[trigger] g[a][b] == self.flat()[a * n + b],
                self.values@ == self.flat(),
                self.values@.len() == n * n,
                total == n * n,
                forall|a: int, b: int| 0 <= a < i && 0 <= b < n ==> #[trigger] cell_fits(g, n as nat, a, b),
                (forall|a: int, b: int| 0 <= a < n && 0 <= b < n ==> #[trigger] cell_fits(g, n as nat, a, b))
                    <==> (is_partial_latin(g, n as nat) && entries_below(g, n as nat)),
            decreases n - i,
        {
            let mut j: usize = 0;
            while j < n
                invariant
                    i < n,
                    j <= n,
                    n == self.order(),
                    g == self.grid(),
                    is_grid_of(g, n as nat),
                    forall|a: int, b: int| 0 <= a < n && 0 <= b < n ==> #[trigger] g[a][b] == self.flat()[a * n + b],
                    self.values@ == self.flat(),
                    self.values@.len() == n * n,
                total == n * n,
                    forall|a: int, b: int| 0 <= a < i && 0 <= b < n ==> #[trigger] cell_fits(g, n as nat, a, b),
                    forall|b: int| 0 <= b < j ==> #[trigger] cell_fits(g, n as nat, i as int, b),
                    (forall|a: int, b: int| 0 <= a < n && 0 <= b < n ==> #[trigger] cell_fits(g, n as nat, a, b))
                        <==> (is_partial_latin(g, n as nat) && entries_below(g, n as nat)),
                decreases n - j,
            {
                proof {
                    lemma_index_of_cell(i as int, j as int, n as int);
                }
                let e = self.values[i * n + j];
                if let Some(v) = e {
                    if v as usize >= n {
                        assert(!cell_fits(g, n as nat, i as int, j as int));
                        return false;
                    }
                    let mut k: usize = 0;
                    while k < n
                        invariant
                            i < n,
                            j < n,
                            k <= n,
                            n == self.order(),
                            g == self.grid(),
                            is_grid_of(g, n as nat),
                            forall|a: int, b: int| 0 <= a < n && 0 <= b < n ==> #[trigger] g[a][b] == self.flat()[a * n + b],
                            self.values@ == self.flat(),
                            self.values@.len() == n * n,
                total == n * n,
                            g[i as int][j as int] == Some(v),
                            forall|c: int| 0 <= c < k && c != j ==> #[trigger] g[i as int][c] != g[i as int][j as int],
                            forall|c: int| 0 <= c < k && c != i ==> #[trigger] g[c][j as int] != g[i as int][j as int],
                        decreases n - k,
                    {
                        proof {
                            lemma_index_of_cell(i as int, k as int, n as int);
                            lemma_index_of_cell(k as int, j as int, n as int);
                        }
                        let in_row = match self.values[i * n + k] {
                            Some(w) => w == v,
                            None => false,
                        };
                        let in_col = match self.values[k * n + j] {
                            Some(w) => w == v,
                            None => false,
                        };
                        if k != j && in_row {
                            assert(g[i as int][k as int] == g[i as int][j as int]);
                            assert(!cell_fits(g, n as nat, i as int, j as int));
                            return false;
                        }
                        if k != i && in_col {
                            assert(g[k as int][j as int] == g[i as int][j as int]);
                            assert(!cell_fits(g, n as nat, i as int, j as int));
                            return false;
                        }
                        k += 1;
                    }
                    assert(cell_fits(g, n as nat, i as int, j as int));
                } else {
                    assert(cell_fits(g, n as nat, i as int, j as int));
                }
                j += 1;
            }
            i += 1;
        }
        true
    }
}

} // verus!
