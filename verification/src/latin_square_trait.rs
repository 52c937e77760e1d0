//! What every kind of square offers: its order and the entry of a cell.
use vstd::prelude::*;
use crate::subsquare::subsquare_pairs;

verus! {

/// A square grid whose cells may be empty.
pub trait PartialLatinSquareTrait {
    /// The order of the square.
    spec fn size(&self) -> nat;

    /// The entry of cell (i, j), if any.
    spec fn cell(&self, i: int, j: int) -> Option<usize>;

    fn n(&self) -> (r: usize)
        ensures
            r == self.size();

    fn get_partial(&self, row: usize, col: usize) -> (r: Option<usize>)
        requires
            row < self.size(),
            col < self.size(),
        ensures
            r == self.cell(row as int, col as int);
}

/// A square grid whose cells are all filled.
pub trait LatinSquareTrait: PartialLatinSquareTrait {
    fn get(&self, row: usize, col: usize) -> (r: usize)
        requires
            row < self.size(),
            col < self.size(),
        ensures
            Some(r) == self.cell(row as int, col as int);

    /// The values of the cells where the given rows and columns meet.
    fn get_subsquare_dyn(&self, rows: &[usize], cols: &[usize]) -> (r: Vec<Vec<usize>>)
        requires
            rows@.len() == cols@.len(),
            forall|a: int| 0 <= a < rows@.len() ==> #[trigger] rows@[a] < self.size(),
            forall|b: int| 0 <= b < cols@.len() ==> #[trigger] cols@[b] < self.size(),
        ensures
            r@.len() == rows@.len(),
            forall|a: int| 0 <= a < rows@.len() ==> #[trigger] r@[a]@.len() == cols@.len(),
            forall|a: int, b: int| 0 <= a < rows@.len() && 0 <= b < cols@.len()
                ==> Some(#[trigger] r@[a]@[b]) == self.cell(rows@[a] as int, cols@[b] as int);

    /// The number of subsquares of order k.
    fn num_subsquares_dyn(&self, k: usize) -> (r: usize)
        requires
            1 <= k <= self.size(),
            self.size() < 16,
        ensures
            r == subsquare_pairs(filled_grid(self), self.size(), k as nat).len();
}

/// The entries of a filled square as a grid of bytes.
pub open spec fn filled_grid<T: PartialLatinSquareTrait + ?Sized>(sq: &T) -> Seq<Seq<u8>> {
    Seq::new(sq.size(), |i: int| Seq::new(sq.size(), |j: int| sq.cell(i, j)->0 as u8))
}

} // verus!
