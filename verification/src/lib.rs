use vstd::prelude::*;

pub mod set_util;
pub mod bitset;
pub mod bitvec;
pub mod orbit;
pub mod permutation;
pub mod permutation_dyn;
pub mod permutation_simd;
pub mod tuple_iterator;
pub mod arrangement;
pub mod permutable;
pub mod partial_latin_square;
pub mod latin_square;
pub mod completion;
pub mod constraints;
pub mod latin_square_generator;
pub mod latin_square_trait;
pub mod partial_latin_square_dyn;
pub mod latin_square_dyn;
pub mod compressed_latin_square;
pub mod cycles;
pub mod text;
pub mod conjugate;
pub mod cycle_types;
pub mod transversal;
pub mod subsquare;
pub mod orthogonal;
pub mod codec;
pub mod mols;
pub mod random_latin_square_generator;
pub mod partial_square_generator;
pub mod trades;
pub mod isotopy;
pub mod row_partial_latin_square;
pub mod cycle_lookup;
pub mod tex;

verus! {
}
