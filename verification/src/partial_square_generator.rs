//! Partial squares of a Latin square, built by filling its entries one cell at a time.
use vstd::prelude::*;
use crate::latin_square_dyn::LatinSquareDyn;
use crate::latin_square_trait::PartialLatinSquareTrait;
use crate::partial_latin_square_dyn::PartialLatinSquareDyn;
use crate::latin_square::{row_has, lemma_cell_of_index};
use crate::partial_latin_square::filled_in_row;

verus! {

/// Every cell of `p` is either the cell of `base` or the entry of `target`.
pub open spec fn drawn_from(p: Seq<Option<u8>>, base: Seq<Option<u8>>, target: Seq<u8>) -> bool {
    &&& p.len() == target.len()
    &&& forall|k: int| 0 <= k < p.len() ==> #[trigger] p[k] == base[k] || p[k] == Some(target[k])
}

/// Hands out partial squares of `sq`: each adds to a smaller one, handed out by an inner
/// generator, the entry of `sq` at an empty cell, going through the cells in reading order.
pub struct PartialSquareGeneratorDyn {
    sq: LatinSquareDyn,
    partial_sq: Option<PartialLatinSquareDyn>,
    entries_left: usize,
    index: usize,
    gen: Option<Box<PartialSquareGeneratorDyn>>,
    base: Ghost<Seq<Option<u8>>>,
}

impl PartialSquareGeneratorDyn {
    /// The order.
    pub closed spec fn order(&self) -> nat {
        self.sq.order()
    }

    /// The square whose entries are handed out.
    pub closed spec fn target(&self) -> Seq<u8> {
        self.sq.flat()
    }

    /// The partial square that the handed out squares extend.
    pub closed spec fn base(&self) -> Seq<Option<u8>> {
        self.base@
    }

    /// The number of entries still to add to the base.
    pub closed spec fn left(&self) -> nat {
        self.entries_left as nat
    }

    /// The cell to fill next (n * n when none is left).
    pub closed spec fn cursor(&self) -> nat {
        self.index as nat
    }

    /// The square to hand out next is at hand.
    pub closed spec fn has_pending(&self) -> bool {
        self.partial_sq is Some
    }

    /// The partial square at hand, to which the entry at the cursor is added next (empty
    /// when there is none).
    pub closed spec fn pending(&self) -> Seq<Option<u8>> {
        match self.partial_sq {
            Some(p) => p.flat(),
            None => Seq::empty(),
        }
    }

    /// The cell of the inner generator: where it added its last entry, or past the end.
    pub closed spec fn inner_cursor(&self) -> nat {
        match self.gen {
            Some(g) => g.index as nat,
            None => 0,
        }
    }

    /// The cursor is the first empty cell of the square at hand after the inner generator's
    /// cell, as it is set when a new square is taken from the inner generator.
    pub open spec fn cursor_after_inner(&self) -> bool {
        &&& self.inner_cursor() + 1 <= self.cursor() < self.order() * self.order()
        &&& self.pending()[self.cursor() as int] is None
        &&& forall|k: int| self.inner_cursor() + 1 <= k < self.cursor() ==> #[trigger] self.pending()[k] is Some
    }

    /// Nothing is left to hand out: no square is at hand when no entry is to be added,
    /// and otherwise every cell has been tried and the inner generator is done too.
    pub closed spec fn exhausted(&self) -> bool
        decreases self,
    {
        if self.entries_left == 0 {
            self.partial_sq is None
        } else {
            &&& self.index >= self.sq.order() * self.sq.order()
            &&& match self.gen {
                Some(g) => g.exhausted(),
                None => true,
            }
        }
    }

    /// The generator and the ones inside it agree with each other.
    pub closed spec fn wf(&self) -> bool
        decreases self,
    {
        let n = self.sq.order();
        &&& n <= 256
        &&& self.index <= n * n
        &&& self.base@.len() == n * n
        &&& (self.partial_sq matches Some(p) ==> p.order() == n && drawn_from(p.flat(), self.base@, self.sq.flat()))
        &&& (self.entries_left > 0 && self.index < n * n ==> self.partial_sq is Some)
        &&& match self.gen {
            None => self.entries_left == 0,
            Some(g) => {
                &&& self.entries_left > 0
                &&& g.entries_left == self.entries_left - 1
                &&& g.sq.order() == n
                &&& g.sq.flat() == self.sq.flat()
                &&& g.base@ == self.base@
                &&& g.wf()
            },
        }
    }

    /// An upper bound on the squares still to come, which every square handed out lowers.
    pub closed spec fn rank(&self) -> nat
        decreases self,
    {
        let n = self.sq.order();
        match self.gen {
            None => if self.partial_sq is Some { 1nat } else { 0nat },
            Some(g) => ((n * n - self.index) + (n * n + 1) * g.rank()) as nat,
        }
    }

    proof fn lemma_wf(&self)
        requires
            self.wf(),
        ensures
            self.left() == 0 <==> self.gen is None,
            self.gen matches Some(g) ==> g.wf() && g.left() == self.left() - 1 && g.order() == self.order()
                && g.target() == self.target() && g.base() == self.base(),
            self.cursor() <= self.order() * self.order(),
            self.order() <= 256,
            self.base().len() == self.order() * self.order(),
    {
    }
}

/// A Latin square held in bytes has order at most 256.
proof fn lemma_order_small(sq: &LatinSquareDyn)
    requires
        sq.is_latin_square(),
    ensures
        sq.order() <= 256,
        sq.order() * sq.order() <= 65536,
{
    LatinSquareDyn::lemma_latin(sq);
    let s = sq.square();
    if sq.order() > 256 {
        assert(row_has(s, 0, 256));
        let j = choose|j: int| 0 <= j < s[0].len() && s[0][j] as int == 256;
        assert(false);
    }
    assert(sq.order() * sq.order() <= 65536) by (nonlinear_arith)
        requires
            sq.order() <= 256,
    ;
}

impl PartialSquareGeneratorDyn {
    /// The next partial square, if any: the pending one when no entry is left to add, else
    /// the square at hand with the entry of the current cell added.
    pub fn next(&mut self) -> (r: Option<PartialLatinSquareDyn>)
        requires
            old(self).wf(),
        ensures
            final(self).wf(),
            final(self).order() == old(self).order(),
            final(self).target() == old(self).target(),
            final(self).base() == old(self).base(),
            final(self).left() == old(self).left(),
            final(self).rank() <= old(self).rank(),
            r is Some ==> final(self).rank() < old(self).rank(),
            r is None && old(self).left() > 0 ==> final(self).cursor() == old(self).order() * old(self).order(),
            old(self).left() == 0 ==> r is Some == old(self).has_pending()
                && (r matches Some(p) ==> p.flat() == old(self).pending()),
            old(self).left() > 0 && old(self).cursor() < old(self).order() * old(self).order() ==> (r matches Some(p)
                && p.flat() == old(self).pending().update(old(self).cursor() as int, Some(old(self).target()[old(self).cursor() as int])))
                && final(self).pending() == old(self).pending()
                && old(self).cursor() < final(self).cursor() <= old(self).order() * old(self).order()
                && (forall|k: int| old(self).cursor() < k < final(self).cursor() ==> #[trigger] old(self).pending()[k] is Some)
                && (final(self).cursor() < old(self).order() * old(self).order() ==> old(self).pending()[final(self).cursor() as int] is None),
            old(self).left() > 0 && old(self).cursor() >= old(self).order() * old(self).order() ==> (r matches Some(p)
                ==> exists|c: int| final(self).inner_cursor() + 1 <= c < final(self).cursor()
                    && final(self).pending()[c] is None
                    && (forall|k: int| final(self).inner_cursor() + 1 <= k < c ==> #[trigger] final(self).pending()[k] is Some)
                    && p.flat() == final(self).pending().update(c, Some(final(self).target()[c]))
                    && (forall|k: int| c < k < final(self).cursor() ==> #[trigger] final(self).pending()[k] is Some)
                    && (final(self).cursor() < old(self).order() * old(self).order() ==> final(self).pending()[final(self).cursor() as int] is None)),
            old(self).exhausted() ==> r is None,
            r is None ==> final(self).exhausted(),
            r matches Some(p) ==> p.order() == old(self).order() && drawn_from(p.flat(), old(self).base(), old(self).target()),
        decreases old(self).left(),
    {
        proof {
            self.lemma_wf();
            use_type_invariant(&self.sq);
            LatinSquareDyn::lemma_latin(&self.sq);
        }
        let n = self.sq.n();
        assert(n * n <= 65536) by (nonlinear_arith)
            requires
                n <= 256,
        ;
        if self.entries_left == 0 {
            return self.partial_sq.take();
        }
        while self.index >= n * n
            invariant
                self.wf(),
                n == self.order(),
                n * n <= 65536,
                self.order() == old(self).order(),
                self.target() == old(self).target(),
                self.base() == old(self).base(),
                self.left() == old(self).left(),
                self.left() > 0,
                self.rank() <= old(self).rank(),
                old(self).cursor() < n * n ==> self.cursor() == old(self).cursor() && self.pending() == old(self).pending(),
                old(self).cursor() >= n * n && self.cursor() < n * n ==> self.cursor_after_inner(),
                old(self).exhausted() ==> self.exhausted(),
            decreases self.rank(),
        {
            proof {
                self.lemma_wf();
            }
            let ghost old_rank = self.rank();
            let mut gen = self.gen.take().unwrap();
            let ghost g_rank = gen.rank();
            proof {
                assert(old_rank == (n * n - self.index) + (n * n + 1) * g_rank);
                assert(self.index == n * n);
            }
            proof {
                if old(self).exhausted() {
                    assert(gen.exhausted());
                }
            }
            match (&mut *gen).next() {
                None => {
                    self.gen = Some(gen);
                    proof {
                        assert(self.exhausted());
                    }
                    proof {
                        let b = n * n + 1;
                        assert(self.rank() == (n * n - self.index) + b * gen.rank());
                        assert(b * gen.rank() <= b * g_rank) by (nonlinear_arith)
                            requires
                                gen.rank() <= g_rank,
                                b > 0,
                        ;
                    }
                    return None;
                },
                Some(sq) => {
                    proof {
                        gen.lemma_wf();
                        use_type_invariant(&sq);
                    }
                    let next_index = match sq.next_empty_index(gen.index + 1) {
                        Some(k) => k,
                        None => n * n,
                    };
                    proof {
                        PartialLatinSquareDyn::lemma_shape(&sq);
                    }
                    let ghost inner_index = gen.index;
                    self.partial_sq = Some(sq);
                    self.index = next_index;
                    self.gen = Some(gen);
                    proof {
                        assert(self.inner_cursor() == inner_index);
                        assert(self.pending() == sq.flat());
                        let b = n * n + 1;
                        assert(self.rank() == (n * n - next_index) + b * gen.rank());
                        assert(b * gen.rank() <= b * (g_rank - 1)) by (nonlinear_arith)
                            requires
                                gen.rank() <= g_rank - 1,
                                b > 0,
                        ;
                        assert(b * (g_rank - 1) == b * g_rank - b) by (nonlinear_arith);
                    }
                },
            }
        }
        let ghost r0 = self.rank();
        let mut sq = match &self.partial_sq {
            Some(p) => p.clone(),
            None => {
                assert(false);
                PartialLatinSquareDyn::empty(0)
            },
        };
        let ghost before = sq.flat();
        proof {
            use_type_invariant(&sq);
            PartialLatinSquareDyn::lemma_shape(&sq);
            lemma_cell_of_index(self.index as int, n as int);
        }
        let i = self.index / n;
        let j = self.index % n;
        let entry = self.sq.entry(i, j);
        sq.set(i, j, Some(entry));
        proof {
            assert(i * n + j == self.index);
            assert(self.sq.square()[i as int][j as int] == self.sq.flat()[self.index as int]);
            assert forall|k: int| 0 <= k < sq.flat().len() implies #[trigger] sq.flat()[k] == self.base@[k]
                || sq.flat()[k] == Some(self.sq.flat()[k]) by {
                if k != self.index {
                    assert(sq.flat()[k] == before[k]);
                }
            }
        }
        proof {
            assert(!old(self).exhausted());
            assert(sq.flat() == self.pending().update(self.index as int, Some(self.sq.flat()[self.index as int])));
        }
        let ghost old_index = self.index;
        let ghost refilled = old(self).cursor() >= n * n;
        proof {
            if refilled {
                assert(self.cursor_after_inner());
            }
        }
        let next_index = match self.partial_sq.as_ref().unwrap().next_empty_index(self.index + 1) {
            Some(k) => k,
            None => n * n,
        };
        self.index = next_index;
        proof {
            self.lemma_wf();
            let g = self.gen->0;
            assert(self.rank() == (n * n - next_index) + (n * n + 1) * g.rank());
            assert(r0 == (n * n - old_index) + (n * n + 1) * g.rank());
        }
        Some(sq)
    }
}

impl PartialSquareGeneratorDyn {
    /// Hands out the partial squares of `sq` with `num_entries` entries, each built from one
    /// with an entry fewer.
    pub fn new(sq: LatinSquareDyn, num_entries: usize) -> (r: Self)
        ensures
            r.wf(),
            r.order() == sq.order(),
            r.target() == sq.flat(),
            r.left() == num_entries,
            forall|k: int| 0 <= k < r.base().len() ==> #[trigger] r.base()[k] is None,
            r.left() == 0 ==> r.has_pending(),
        decreases num_entries,
    {
        proof {
            use_type_invariant(&sq);
            lemma_order_small(&sq);
            LatinSquareDyn::lemma_latin(&sq);
        }
        let n = sq.n();
        let ghost base = Seq::new((n * n) as nat, |k: int| None::<u8>);
        let mut gen: Option<Box<PartialSquareGeneratorDyn>> = if num_entries != 0 {
            Some(Box::new(PartialSquareGeneratorDyn::new(sq.clone(), num_entries - 1)))
        } else {
            None
        };
        let partial_sq = if num_entries == 0 {
            let empty = PartialLatinSquareDyn::empty(n);
            proof {
                use_type_invariant(&empty);
                PartialLatinSquareDyn::lemma_shape(&empty);
                assert forall|k: int| 0 <= k < base.len() implies #[trigger] empty.flat()[k] == base[k] by {
                    assert(empty.flat()[k] is None);
                }
                assert(empty.flat() =~= base);
            }
            Some(empty)
        } else {
            let mut g = gen.take().unwrap();
            let p = (&mut *g).next();
            proof {
                assert(g.base() =~= base);
            }
            gen = Some(g);
            p
        };
        let index = match &gen {
            Some(g) => g.index,
            None => 0,
        };
        let r = PartialSquareGeneratorDyn {
            entries_left: num_entries,
            index,
            gen,
            partial_sq,
            sq,
            base: Ghost(base),
        };
        proof {
            if num_entries != 0 {
                let g = r.gen->0;
                g.lemma_wf();
            }
        }
        r
    }

    /// Hands out the squares that add `num_entries - partial.num_entries()` entries of
    /// `sq` to `partial`, each built from one with an entry fewer.
    pub fn new_partial(sq: LatinSquareDyn, partial: PartialLatinSquareDyn, num_entries: usize) -> (r: Self)
        requires
            sq.order() == partial.order(),
            filled_in_row(partial.flat()) <= num_entries,
            exists|k: int| 0 <= k < partial.flat().len() && #[trigger] partial.flat()[k] is None,
        ensures
            r.wf(),
            r.order() == sq.order(),
            r.target() == sq.flat(),
            r.base() == partial.flat(),
            r.left() == num_entries - filled_in_row(partial.flat()),
            r.left() == 0 ==> r.has_pending(),
        decreases num_entries,
    {
        proof {
            use_type_invariant(&sq);
            lemma_order_small(&sq);
            LatinSquareDyn::lemma_latin(&sq);
            use_type_invariant(&partial);
            PartialLatinSquareDyn::lemma_shape(&partial);
        }
        let n = sq.n();
        let current_entries = partial.num_entries();
        let entries_left = num_entries - current_entries;
        let mut gen: Option<Box<PartialSquareGeneratorDyn>> = if entries_left > 0 {
            Some(Box::new(PartialSquareGeneratorDyn::new_partial(sq.clone(), partial.clone(), num_entries - 1)))
        } else {
            None
        };
        let partial_sq = if entries_left == 0 {
            Some(partial.clone())
        } else {
            let mut g = gen.take().unwrap();
            let p = (&mut *g).next();
            gen = Some(g);
            p
        };
        let first = match partial.first_empty_index() {
            Some(k) => k,
            None => {
                assert(false);
                0
            },
        };
        let index = match &gen {
            Some(g) => match partial.next_empty_index(g.index) {
                Some(k) => k,
                None => n * n,
            },
            None => first,
        };
        let r = PartialSquareGeneratorDyn {
            entries_left,
            index,
            gen,
            partial_sq,
            sq,
            base: Ghost(partial.flat()),
        };
        proof {
            if entries_left != 0 {
                let g = r.gen->0;
                g.lemma_wf();
            }
        }
        r
    }
}

} // verus!
