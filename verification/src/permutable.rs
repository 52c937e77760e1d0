//! All distinct arrangements of a list of numbers, in lexicographic order starting from
//! the list as given and wrapping around.
use vstd::prelude::*;
use crate::arrangement::{next_arrangement, advance_arrangement};

verus! {

/// Lists that can hand out their arrangements.
pub trait Permutable {
    /// The arrangements of the items, each once, starting with the items as they are.
    fn permutations(&self) -> Permutations;
}

impl Permutable for Vec<usize> {
    fn permutations(&self) -> (r: Permutations)
        ensures
            r.items() == self@,
            r.start() == self@,
            r.is_first(),
    {
        let items = self.clone();
        assert(items@ =~= self@);
        Permutations::new(items)
    }
}

/// Walks the arrangements of a list: each call yields the current one and moves on to
/// the lexicographic successor, until the walk is back at the start.
pub struct Permutations {
    is_first: bool,
    start: Vec<usize>,
    items: Vec<usize>,
    n: usize,
}

impl Permutations {
    #[verifier::type_invariant]
    spec fn lengths_agree(&self) -> bool {
        &&& self.items@.len() == self.n
        &&& self.start@.len() == self.n
    }

    /// The arrangement to be handed out next.
    pub closed spec fn items(&self) -> Seq<usize> {
        self.items@
    }

    /// The arrangement the walk started from.
    pub closed spec fn start(&self) -> Seq<usize> {
        self.start@
    }

    /// No arrangement has been handed out yet.
    pub closed spec fn is_first(&self) -> bool {
        self.is_first
    }

    pub fn new(items: Vec<usize>) -> (r: Self)
        ensures
            r.items() == items@,
            r.start() == items@,
            r.is_first(),
    {
        let n = items.len();
        let start = items.clone();
        assert(start@ =~= items@);
        Permutations { is_first: true, n, start, items }
    }

    /// The current arrangement, unless the walk has come back to the start.
    pub fn next(&mut self) -> (r: Option<Vec<usize>>)
        requires
            old(self).items().len() >= 1,
        ensures
            final(self).items() == next_arrangement(old(self).items()),
            final(self).start() == old(self).start(),
            (old(self).items() == old(self).start() && !old(self).is_first()) ==> r is None && !final(self).is_first(),
            !(old(self).items() == old(self).start() && !old(self).is_first()) ==> (r matches Some(v) && v@ == old(self).items() && !final(self).is_first()),
    {
        proof {
            use_type_invariant(&*self);
        }
        let old_items = self.items.clone();
        assert(old_items@ =~= self.items@);
        let mut items = self.items.clone();
        assert(items@ =~= self.items@);
        advance_arrangement(&mut items);
        self.items = items;
        let mut same = true;
        let mut i: usize = 0;
        while i < self.n
            invariant
                i <= self.n == old_items@.len() == self.start@.len(),
                same == (forall|k: int| 0 <= k < i ==> old_items@[k] == self.start@[k]),
            decreases self.n - i,
        {
            if old_items[i] != self.start[i] {
                same = false;
            }
            i += 1;
        }
        assert(same == (old_items@ == self.start@)) by {
            if same {
                assert(old_items@ =~= self.start@);
            }
        }
        if same && !self.is_first {
            None
        } else {
            self.is_first = false;
            Some(old_items)
        }
    }
}

} // verus!
