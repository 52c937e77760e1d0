//! Enumeration of the increasing k-tuples of 0..n (the k-element subsets) in
//! lexicographic order.
use vstd::prelude::*;

verus! {

/// `c` is strictly increasing and its entries are below `n`.
pub open spec fn is_tuple(c: Seq<usize>, n: nat) -> bool {
    &&& forall|i: int, j: int| 0 <= i < j < c.len() ==> #[trigger] c[i] < #[trigger] c[j]
    &&& forall|i: int| 0 <= i < c.len() ==> #[trigger] c[i] < n
}

/// `c` is the last tuple: it starts at n - k, so it is n - k, ..., n - 1.
pub open spec fn is_last_tuple(c: Seq<usize>, n: nat) -> bool {
    c.len() > 0 && c[0] == n - c.len()
}

/// Position `i` of `c` can still grow: every later position holds its greatest value.
pub open spec fn is_pivot(c: Seq<usize>, n: nat, i: int) -> bool {
    &&& 0 <= i < c.len()
    &&& c[i] < n + i - c.len()
    &&& forall|j: int| i < j < c.len() ==> #[trigger] c[j] >= n + j - c.len()
}

/// The tuple that follows `c` in lexicographic order: the last position that can
/// grow is increased by one, and the positions after it follow it consecutively.
pub open spec fn next_tuple(c: Seq<usize>, n: nat) -> Seq<usize> {
    let i = choose|i: int| is_pivot(c, n, i);
    Seq::new(c.len(), |j: int| if j < i { c[j] } else { (c[i] + (j - i) + 1) as usize })
}

proof fn lemma_tuple_bound(c: Seq<usize>, n: nat, j: int)
    requires
        is_tuple(c, n),
        0 <= j < c.len(),
    ensures
        c[j] <= n - c.len() + j,
    decreases c.len() - j,
{
    if j + 1 < c.len() {
        lemma_tuple_bound(c, n, j + 1);
        assert(c[j] < c[j + 1]);
    }
}

/// Advances `c` in place to `next_tuple(c, n)`, unless it is the last tuple.
fn advance(c: &mut Vec<usize>, n: usize)
    requires
        is_tuple(old(c)@, n as nat),
        old(c)@.len() <= n,
        !is_last_tuple(old(c)@, n as nat),
    ensures
        final(c)@ == next_tuple(old(c)@, n as nat),
        is_tuple(final(c)@, n as nat),
{
    let k = c.len();
    let ghost c0 = c@;
    if k == 0 {
        assert(c@ =~= next_tuple(c0, n as nat));
        return;
    }
    let mut i: usize = k;
    while i > 0 && c[i - 1] >= (n - k) + (i - 1)
        invariant
            i <= k == c@.len() <= n,
            c@ == c0,
            forall|j: int| i <= j < k ==> #[trigger] c0[j] >= n + j - k,
        decreases i,
    {
        i -= 1;
    }
    if i == 0 {
        proof {
            lemma_tuple_bound(c0, n as nat, 0);
            assert(c0[0] >= n - k);
            assert(false);
        }
        return;
    }
    let p = i - 1;
    assert(is_pivot(c0, n as nat, p as int));
    assert forall|q: int| is_pivot(c0, n as nat, q) implies q == p by {
        if q < p {
            assert(c0[p as int] >= n + p - k);
        } else if q > p {
            assert(c0[q] >= n + q - k);
        }
    }
    let base = c[p] + 1;
    let mut j: usize = p;
    while j < k
        invariant
            p <= j <= k == c@.len() <= n,
            base == c0[p as int] + 1,
            c0[p as int] < n + p - k,
            forall|q: int| 0 <= q < p ==> #[trigger] c@[q] == c0[q],
            forall|q: int| p <= q < j ==> #[trigger] c@[q] == c0[p as int] + (q - p) + 1,
        decreases k - j,
    {
        c.set(j, base + (j - p));
        j += 1;
    }
    assert(c@ =~= next_tuple(c0, n as nat));
}

/// Walks the increasing K-tuples of 0..n in lexicographic order.
pub struct TupleIterator<const K: usize> {
    n: usize,
    current: Option<[usize; K]>,
}

impl<const K: usize> TupleIterator<K> {
    #[verifier::type_invariant]
    spec fn holds_tuple(&self) -> bool {
        self.current matches Some(c) ==> is_tuple(c@, self.n as nat) && K <= self.n
    }

    /// The tuple to be handed out next, if any.
    pub closed spec fn current(&self) -> Option<Seq<usize>> {
        match self.current {
            Some(c) => Some(c@),
            None => None,
        }
    }

    /// The size of the ground set.
    pub closed spec fn size(&self) -> nat {
        self.n as nat
    }

    /// Starts at 0, 1, ..., K - 1; there is no tuple when n < K.
    pub fn new(n: usize) -> (r: Self)
        ensures
            r.size() == n,
            n >= K ==> r.current() == Some(Seq::new(K as nat, |i: int| i as usize)),
            n < K ==> r.current() is None,
    {
        if n >= K {
            let mut first = [0usize; K];
            let mut i: usize = 0;
            while i < K
                invariant
                    i <= K,
                    forall|j: int| 0 <= j < i ==> #[trigger] first@[j] == j,
                decreases K - i,
            {
                first[i] = i;
                i += 1;
            }
            assert(first@ =~= Seq::new(K as nat, |i: int| i as usize));
            TupleIterator { n, current: Some(first) }
        } else {
            TupleIterator { n, current: None }
        }
    }

    /// Hands out the current tuple and moves to the next one.
    pub fn next(&mut self) -> (r: Option<[usize; K]>)
        ensures
            final(self).size() == old(self).size(),
            old(self).current() is None ==> r is None && final(self).current() is None,
            old(self).current() matches Some(c) ==> {
                &&& r matches Some(t) && t@ == c
                &&& is_last_tuple(c, old(self).size()) ==> final(self).current() is None
                &&& !is_last_tuple(c, old(self).size()) ==> final(self).current() == Some(next_tuple(c, old(self).size()))
            },
    {
        proof {
            use_type_invariant(&*self);
        }
        match self.current {
            None => None,
            Some(current) => {
                let prev = current;
                if K > 0 && current[0] == self.n - K {
                    self.current = None;
                } else {
                    let mut v: Vec<usize> = Vec::new();
                    let mut i: usize = 0;
                    while i < K
                        invariant
                            i <= K,
                            v@ == current@.take(i as int),
                        decreases K - i,
                    {
                        v.push(current[i]);
                        i += 1;
                    }
                    assert(v@ =~= current@);
                    advance(&mut v, self.n);
                    let mut next = current;
                    let mut i: usize = 0;
                    while i < K
                        invariant
                            i <= K == v@.len(),
                            forall|j: int| 0 <= j < i ==> #[trigger] next@[j] == v@[j],
                        decreases K - i,
                    {
                        next[i] = v[i];
                        i += 1;
                    }
                    assert(next@ =~= v@);
                    self.current = Some(next);
                }
                Some(prev)
            },
        }
    }
}

/// Walks the increasing k-tuples of 0..n in lexicographic order, for k chosen at run time.
pub struct TupleIteratorDyn {
    n: usize,
    k: usize,
    current: Option<Vec<usize>>,
}

impl TupleIteratorDyn {
    #[verifier::type_invariant]
    spec fn holds_tuple(&self) -> bool {
        self.current matches Some(c) ==> is_tuple(c@, self.n as nat) && c@.len() == self.k && self.k <= self.n
    }

    /// The tuple to be handed out next, if any.
    pub closed spec fn current(&self) -> Option<Seq<usize>> {
        match self.current {
            Some(c) => Some(c@),
            None => None,
        }
    }

    /// The size of the ground set.
    pub closed spec fn size(&self) -> nat {
        self.n as nat
    }

    /// Starts at 0, 1, ..., k - 1.
    pub fn new(n: usize, k: usize) -> (r: Self)
        requires
            n >= k,
        ensures
            r.size() == n,
            r.current() == Some(Seq::new(k as nat, |i: int| i as usize)),
    {
        let mut first: Vec<usize> = Vec::new();
        let mut i: usize = 0;
        while i < k
            invariant
                i <= k,
                first@ == Seq::new(i as nat, |j: int| j as usize),
            decreases k - i,
        {
            first.push(i);
            i += 1;
            assert(first@ =~= Seq::new(i as nat, |j: int| j as usize));
        }
        TupleIteratorDyn { n, k, current: Some(first) }
    }

    /// Hands out the current tuple and moves to the next one.
    pub fn next(&mut self) -> (r: Option<Vec<usize>>)
        ensures
            final(self).size() == old(self).size(),
            old(self).current() is None ==> r is None && final(self).current() is None,
            old(self).current() matches Some(c) ==> {
                &&& r matches Some(t) && t@ == c
                &&& is_last_tuple(c, old(self).size()) ==> final(self).current() is None
                &&& !is_last_tuple(c, old(self).size()) ==> final(self).current() == Some(next_tuple(c, old(self).size()))
            },
    {
        proof {
            use_type_invariant(&*self);
        }
        let mut current: Option<Vec<usize>> = None;
        std::mem::swap(&mut current, &mut self.current);
        match current {
            None => {
                self.current = None;
                None
            },
            Some(current) => {
                let prev = current.clone();
                assert(prev@ =~= current@);
                if self.k > 0 && current[0] == self.n - self.k {
                    self.current = None;
                } else {
                    let mut next = current;
                    advance(&mut next, self.n);
                    self.current = Some(next);
                }
                Some(prev)
            },
        }
    }
}

} // verus!
