//! A growable set of natural numbers, stored as the bits of a vector of words.
use vstd::prelude::*;
use vstd::set_lib::*;
use crate::bitset::{
    BitSet64, bits64_set, lemma_bits64_ext, lemma_bits64_finite, lemma_bits64_or, lemma_bits64_and,
    lemma_bits64_not, lemma_bits64_zero_max,
};
use crate::set_util::{is_least, set_min, usize_seq_set, lemma_set_min_unique, lemma_subset_range_finite,
    lemma_set_disjoint_lens, lemma_usize_seq_set_take, lemma_usize_seq_set_full};

verus! {

/// The elements held by a sequence of words: word `k` holds 64 * k..64 * (k + 1).
pub open spec fn words_set(ws: Seq<u64>) -> Set<int> {
    Set::new(|i: int| 0 <= i < 64 * ws.len() && bits64_set(ws[i / 64]).contains(i % 64))
}

proof fn lemma_div64(k: int, j: int)
    requires
        0 <= j < 64,
    ensures
        (64 * k + j) / 64 == k,
        (64 * k + j) % 64 == j,
{
}

proof fn lemma_words_set_bounds(ws: Seq<u64>)
    ensures
        forall|i: int| #[trigger] words_set(ws).contains(i) ==> 0 <= i < 64 * ws.len(),
        words_set(ws).finite(),
{
    lemma_subset_range_finite(words_set(ws), 0, 64 * ws.len() as int);
}

/// Membership in a word-set depends on the word that holds it only.
proof fn lemma_words_set_member(ws: Seq<u64>, x: int)
    requires
        0 <= x < 64 * ws.len(),
    ensures
        words_set(ws).contains(x) == bits64_set(ws[x / 64]).contains(x % 64),
        0 <= x / 64 < ws.len(),
        0 <= x % 64 < 64,
{
}

/// The elements of a prefix of the words are among all the elements.
proof fn lemma_words_set_prefix(ws: Seq<u64>, i: int)
    requires
        0 <= i <= ws.len(),
    ensures
        words_set(ws.take(i)).subset_of(words_set(ws)),
        words_set(ws.take(i)).len() <= words_set(ws).len(),
{
    assert forall|x: int| words_set(ws.take(i)).contains(x) implies words_set(ws).contains(x) by {
        lemma_words_set_member(ws.take(i), x);
        lemma_words_set_member(ws, x);
    }
    lemma_words_set_bounds(ws);
    lemma_len_subset(words_set(ws.take(i)), words_set(ws));
}

/// The elements held by word `k` alone.
pub open spec fn word_part(ws: Seq<u64>, k: int) -> Set<int> {
    Set::new(|i: int| 64 * k <= i < 64 * (k + 1) && bits64_set(ws[k]).contains(i - 64 * k))
}

proof fn lemma_word_part_len(ws: Seq<u64>, k: int)
    requires
        0 <= k < ws.len(),
    ensures
        word_part(ws, k).finite(),
        word_part(ws, k).len() == bits64_set(ws[k]).len(),
{
    let f = |j: int| j + 64 * k;
    let s = bits64_set(ws[k]);
    lemma_bits64_finite(ws[k]);
    assert forall|i: int| #[trigger] word_part(ws, k).contains(i) implies exists|j: int| #[trigger] s.contains(j) && f(j) == i by {
        assert(f(i - 64 * k) == i);
    }
    assert(s.map(f) =~= word_part(ws, k));
    assert forall|a: int, b: int| s.contains(a) && s.contains(b) && #[trigger] f(a) == #[trigger] f(b) implies a == b by {}
    lemma_map_size(s, word_part(ws, k), f);
}

/// Appending a word adds its elements above all earlier ones.
proof fn lemma_words_set_push(ws: Seq<u64>, w: u64)
    ensures
        words_set(ws.push(w)) == words_set(ws).union(word_part(ws.push(w), ws.len() as int)),
        words_set(ws).disjoint(word_part(ws.push(w), ws.len() as int)),
        words_set(ws.push(w)).len() == words_set(ws).len() + bits64_set(w).len(),
        words_set(ws.push(w)).finite(),
{
    let n = ws.len() as int;
    let ws2 = ws.push(w);
    assert forall|x: int| #[trigger] words_set(ws2).contains(x) == words_set(ws).union(word_part(ws2, n)).contains(x) by {
        if 0 <= x < 64 * (n + 1) {
            lemma_words_set_member(ws2, x);
            if x < 64 * n {
                lemma_words_set_member(ws, x);
            } else {
                assert(x / 64 == n);
            }
        }
    }
    assert(words_set(ws2) =~= words_set(ws).union(word_part(ws2, n)));
    lemma_words_set_bounds(ws);
    lemma_word_part_len(ws2, n);
    lemma_set_disjoint_lens(words_set(ws), word_part(ws2, n));
}

proof fn lemma_words_set_empty()
    ensures
        words_set(Seq::<u64>::empty()) == Set::<int>::empty(),
{
    assert(words_set(Seq::<u64>::empty()) =~= Set::<int>::empty());
}

/// A set of natural numbers, stored in as many 64-bit words as the largest element needs.
#[derive(Debug)]
pub struct BitVec {
    words: Vec<u64>,
}

impl BitVec {
    /// Every element position fits in a `usize`.
    #[verifier::type_invariant]
    spec fn fits(&self) -> bool {
        64 * self.words@.len() <= usize::MAX + 1
    }
}

impl Clone for BitVec {
    fn clone(&self) -> (r: Self)
        ensures
            r@ == self@,
            r.num_words() == self.num_words(),
    {
        proof {
            use_type_invariant(self);
        }
        let words = self.words.clone();
        assert(words@ =~= self.words@);
        BitVec { words }
    }
}

impl View for BitVec {
    type V = Set<int>;

    closed spec fn view(&self) -> Set<int> {
        words_set(self.words@)
    }
}

impl BitVec {
    /// The number of words held; elements are below 64 times this.
    pub closed spec fn num_words(&self) -> nat {
        self.words@.len()
    }

    pub proof fn lemma_view(&self)
        ensures
            self@.finite(),
            forall|i: int| #[trigger] self@.contains(i) ==> 0 <= i < 64 * self.num_words(),
    {
        lemma_words_set_bounds(self.words@);
    }

    pub fn empty() -> (r: Self)
        ensures
            r@ == Set::<int>::empty(),
            r.num_words() == 0,
    {
        proof {
            lemma_words_set_empty();
        }
        BitVec { words: Vec::new() }
    }

    pub fn with_capacity(capacity: usize) -> (r: Self)
        ensures
            r@ == Set::<int>::empty(),
            r.num_words() == 0,
    {
        proof {
            lemma_words_set_empty();
        }
        BitVec { words: Vec::new() }
    }

    pub fn all_less_than(n: usize) -> (r: Self)
        ensures
            r@ == set_int_range(0, n as int),
    {
        let mut r = Self::empty();
        let mut i: usize = 0;
        while i < n
            invariant
                i <= n,
                r@ == set_int_range(0, i as int),
            decreases n - i,
        {
            r.insert(i);
            i += 1;
            assert(r@ =~= set_int_range(0, i as int));
        }
        r
    }

    pub fn from_iter(items: Vec<usize>) -> (r: Self)
        ensures
            r@ == usize_seq_set(items@),
    {
        let mut r = Self::empty();
        let mut i: usize = 0;
        proof {
            lemma_usize_seq_set_full(items@);
        }
        while i < items.len()
            invariant
                i <= items@.len(),
                r@ == usize_seq_set(items@.take(i as int)),
            decreases items@.len() - i,
        {
            proof {
                lemma_usize_seq_set_take(items@, i as int);
            }
            r.insert(items[i]);
            i += 1;
        }
        proof {
            lemma_usize_seq_set_full(items@);
        }
        r
    }

    pub fn is_empty(&self) -> (r: bool)
        ensures
            r == (self@ == Set::<int>::empty()),
    {
        let mut k: usize = 0;
        proof {
            lemma_bits64_zero_max();
        }
        while k < self.words.len()
            invariant
                k <= self.words@.len(),
                forall|j: int| 0 <= j < k ==> self.words@[j] == 0,
            decreases self.words@.len() - k,
        {
            if self.words[k] != 0 {
                proof {
                    lemma_bits64_zero_max();
                    let w = self.words@[k as int];
                    if self@ == Set::<int>::empty() {
                        assert forall|j: int| !(#[trigger] bits64_set(w).contains(j)) by {
                            if 0 <= j < 64 {
                                lemma_div64(k as int, j);
                                lemma_words_set_member(self.words@, 64 * k + j);
                            }
                        }
                        assert(bits64_set(w) =~= bits64_set(0u64));
                        lemma_bits64_ext(w, 0u64);
                    }
                }
                return false;
            }
            k += 1;
        }
        proof {
            assert forall|x: int| !self@.contains(x) by {
                if 0 <= x < 64 * self.words@.len() {
                    lemma_words_set_member(self.words@, x);
                }
            }
            assert(self@ =~= Set::<int>::empty());
        }
        true
    }

    pub fn insert(&mut self, index: usize)
        ensures
            final(self)@ == old(self)@.insert(index as int),
            final(self).num_words() == if old(self).num_words() <= index / 64 {
                index / 64 + 1
            } else {
                old(self).num_words() as int
            },
    {
        proof {
            use_type_invariant(&*self);
        }
        let word = index / 64;
        let bit = index % 64;
        let mut words: Vec<u64> = Vec::new();
        std::mem::swap(&mut words, &mut self.words);
        let ghost old_words = words@;
        if words.len() <= word {
            words.resize(word + 1, 0);
        }
        let ghost mid_words = words@;
        proof {
            lemma_bits64_zero_max();
            assert forall|x: int| #[trigger] words_set(mid_words).contains(x) == words_set(old_words).contains(x) by {
                if 0 <= x < 64 * mid_words.len() {
                    lemma_words_set_member(mid_words, x);
                    if x < 64 * old_words.len() {
                        lemma_words_set_member(old_words, x);
                    }
                }
            }
            lemma_words_set_bounds(old_words);
        }
        let mut w = BitSet64::from_bits(words[word]);
        w.insert(bit);
        words.set(word, w.bits());
        proof {
            assert forall|x: int| #[trigger] words_set(words@).contains(x) == words_set(old_words).insert(index as int).contains(x) by {
                if 0 <= x < 64 * words@.len() {
                    lemma_words_set_member(words@, x);
                    lemma_words_set_member(mid_words, x);
                    assert(x == index <==> (x / 64 == word && x % 64 == bit));
                }
            }
            assert(64 * (index / 64 + 1) <= usize::MAX + 1);
        }
        self.words = words;
        assert(self@ =~= old(self)@.insert(index as int));
    }

    pub fn remove(&mut self, index: usize)
        ensures
            final(self)@ == old(self)@.remove(index as int),
            final(self).num_words() == old(self).num_words(),
    {
        proof {
            use_type_invariant(&*self);
        }
        let word_index = index / 64;
        if word_index < self.words.len() {
            let mut words: Vec<u64> = Vec::new();
            std::mem::swap(&mut words, &mut self.words);
            let ghost old_words = words@;
            let mut w = BitSet64::from_bits(words[word_index]);
            w.remove(index % 64);
            words.set(word_index, w.bits());
            proof {
                assert forall|x: int| #[trigger] words_set(words@).contains(x) == words_set(old_words).remove(index as int).contains(x) by {
                    if 0 <= x < 64 * words@.len() {
                        lemma_words_set_member(words@, x);
                        lemma_words_set_member(old_words, x);
                    }
                }
            }
            self.words = words;
            assert(self@ =~= old(self)@.remove(index as int));
        } else {
            proof {
                lemma_words_set_bounds(self.words@);
            }
            assert(self@ =~= old(self)@.remove(index as int));
        }
    }

    pub fn contains(&self, index: usize) -> (r: bool)
        ensures
            r == self@.contains(index as int),
    {
        let word = index / 64;
        if word < self.words.len() {
            proof {
                lemma_words_set_member(self.words@, index as int);
            }
            BitSet64::from_bits(self.words[word]).contains(index % 64)
        } else {
            proof {
                lemma_words_set_bounds(self.words@);
            }
            false
        }
    }

    /// The word at `k`, or zero past the end.
    fn word_or_zero(&self, k: usize) -> (r: u64)
        ensures
            bits64_set(r) == Set::new(|j: int| 0 <= j < 64 && self@.contains(64 * k + j)),
            k < self.words@.len() ==> r == self.words@[k as int],
    {
        proof {
            lemma_bits64_zero_max();
            lemma_words_set_bounds(self.words@);
        }
        let r = if k < self.words.len() {
            self.words[k]
        } else {
            0
        };
        assert forall|j: int| #[trigger] bits64_set(r).contains(j) == (0 <= j < 64 && self@.contains(64 * k + j)) by {
            if 0 <= j < 64 {
                lemma_div64(k as int, j);
                if k < self.words@.len() {
                    lemma_words_set_member(self.words@, 64 * k + j);
                }
            }
        }
        assert(bits64_set(r) =~= Set::new(|j: int| 0 <= j < 64 && self@.contains(64 * k + j)));
        r
    }

    pub fn union(&self, other: &Self) -> (r: Self)
        ensures
            r@ == self@.union(other@),
            r.num_words() == if self.num_words() < other.num_words() {
                other.num_words()
            } else {
                self.num_words()
            },
    {
        proof {
            use_type_invariant(self);
            use_type_invariant(other);
        }
        let new_len = if self.words.len() < other.words.len() {
            other.words.len()
        } else {
            self.words.len()
        };
        let mut words: Vec<u64> = Vec::new();
        let mut i: usize = 0;
        while i < new_len
            invariant
                i <= new_len,
                64 * new_len <= usize::MAX + 1,
                new_len == if self.words@.len() < other.words@.len() {
                    other.words@.len()
                } else {
                    self.words@.len()
                },
                words@.len() == i,
                forall|x: int| #[trigger] words_set(words@).contains(x) == (x < 64 * i && self@.union(other@).contains(x)),
            decreases new_len - i,
        {
            let a = self.word_or_zero(i);
            let b = other.word_or_zero(i);
            let ghost before = words@;
            words.push(a | b);
            proof {
                lemma_bits64_or(a, b);
                lemma_words_set_push(before, a | b);
                assert forall|x: int| #[trigger] words_set(words@).contains(x) == (x < 64 * (i + 1) && self@.union(other@).contains(x)) by {
                    self.lemma_view();
                    other.lemma_view();
                    if 64 * i <= x < 64 * (i + 1) {
                        assert(word_part(words@, i as int).contains(x) == bits64_set(a | b).contains(x - 64 * i));
                        assert(64 * i + (x - 64 * i) == x);
                    }
                }
            }
            i += 1;
        }
        proof {
            self.lemma_view();
            other.lemma_view();
        }
        let r = BitVec { words };
        assert(r@ =~= self@.union(other@));
        r
    }

    pub fn union_into(&self, other: &Self, result: &mut Self)
        ensures
            final(result)@ == self@.union(other@),
            final(result).num_words() == if self.num_words() < other.num_words() {
                other.num_words()
            } else {
                self.num_words()
            },
    {
        *result = self.union(other);
    }

    pub fn intersect(&self, other: &Self) -> (r: Self)
        ensures
            r@ == self@.intersect(other@),
    {
        proof {
            use_type_invariant(self);
            use_type_invariant(other);
        }
        let new_len = if self.words.len() < other.words.len() {
            self.words.len()
        } else {
            other.words.len()
        };
        let mut words: Vec<u64> = Vec::new();
        let mut i: usize = 0;
        while i < new_len
            invariant
                i <= new_len,
                new_len <= self.words@.len(),
                new_len <= other.words@.len(),
                new_len == self.words@.len() || new_len == other.words@.len(),
                words@.len() == i,
                forall|x: int| #[trigger] words_set(words@).contains(x) == (x < 64 * i && self@.intersect(other@).contains(x)),
            decreases new_len - i,
        {
            let a = self.word_or_zero(i);
            let b = other.word_or_zero(i);
            let ghost before = words@;
            words.push(a & b);
            proof {
                lemma_bits64_and(a, b);
                lemma_words_set_push(before, a & b);
                assert forall|x: int| #[trigger] words_set(words@).contains(x) == (x < 64 * (i + 1) && self@.intersect(other@).contains(x)) by {
                    if 64 * i <= x < 64 * (i + 1) {
                        assert(word_part(words@, i as int).contains(x) == bits64_set(a & b).contains(x - 64 * i));
                        assert(64 * i + (x - 64 * i) == x);
                    }
                }
            }
            i += 1;
        }
        proof {
            self.lemma_view();
            other.lemma_view();
        }
        let r = BitVec { words };
        assert(r@ =~= self@.intersect(other@));
        r
    }

    pub fn minus(&self, other: &Self) -> (r: Self)
        ensures
            r@ == self@.difference(other@),
    {
        proof {
            use_type_invariant(self);
            use_type_invariant(other);
        }
        let new_len = self.words.len();
        let mut words: Vec<u64> = Vec::new();
        let mut i: usize = 0;
        while i < new_len
            invariant
                i <= new_len,
                new_len == self.words@.len(),
                words@.len() == i,
                forall|x: int| #[trigger] words_set(words@).contains(x) == (x < 64 * i && self@.difference(other@).contains(x)),
            decreases new_len - i,
        {
            let a = self.word_or_zero(i);
            let b = other.word_or_zero(i);
            let ghost before = words@;
            words.push(a & !b);
            proof {
                lemma_bits64_not(b);
                lemma_bits64_and(a, !b);
                lemma_words_set_push(before, a & !b);
                assert forall|x: int| #[trigger] words_set(words@).contains(x) == (x < 64 * (i + 1) && self@.difference(other@).contains(x)) by {
                    if 64 * i <= x < 64 * (i + 1) {
                        assert(word_part(words@, i as int).contains(x) == bits64_set(a & !b).contains(x - 64 * i));
                        assert(64 * i + (x - 64 * i) == x);
                    }
                }
            }
            i += 1;
        }
        proof {
            self.lemma_view();
        }
        let r = BitVec { words };
        assert(r@ =~= self@.difference(other@));
        r
    }

    pub fn is_disjoint(&self, other: &Self) -> (r: bool)
        ensures
            r == self@.disjoint(other@),
    {
        let r = self.intersect(other).is_empty();
        proof {
            if r {
                assert forall|x: int| self@.contains(x) implies !other@.contains(x) by {
                    assert(!self@.intersect(other@).contains(x));
                }
            } else if self@.disjoint(other@) {
                assert(self@.intersect(other@) =~= Set::<int>::empty());
            }
        }
        r
    }

    /// Whether every element of this set below the other's word count is in the other set.
    pub fn is_subset_of(&self, other: Self) -> (r: bool)
        ensures
            r == (forall|x: int| #[trigger] self@.contains(x) && x < 64 * other.num_words() ==> other@.contains(x)),
    {
        let n = if self.words.len() < other.words.len() {
            self.words.len()
        } else {
            other.words.len()
        };
        let mut i: usize = 0;
        while i < n
            invariant
                i <= n,
                n <= self.words@.len(),
                n <= other.words@.len(),
                forall|x: int| #[trigger] self@.contains(x) && x < 64 * i ==> other@.contains(x),
            decreases n - i,
        {
            let a = BitSet64::from_bits(self.words[i]);
            let b = BitSet64::from_bits(other.words[i]);
            if !a.is_subset_of(b) {
                proof {
                    assert(!a@.subset_of(b@));
                    let j = choose|j: int| a@.contains(j) && !b@.contains(j);
                    lemma_bits64_finite(self.words@[i as int]);
                    lemma_div64(i as int, j);
                    lemma_words_set_member(self.words@, 64 * i + j);
                    lemma_words_set_member(other.words@, 64 * i + j);
                    assert(self@.contains(64 * i + j) && 64 * i + j < 64 * other.num_words());
                    assert(!other@.contains(64 * i + j));
                }
                return false;
            }
            proof {
                assert forall|x: int| #[trigger] self@.contains(x) && x < 64 * (i + 1) implies other@.contains(x) by {
                    if x >= 64 * i {
                        lemma_words_set_member(self.words@, x);
                        lemma_words_set_member(other.words@, x);
                        assert(x / 64 == i);
                    }
                }
            }
            i += 1;
        }
        proof {
            self.lemma_view();
        }
        true
    }

    pub fn count_ones(&self) -> (r: usize)
        requires
            self@.len() <= usize::MAX,
        ensures
            r == self@.len(),
    {
        proof {
            use_type_invariant(self);
        }
        let mut count: usize = 0;
        let mut i: usize = 0;
        proof {
            lemma_words_set_empty();
            assert(self.words@.take(0) =~= Seq::<u64>::empty());
        }
        while i < self.words.len()
            invariant
                i <= self.words@.len(),
                count == words_set(self.words@.take(i as int)).len(),
                self@.len() <= usize::MAX,
            decreases self.words@.len() - i,
        {
            let c = BitSet64::from_bits(self.words[i]).len();
            proof {
                lemma_words_set_prefix(self.words@, i + 1);
                assert(self.words@.take(i + 1) =~= self.words@.take(i as int).push(self.words@[i as int]));
                lemma_words_set_push(self.words@.take(i as int), self.words@[i as int]);
                lemma_bits64_finite(self.words@[i as int]);
            }
            count = count + c;
            i += 1;
        }
        assert(self.words@.take(self.words@.len() as int) =~= self.words@);
        count
    }

    pub fn first_one(&self) -> (r: Option<usize>)
        ensures
            r is None <==> self@ == Set::<int>::empty(),
            r matches Some(m) ==> is_least(self@, m as int) && m as int == set_min(self@),
    {
        proof {
            use_type_invariant(self);
        }
        let mut k: usize = 0;
        while k < self.words.len()
            invariant
                k <= self.words@.len(),
                64 * self.words@.len() <= usize::MAX + 1,
                forall|x: int| #[trigger] self@.contains(x) ==> x >= 64 * k,
            decreases self.words@.len() - k,
        {
            let w = BitSet64::from_bits(self.words[k]);
            if !w.is_empty() {
                let mut it = w.iter();
                proof {
                    lemma_bits64_finite(self.words@[k as int]);
                }
                let t = it.next().unwrap();
                proof {
                    lemma_div64(k as int, t as int);
                    lemma_words_set_member(self.words@, 64 * k + t);
                    assert forall|x: int| self@.contains(x) implies 64 * k + t <= x by {
                        lemma_words_set_bounds(self.words@);
                        lemma_words_set_member(self.words@, x);
                        if x / 64 == k {
                            assert(x % 64 >= t);
                        }
                    }
                    lemma_set_min_unique(self@, 64 * k + t);
                }
                return Some(k * 64 + t);
            }
            proof {
                assert forall|x: int| #[trigger] self@.contains(x) implies x >= 64 * (k + 1) by {
                    lemma_words_set_bounds(self.words@);
                    lemma_words_set_member(self.words@, x);
                    if x / 64 == k {
                        assert(bits64_set(self.words@[k as int]).contains(x % 64));
                    }
                }
            }
            k += 1;
        }
        proof {
            lemma_words_set_bounds(self.words@);
            assert(self@ =~= Set::<int>::empty());
        }
        None
    }

    pub fn first_zero(&self) -> (r: Option<usize>)
        ensures
            r is None <==> (forall|x: int| 0 <= x < 64 * self.num_words() ==> #[trigger] self@.contains(x)),
            r matches Some(m) ==> m < 64 * self.num_words() && !self@.contains(m as int) && (forall|x: int|
                0 <= x < m ==> #[trigger] self@.contains(x)),
    {
        proof {
            use_type_invariant(self);
        }
        let mut k: usize = 0;
        while k < self.words.len()
            invariant
                k <= self.words@.len(),
                64 * self.words@.len() <= usize::MAX + 1,
                forall|x: int| 0 <= x < 64 * k ==> #[trigger] self@.contains(x),
            decreases self.words@.len() - k,
        {
            let w = BitSet64::from_bits(self.words[k]).complement();
            if !w.is_empty() {
                let mut it = w.iter();
                proof {
                    lemma_bits64_finite(!self.words@[k as int]);
                    w.lemma_view();
                }
                let t = it.next().unwrap();
                proof {
                    lemma_div64(k as int, t as int);
                    lemma_words_set_member(self.words@, 64 * k + t);
                    assert(w@.contains(t as int));
                    assert(!self@.contains(64 * k + t));
                    assert(0 <= 64 * k + t < 64 * self.num_words());
                    assert forall|x: int| 0 <= x < 64 * k + t implies #[trigger] self@.contains(x) by {
                        if x >= 64 * k {
                            lemma_words_set_member(self.words@, x);
                            assert(x / 64 == k);
                            assert(!w@.contains(x % 64));
                        }
                    }
                }
                return Some(k * 64 + t);
            }
            proof {
                assert forall|x: int| 0 <= x < 64 * (k + 1) implies #[trigger] self@.contains(x) by {
                    if x >= 64 * k {
                        lemma_words_set_member(self.words@, x);
                        assert(x / 64 == k);
                        assert(!w@.contains(x % 64));
                    }
                }
            }
            k += 1;
        }
        None
    }

    pub fn iter(&self) -> (r: BitVecIter<'_>)
        ensures
            r.set() == self@,
            r.position() == 0,
    {
        BitVecIter { bitvec: self, index: 0 }
    }
}

/// Walks the elements of a `BitVec` in increasing order.
#[derive(Debug)]
pub struct BitVecIter<'a> {
    bitvec: &'a BitVec,
    index: usize,
}

impl<'a> BitVecIter<'a> {
    /// The set being walked.
    pub closed spec fn set(&self) -> Set<int> {
        self.bitvec@
    }

    /// Everything below this has been handed out.
    pub closed spec fn position(&self) -> int {
        self.index as int
    }

    /// Hands out the least element at or above the position.
    pub fn next(&mut self) -> (r: Option<usize>)
        ensures
            final(self).set() == old(self).set(),
            r matches Some(m) ==> old(self).set().contains(m as int) && m >= old(self).position()
                && final(self).position() == (if m < usize::MAX { m + 1 } else { m as int })
                && (forall|x: int| old(self).position() <= x < m ==> !(#[trigger] old(self).set().contains(x))),
            r is None ==> forall|x: int| old(self).position() <= x <= usize::MAX ==> !(#[trigger] old(self).set().contains(x)),
    {
        let n = self.bitvec.words.len();
        proof {
            self.bitvec.lemma_view();
        }
        let mut i = self.index;
        loop
            invariant
                old(self).index <= i,
                n == self.bitvec.words@.len(),
                self.bitvec == old(self).bitvec,
                self.index == old(self).index,
                forall|x: int| old(self).index <= x < i ==> !(#[trigger] self.bitvec@.contains(x)),
            decreases usize::MAX - i,
        {
            if i / 64 >= n {
                proof {
                    self.bitvec.lemma_view();
                }
                self.index = i;
                return None;
            }
            if self.bitvec.contains(i) {
                if i < usize::MAX {
                    self.index = i + 1;
                } else {
                    self.index = i;
                }
                return Some(i);
            }
            if i == usize::MAX {
                self.index = i;
                return None;
            }
            i += 1;
        }
    }
}

} // verus!
