//! Sets of small integers stored as bits of machine words.
use vstd::prelude::*;
use vstd::set_lib::*;
use vstd::std_specs::bits::*;
use crate::set_util::{is_least, set_min, usize_seq_set, lemma_set_min_unique, lemma_subset_range_finite, lemma_usize_seq_set_take, lemma_usize_seq_set_full, lemma_set_disjoint_lens};

verus! {

// ---------------------------------------------------------------------------
// BitSet16: a set of integers in 0..16 held in one u16 word
// ---------------------------------------------------------------------------

/// Bit `i` of `b` is set (false outside 0..16).
pub open spec fn bit16(b: u16, i: int) -> bool {
    0 <= i < 16 && (b >> (i as u16)) & 1u16 == 1u16
}

/// The set of positions of the set bits of `b`.
pub open spec fn bits16_set(b: u16) -> Set<int> {
    Set::new(|i: int| bit16(b, i))
}

/// Single bits of the word operations on u16.
proof fn bv16_ops(a: u16, b: u16, k: u16)
    by (bit_vector)
    requires
        k < 16,
    ensures
        ((a | b) >> k) & 1u16 == 1u16 <==> ((a >> k) & 1u16 == 1u16 || (b >> k) & 1u16 == 1u16),
        ((a & b) >> k) & 1u16 == 1u16 <==> ((a >> k) & 1u16 == 1u16 && (b >> k) & 1u16 == 1u16),
        ((!a) >> k) & 1u16 == 1u16 <==> !((a >> k) & 1u16 == 1u16),
        !((0u16 >> k) & 1u16 == 1u16),
        (u16::MAX >> k) & 1u16 == 1u16,
{
}

/// Single bits of one set bit and of the words with the low bits set.
proof fn bv16_index(i: u16, k: u16)
    by (bit_vector)
    requires
        k < 16,
        i < 16,
    ensures
        ((1u16 << i) >> k) & 1u16 == 1u16 <==> i == k,
        ((((1u16 << i) - 1u16) as u16) >> k) & 1u16 == 1u16 <==> k < i,
        (1u16 << i) >= 1,
{
}

/// Single bits of shifted words.
proof fn bv16_shift(a: u16, s: u16, k: u16)
    by (bit_vector)
    requires
        k < 16,
        s < 16,
    ensures
        ((a << s) >> k) & 1u16 == 1u16 <==> (k >= s && (a >> ((k - s) as u16)) & 1u16 == 1u16),
        ((a >> s) >> k) & 1u16 == 1u16 <==> (k + s < 16 && (a >> ((k + s) as u16)) & 1u16 == 1u16),
{
}

/// Clearing the lowest set bit t of a word whose bits below t are clear.
proof fn bv16_lowest(b: u16, t: u16, k: u16)
    by (bit_vector)
    requires
        t < 16,
        k < 16,
    ensures
        ((b >> t) & 1u16 == 1u16 && b & (((1u16 << t) - 1u16) as u16) == 0) ==> (((((b - 1u16) as u16) & b) >> k) & 1u16 == 1u16 <==> ((b >> k) & 1u16 == 1u16 && k != t)),
        (k < t && b & (((1u16 << t) - 1u16) as u16) == 0) ==> !((b >> k) & 1u16 == 1u16),
{
}

/// Words that agree bit by bit from m on agree after shifting by m.
proof fn bv16_ext(a: u16, b: u16, m: u16)
    by (bit_vector)
    requires
        m < 16,
    ensures
        (((a >> m) & 1u16 == 1u16) <==> ((b >> m) & 1u16 == 1u16)) ==> (a >> m) & 1u16 == (b >> m) & 1u16,
        (m == 16 - 1 && (a >> m) & 1u16 == (b >> m) & 1u16) ==> a >> m == b >> m,
        (m < 16 - 1 && a >> (m + 1) as u16 == b >> (m + 1) as u16 && (a >> m) & 1u16 == (b >> m) & 1u16) ==> a >> m == b >> m,
        a >> 0u16 == a,
        b >> 0u16 == b,
{
}

/// Masks of the low bits grow one bit at a time.
proof fn bv16_mask(b: u16, m: u16)
    by (bit_vector)
    requires
        m < 16,
    ensures
        b & (((1u16 << 0u16) - 1u16) as u16) == 0,
        (b & (((1u16 << m) - 1u16) as u16) == 0 && (b >> m) & 1u16 == 0u16) ==> b & (((1u16 << (m + 1) as u16) - 1u16) as u16) == 0,
{
}

/// Words that agree on bits m.. agree after shifting by m.
pub proof fn lemma_bits16_ext_from(a: u16, b: u16, m: u16)
    requires
        m < 16,
        forall|k: u16| m <= k < 16 ==> (((a >> k) & 1u16 == 1u16) <==> ((b >> k) & 1u16 == 1u16)),
    ensures
        a >> m == b >> m,
    decreases 16 - m,
{
    assert(((a >> m) & 1u16 == 1u16) <==> ((b >> m) & 1u16 == 1u16));
    bv16_ext(a, b, m);
    if m < 16 - 1 {
        lemma_bits16_ext_from(a, b, (m + 1) as u16);
        bv16_ext(a, b, m);
    }
}

/// Two words with the same set of bits are equal.
pub proof fn lemma_bits16_ext(a: u16, b: u16)
    requires
        bits16_set(a) == bits16_set(b),
    ensures
        a == b,
{
    assert forall|k: u16| k < 16 implies (((a >> k) & 1u16 == 1u16) <==> ((b >> k) & 1u16 == 1u16)) by {
        assert(bits16_set(a).contains(k as int) == bits16_set(b).contains(k as int));
        assert(bits16_set(a).contains(k as int) == bit16(a, k as int));
        assert(bits16_set(b).contains(k as int) == bit16(b, k as int));
        assert(bit16(a, k as int) == ((a >> k) & 1u16 == 1u16));
        assert(bit16(b, k as int) == ((b >> k) & 1u16 == 1u16));
    }
    lemma_bits16_ext_from(a, b, 0u16);
    bv16_ext(a, b, 0u16);
}

pub proof fn lemma_bits16_finite(a: u16)
    ensures
        bits16_set(a).finite(),
        bits16_set(a).len() <= 16,
        forall|i: int| bits16_set(a).contains(i) ==> 0 <= i < 16,
{
    lemma_subset_range_finite(bits16_set(a), 0, 16);
}

pub proof fn lemma_bits16_or(a: u16, b: u16)
    ensures
        bits16_set(a | b) == bits16_set(a).union(bits16_set(b)),
{
    assert forall|i: int| #[trigger] bits16_set(a | b).contains(i) == bits16_set(a).union(bits16_set(b)).contains(i) by {
        if 0 <= i < 16 {
            bv16_ops(a, b, i as u16);
        }
    }
    assert(bits16_set(a | b) =~= bits16_set(a).union(bits16_set(b)));
}

pub proof fn lemma_bits16_and(a: u16, b: u16)
    ensures
        bits16_set(a & b) == bits16_set(a).intersect(bits16_set(b)),
{
    assert forall|i: int| #[trigger] bits16_set(a & b).contains(i) == bits16_set(a).intersect(bits16_set(b)).contains(i) by {
        if 0 <= i < 16 {
            bv16_ops(a, b, i as u16);
        }
    }
    assert(bits16_set(a & b) =~= bits16_set(a).intersect(bits16_set(b)));
}

pub proof fn lemma_bits16_not(a: u16)
    ensures
        bits16_set(!a) == set_int_range(0, 16).difference(bits16_set(a)),
{
    assert forall|i: int| #[trigger] bits16_set(!a).contains(i) == set_int_range(0, 16).difference(bits16_set(a)).contains(i) by {
        if 0 <= i < 16 {
            bv16_ops(a, a, i as u16);
        }
    }
    assert(bits16_set(!a) =~= set_int_range(0, 16).difference(bits16_set(a)));
}

pub proof fn lemma_bits16_single(i: u16)
    requires
        i < 16,
    ensures
        bits16_set(1u16 << i) == Set::<int>::empty().insert(i as int),
{
    assert forall|j: int| #[trigger] bits16_set(1u16 << i).contains(j) == Set::<int>::empty().insert(i as int).contains(j) by {
        if 0 <= j < 16 {
            bv16_index(i, j as u16);
        }
    }
    assert(bits16_set(1u16 << i) =~= Set::<int>::empty().insert(i as int));
}

pub proof fn lemma_bits16_zero_max()
    ensures
        bits16_set(0u16) == Set::<int>::empty(),
        bits16_set(u16::MAX) == set_int_range(0, 16),
{
    assert forall|j: int| #[trigger] bits16_set(0u16).contains(j) == Set::<int>::empty().contains(j) by {
        if 0 <= j < 16 {
            bv16_ops(0u16, 0u16, j as u16);
        }
    }
    assert forall|j: int| #[trigger] bits16_set(u16::MAX).contains(j) == set_int_range(0, 16).contains(j) by {
        if 0 <= j < 16 {
            bv16_ops(0u16, 0u16, j as u16);
        }
    }
    assert(bits16_set(0u16) =~= Set::<int>::empty());
    assert(bits16_set(u16::MAX) =~= set_int_range(0, 16));
}

pub proof fn lemma_bits16_low(n: u16)
    requires
        n < 16,
    ensures
        bits16_set(((1u16 << n) - 1u16) as u16) == set_int_range(0, n as int),
{
    assert forall|j: int| #[trigger] bits16_set(((1u16 << n) - 1u16) as u16).contains(j) == set_int_range(0, n as int).contains(j) by {
        if 0 <= j < 16 {
            bv16_index(n, j as u16);
        }
    }
    assert(bits16_set(((1u16 << n) - 1u16) as u16) =~= set_int_range(0, n as int));
}

/// Clearing the lowest set bit removes the least element.
pub proof fn lemma_bits16_pop(b: u16, t: u16)
    requires
        b != 0,
        t < 16,
        (b >> t) & 1u16 == 1u16,
        b & (((1u16 << t) - 1u16) as u16) == 0,
    ensures
        is_least(bits16_set(b), t as int),
        bits16_set(((b - 1u16) as u16) & b) == bits16_set(b).remove(t as int),
{
    assert forall|j: int| #[trigger] bits16_set(((b - 1u16) as u16) & b).contains(j) == bits16_set(b).remove(t as int).contains(j) by {
        if 0 <= j < 16 {
            bv16_lowest(b, t, j as u16);
        }
    }
    assert(bits16_set(((b - 1u16) as u16) & b) =~= bits16_set(b).remove(t as int));
    assert forall|x: int| bits16_set(b).contains(x) implies t <= x by {
        if x < t {
            bv16_lowest(b, t, x as u16);
        }
    }
}

/// A set of integers in 0..16, stored as the bits of one word.
#[derive(Clone, Copy, PartialEq, Eq, Structural, PartialOrd, Ord, Hash, Default, Debug)]
pub struct BitSet16 {
    bits: u16,
}

impl View for BitSet16 {
    type V = Set<int>;

    closed spec fn view(&self) -> Set<int> {
        bits16_set(self.bits)
    }
}

impl BitSet16 {
    /// The word that holds the set.
    pub closed spec fn raw(&self) -> u16 {
        self.bits
    }

    /// Two sets are equal exactly when they hold the same elements.
    pub proof fn lemma_eq_iff_view(a: Self, b: Self)
        ensures
            (a == b) <==> (a@ == b@),
    {
        if a@ == b@ {
            lemma_bits16_ext(a.bits, b.bits);
        }
    }

    pub proof fn lemma_view(&self)
        ensures
            self@ == bits16_set(self.raw()),
            self@.finite(),
            self@.len() <= 16,
            forall|i: int| self@.contains(i) ==> 0 <= i < 16,
    {
        lemma_bits16_finite(self.bits);
    }

    /// The position of the lowest set bit of a nonzero word.
    fn lowest(b: u16) -> (t: u32)
        requires
            b != 0,
        ensures
            t < 16,
            (b >> (t as u16)) & 1u16 == 1u16,
            b & (((1u16 << (t as u16)) - 1u16) as u16) == 0,
            is_least(bits16_set(b), t as int),
    {
        let t = b.trailing_zeros();
        proof {
            axiom_u16_trailing_zeros(b);
            assert forall|j: u16| j < (t as u16) implies #[trigger] ((b >> j) & 1u16) == 0u16 by {}
            bv16_low_from_tz(b, t as u16);
            lemma_bits16_pop(b, t as u16);
        }
        t
    }

    pub fn empty() -> (r: Self)
        ensures
            r@ == Set::<int>::empty(),
    {
        proof {
            lemma_bits16_zero_max();
        }
        BitSet16 { bits: 0 }
    }

    pub fn full() -> (r: Self)
        ensures
            r@ == set_int_range(0, 16),
    {
        proof {
            lemma_bits16_zero_max();
        }
        BitSet16 { bits: u16::MAX }
    }

    pub fn all_less_than(n: usize) -> (r: Self)
        requires
            n <= 16,
        ensures
            r@ == set_int_range(0, n as int),
    {
        if n == 16 {
            Self::full()
        } else {
            proof {
                lemma_bits16_low(n as u16);
            }
            proof {
                bv16_index(n as u16, 0u16);
            }
            BitSet16 { bits: ((1u16 << (n as u16)) - 1) as u16 }
        }
    }

    pub fn from_bits(bits: u16) -> (r: Self)
        ensures
            r@ == bits16_set(bits),
            r.raw() == bits,
    {
        BitSet16 { bits }
    }

    pub fn from_range(range: core::ops::Range<usize>) -> (r: Self)
        requires
            range.start <= 16,
            range.end <= 16,
        ensures
            r@ == set_int_range(range.start as int, range.end as int),
    {
        let start = range.start;
        let end = range.end;
        let r = Self::all_less_than(end).intersect(Self::all_less_than(start).complement());
        assert(r@ =~= set_int_range(start as int, end as int));
        r
    }

    pub fn from_iter(items: Vec<usize>) -> (r: Self)
        requires
            forall|k: int| 0 <= k < items.len() ==> items[k] < 16,
        ensures
            r@ == usize_seq_set(items@),
    {
        Self::from_slice(items.as_slice())
    }

    pub fn from_slice(slice: &[usize]) -> (r: Self)
        requires
            forall|k: int| 0 <= k < slice@.len() ==> slice@[k] < 16,
        ensures
            r@ == usize_seq_set(slice@),
    {
        let mut bitset = Self::empty();
        let mut i: usize = 0;
        proof {
            lemma_usize_seq_set_full(slice@);
        }
        while i < slice.len()
            invariant
                i <= slice@.len(),
                forall|k: int| 0 <= k < slice@.len() ==> slice@[k] < 16,
                bitset@ == usize_seq_set(slice@.take(i as int)),
            decreases slice@.len() - i,
        {
            proof {
                lemma_usize_seq_set_take(slice@, i as int);
            }
            bitset.insert(slice[i]);
            i += 1;
        }
        proof {
            lemma_usize_seq_set_full(slice@);
        }
        bitset
    }

    pub fn bits(&self) -> (r: u16)
        ensures
            r == self.raw(),
            bits16_set(r) == self@,
    {
        self.bits
    }

    pub fn is_empty(&self) -> (r: bool)
        ensures
            r == (self@ == Set::<int>::empty()),
    {
        proof {
            lemma_bits16_zero_max();
            if self@ == Set::<int>::empty() {
                lemma_bits16_ext(self.bits, 0u16);
            }
        }
        self.bits == 0
    }

    pub fn single(i: usize) -> (r: Self)
        requires
            i < 16,
        ensures
            r@ == Set::<int>::empty().insert(i as int),
    {
        proof {
            lemma_bits16_single(i as u16);
        }
        BitSet16 { bits: 1u16 << (i as u16) }
    }

    pub fn insert(&mut self, index: usize)
        requires
            index < 16,
        ensures
            final(self)@ == old(self)@.insert(index as int),
    {
        proof {
            lemma_bits16_single(index as u16);
            lemma_bits16_or(self.bits, 1u16 << (index as u16));
        }
        let bit_mask: u16 = 1u16 << (index as u16);
        self.bits = self.bits | bit_mask;
        assert(self@ =~= old(self)@.insert(index as int));
    }

    pub fn remove(&mut self, index: usize)
        requires
            index < 16,
        ensures
            final(self)@ == old(self)@.remove(index as int),
    {
        proof {
            lemma_bits16_single(index as u16);
            lemma_bits16_not(1u16 << (index as u16));
            lemma_bits16_and(self.bits, !(1u16 << (index as u16)));
        }
        let bit_mask: u16 = 1u16 << (index as u16);
        self.bits = self.bits & !bit_mask;
        assert(self@ =~= old(self)@.remove(index as int));
    }

    pub fn contains(&self, index: usize) -> (r: bool)
        requires
            index < 16,
        ensures
            r == self@.contains(index as int),
    {
        proof {
            lemma_bits16_single(index as u16);
            lemma_bits16_and(self.bits, 1u16 << (index as u16));
            lemma_bits16_zero_max();
            if self.bits & (1u16 << (index as u16)) == 0 {
                assert(!bits16_set(0u16).contains(index as int));
            } else {
                if !self@.contains(index as int) {
                    assert(bits16_set(self.bits & (1u16 << (index as u16))) =~= Set::<int>::empty());
                    lemma_bits16_ext(self.bits & (1u16 << (index as u16)), 0u16);
                }
            }
        }
        let bit_mask: u16 = 1u16 << (index as u16);
        (self.bits & bit_mask) != 0
    }

    pub fn union(&self, other: Self) -> (r: Self)
        ensures
            r@ == self@.union(other@),
    {
        proof {
            lemma_bits16_or(self.bits, other.bits);
        }
        BitSet16 { bits: self.bits | other.bits }
    }

    pub fn intersect(&self, other: Self) -> (r: Self)
        ensures
            r@ == self@.intersect(other@),
    {
        proof {
            lemma_bits16_and(self.bits, other.bits);
        }
        BitSet16 { bits: self.bits & other.bits }
    }

    pub fn complement(&self) -> (r: Self)
        ensures
            r@ == set_int_range(0, 16).difference(self@),
    {
        proof {
            lemma_bits16_not(self.bits);
        }
        BitSet16 { bits: !self.bits }
    }

    pub fn is_disjoint(&self, other: Self) -> (r: bool)
        ensures
            r == self@.disjoint(other@),
    {
        proof {
            lemma_bits16_and(self.bits, other.bits);
            lemma_bits16_zero_max();
            if self@.disjoint(other@) {
                assert(bits16_set(self.bits & other.bits) =~= Set::<int>::empty());
                lemma_bits16_ext(self.bits & other.bits, 0u16);
            }
            if self.bits & other.bits == 0 {
                assert forall|x: int| self@.contains(x) implies !other@.contains(x) by {
                    assert(!bits16_set(self.bits & other.bits).contains(x));
                }
            }
        }
        self.bits & other.bits == 0
    }

    pub fn is_subset_of(&self, other: Self) -> (r: bool)
        ensures
            r == self@.subset_of(other@),
    {
        proof {
            lemma_bits16_and(self.bits, other.bits);
            if self@.subset_of(other@) {
                assert(bits16_set(self.bits & other.bits) =~= bits16_set(self.bits));
                lemma_bits16_ext(self.bits & other.bits, self.bits);
            }
        }
        self.bits & other.bits == self.bits
    }

    pub fn len(&self) -> (r: usize)
        ensures
            r == self@.len(),
    {
        let mut b: u16 = self.bits;
        let mut count: usize = 0;
        proof {
            lemma_bits16_finite(b);
        }
        while b != 0
            invariant
                bits16_set(b).finite(),
                count + bits16_set(b).len() == self@.len(),
                self@.len() <= 16,
            decreases bits16_set(b).len(),
        {
            let t = Self::lowest(b);
            proof {
                lemma_bits16_pop(b, t as u16);
                lemma_bits16_finite(((b - 1u16) as u16) & b);
            }
            b = (b - 1) & b;
            count += 1;
        }
        proof {
            lemma_bits16_zero_max();
        }
        count
    }

    pub fn is_single(&self) -> (r: bool)
        ensures
            r == (self@.len() == 1),
    {
        self.len() == 1
    }

    /// Removes the least element.
    pub fn pop(&mut self)
        requires
            old(self)@ != Set::<int>::empty(),
        ensures
            final(self)@ == old(self)@.remove(set_min(old(self)@)),
            is_least(old(self)@, set_min(old(self)@)),
    {
        proof {
            lemma_bits16_zero_max();
        }
        let t = Self::lowest(self.bits);
        proof {
            lemma_bits16_pop(self.bits, t as u16);
            lemma_set_min_unique(self@, t as int);
        }
        self.bits = (self.bits - 1) & self.bits;
    }

    pub fn shift_left(&self, shift: usize) -> (r: Self)
        requires
            shift < 16,
        ensures
            r@ == Set::new(|i: int| 0 <= i < 16 && i >= shift && self@.contains(i - shift)),
    {
        let r = BitSet16 { bits: self.bits << (shift as u16) };
        assert forall|j: int| #[trigger] r@.contains(j) == (0 <= j < 16 && j >= shift && self@.contains(j - shift)) by {
            if 0 <= j < 16 {
                bv16_shift(self.bits, shift as u16, j as u16);
            }
        }
        assert(r@ =~= Set::new(|i: int| 0 <= i < 16 && i >= shift && self@.contains(i - shift)));
        r
    }

    pub fn shift_right(&self, shift: usize) -> (r: Self)
        requires
            shift < 16,
        ensures
            r@ == Set::new(|i: int| 0 <= i && i + shift < 16 && self@.contains(i + shift)),
    {
        let r = BitSet16 { bits: self.bits >> (shift as u16) };
        assert forall|j: int| #[trigger] r@.contains(j) == (0 <= j && j + shift < 16 && self@.contains(j + shift)) by {
            if 0 <= j < 16 {
                bv16_shift(self.bits, shift as u16, j as u16);
            }
            if j >= 16 {
                assert(!bit16(self.bits >> (shift as u16), j));
            }
        }
        assert(r@ =~= Set::new(|i: int| 0 <= i && i + shift < 16 && self@.contains(i + shift)));
        r
    }

    pub fn iter(&self) -> (r: BitSet16Iter)
        ensures
            r@ == self@,
    {
        BitSet16Iter { bitset: *self }
    }
}

/// Walks the elements of a `BitSet16` in increasing order.
#[derive(Clone, Copy, Debug)]
pub struct BitSet16Iter {
    bitset: BitSet16,
}

impl View for BitSet16Iter {
    type V = Set<int>;

    /// The elements not yet handed out.
    closed spec fn view(&self) -> Set<int> {
        self.bitset@
    }
}

impl BitSet16Iter {
    /// Hands out the least element not yet handed out.
    pub fn next(&mut self) -> (r: Option<usize>)
        ensures
            old(self)@ == Set::<int>::empty() ==> r is None && final(self)@ == old(self)@,
            old(self)@ != Set::<int>::empty() ==> r == Some(set_min(old(self)@) as usize)
                && is_least(old(self)@, set_min(old(self)@))
                && final(self)@ == old(self)@.remove(set_min(old(self)@)),
    {
        if self.bitset.is_empty() {
            None
        } else {
            proof {
                self.bitset.lemma_view();
                lemma_bits16_zero_max();
            }
            let t = BitSet16::lowest(self.bitset.bits);
            proof {
                lemma_set_min_unique(self@, t as int);
            }
            self.bitset.pop();
            Some(t as usize)
        }
    }

    pub fn len(&self) -> (r: usize)
        ensures
            r == self@.len(),
    {
        self.bitset.len()
    }
}

/// If bits 0..t of b are clear then b has no bits below t.
proof fn bv16_low_from_tz(b: u16, t: u16)
    requires
        t < 16,
        forall|j: u16| j < t ==> #[trigger] ((b >> j) & 1u16) == 0u16,
    ensures
        b & (((1u16 << t) - 1u16) as u16) == 0,
    decreases t,
{
    if t == 0 {
        bv16_mask(b, 0u16);
    } else {
        bv16_low_from_tz(b, (t - 1) as u16);
        assert(((b >> (t - 1) as u16) & 1u16) == 0u16);
        bv16_mask(b, (t - 1) as u16);
    }
}

// ---------------------------------------------------------------------------
// BitSet32: a set of integers in 0..32 held in one u32 word
// ---------------------------------------------------------------------------

/// Bit `i` of `b` is set (false outside 0..32).
pub open spec fn bit32(b: u32, i: int) -> bool {
    0 <= i < 32 && (b >> (i as u32)) & 1u32 == 1u32
}

/// The set of positions of the set bits of `b`.
pub open spec fn bits32_set(b: u32) -> Set<int> {
    Set::new(|i: int| bit32(b, i))
}

/// Single bits of the word operations on u32.
proof fn bv32_ops(a: u32, b: u32, k: u32)
    by (bit_vector)
    requires
        k < 32,
    ensures
        ((a | b) >> k) & 1u32 == 1u32 <==> ((a >> k) & 1u32 == 1u32 || (b >> k) & 1u32 == 1u32),
        ((a & b) >> k) & 1u32 == 1u32 <==> ((a >> k) & 1u32 == 1u32 && (b >> k) & 1u32 == 1u32),
        ((!a) >> k) & 1u32 == 1u32 <==> !((a >> k) & 1u32 == 1u32),
        !((0u32 >> k) & 1u32 == 1u32),
        (u32::MAX >> k) & 1u32 == 1u32,
{
}

/// Single bits of one set bit and of the words with the low bits set.
proof fn bv32_index(i: u32, k: u32)
    by (bit_vector)
    requires
        k < 32,
        i < 32,
    ensures
        ((1u32 << i) >> k) & 1u32 == 1u32 <==> i == k,
        ((((1u32 << i) - 1u32) as u32) >> k) & 1u32 == 1u32 <==> k < i,
        (1u32 << i) >= 1,
{
}

/// Single bits of shifted words.
proof fn bv32_shift(a: u32, s: u32, k: u32)
    by (bit_vector)
    requires
        k < 32,
        s < 32,
    ensures
        ((a << s) >> k) & 1u32 == 1u32 <==> (k >= s && (a >> ((k - s) as u32)) & 1u32 == 1u32),
        ((a >> s) >> k) & 1u32 == 1u32 <==> (k + s < 32 && (a >> ((k + s) as u32)) & 1u32 == 1u32),
{
}

/// Clearing the lowest set bit t of a word whose bits below t are clear.
proof fn bv32_lowest(b: u32, t: u32, k: u32)
    by (bit_vector)
    requires
        t < 32,
        k < 32,
    ensures
        ((b >> t) & 1u32 == 1u32 && b & (((1u32 << t) - 1u32) as u32) == 0) ==> (((((b - 1u32) as u32) & b) >> k) & 1u32 == 1u32 <==> ((b >> k) & 1u32 == 1u32 && k != t)),
        (k < t && b & (((1u32 << t) - 1u32) as u32) == 0) ==> !((b >> k) & 1u32 == 1u32),
{
}

/// Words that agree bit by bit from m on agree after shifting by m.
proof fn bv32_ext(a: u32, b: u32, m: u32)
    by (bit_vector)
    requires
        m < 32,
    ensures
        (((a >> m) & 1u32 == 1u32) <==> ((b >> m) & 1u32 == 1u32)) ==> (a >> m) & 1u32 == (b >> m) & 1u32,
        (m == 32 - 1 && (a >> m) & 1u32 == (b >> m) & 1u32) ==> a >> m == b >> m,
        (m < 32 - 1 && a >> (m + 1) as u32 == b >> (m + 1) as u32 && (a >> m) & 1u32 == (b >> m) & 1u32) ==> a >> m == b >> m,
        a >> 0u32 == a,
        b >> 0u32 == b,
{
}

/// Masks of the low bits grow one bit at a time.
proof fn bv32_mask(b: u32, m: u32)
    by (bit_vector)
    requires
        m < 32,
    ensures
        b & (((1u32 << 0u32) - 1u32) as u32) == 0,
        (b & (((1u32 << m) - 1u32) as u32) == 0 && (b >> m) & 1u32 == 0u32) ==> b & (((1u32 << (m + 1) as u32) - 1u32) as u32) == 0,
{
}

/// Words that agree on bits m.. agree after shifting by m.
pub proof fn lemma_bits32_ext_from(a: u32, b: u32, m: u32)
    requires
        m < 32,
        forall|k: u32| m <= k < 32 ==> (((a >> k) & 1u32 == 1u32) <==> ((b >> k) & 1u32 == 1u32)),
    ensures
        a >> m == b >> m,
    decreases 32 - m,
{
    assert(((a >> m) & 1u32 == 1u32) <==> ((b >> m) & 1u32 == 1u32));
    bv32_ext(a, b, m);
    if m < 32 - 1 {
        lemma_bits32_ext_from(a, b, (m + 1) as u32);
        bv32_ext(a, b, m);
    }
}

/// Two words with the same set of bits are equal.
pub proof fn lemma_bits32_ext(a: u32, b: u32)
    requires
        bits32_set(a) == bits32_set(b),
    ensures
        a == b,
{
    assert forall|k: u32| k < 32 implies (((a >> k) & 1u32 == 1u32) <==> ((b >> k) & 1u32 == 1u32)) by {
        assert(bits32_set(a).contains(k as int) == bits32_set(b).contains(k as int));
        assert(bits32_set(a).contains(k as int) == bit32(a, k as int));
        assert(bits32_set(b).contains(k as int) == bit32(b, k as int));
        assert(bit32(a, k as int) == ((a >> k) & 1u32 == 1u32));
        assert(bit32(b, k as int) == ((b >> k) & 1u32 == 1u32));
    }
    lemma_bits32_ext_from(a, b, 0u32);
    bv32_ext(a, b, 0u32);
}

pub proof fn lemma_bits32_finite(a: u32)
    ensures
        bits32_set(a).finite(),
        bits32_set(a).len() <= 32,
        forall|i: int| bits32_set(a).contains(i) ==> 0 <= i < 32,
{
    lemma_subset_range_finite(bits32_set(a), 0, 32);
}

pub proof fn lemma_bits32_or(a: u32, b: u32)
    ensures
        bits32_set(a | b) == bits32_set(a).union(bits32_set(b)),
{
    assert forall|i: int| #[trigger] bits32_set(a | b).contains(i) == bits32_set(a).union(bits32_set(b)).contains(i) by {
        if 0 <= i < 32 {
            bv32_ops(a, b, i as u32);
        }
    }
    assert(bits32_set(a | b) =~= bits32_set(a).union(bits32_set(b)));
}

pub proof fn lemma_bits32_and(a: u32, b: u32)
    ensures
        bits32_set(a & b) == bits32_set(a).intersect(bits32_set(b)),
{
    assert forall|i: int| #[trigger] bits32_set(a & b).contains(i) == bits32_set(a).intersect(bits32_set(b)).contains(i) by {
        if 0 <= i < 32 {
            bv32_ops(a, b, i as u32);
        }
    }
    assert(bits32_set(a & b) =~= bits32_set(a).intersect(bits32_set(b)));
}

pub proof fn lemma_bits32_not(a: u32)
    ensures
        bits32_set(!a) == set_int_range(0, 32).difference(bits32_set(a)),
{
    assert forall|i: int| #[trigger] bits32_set(!a).contains(i) == set_int_range(0, 32).difference(bits32_set(a)).contains(i) by {
        if 0 <= i < 32 {
            bv32_ops(a, a, i as u32);
        }
    }
    assert(bits32_set(!a) =~= set_int_range(0, 32).difference(bits32_set(a)));
}

pub proof fn lemma_bits32_single(i: u32)
    requires
        i < 32,
    ensures
        bits32_set(1u32 << i) == Set::<int>::empty().insert(i as int),
{
    assert forall|j: int| #[trigger] bits32_set(1u32 << i).contains(j) == Set::<int>::empty().insert(i as int).contains(j) by {
        if 0 <= j < 32 {
            bv32_index(i, j as u32);
        }
    }
    assert(bits32_set(1u32 << i) =~= Set::<int>::empty().insert(i as int));
}

pub proof fn lemma_bits32_zero_max()
    ensures
        bits32_set(0u32) == Set::<int>::empty(),
        bits32_set(u32::MAX) == set_int_range(0, 32),
{
    assert forall|j: int| #[trigger] bits32_set(0u32).contains(j) == Set::<int>::empty().contains(j) by {
        if 0 <= j < 32 {
            bv32_ops(0u32, 0u32, j as u32);
        }
    }
    assert forall|j: int| #[trigger] bits32_set(u32::MAX).contains(j) == set_int_range(0, 32).contains(j) by {
        if 0 <= j < 32 {
            bv32_ops(0u32, 0u32, j as u32);
        }
    }
    assert(bits32_set(0u32) =~= Set::<int>::empty());
    assert(bits32_set(u32::MAX) =~= set_int_range(0, 32));
}

pub proof fn lemma_bits32_low(n: u32)
    requires
        n < 32,
    ensures
        bits32_set(((1u32 << n) - 1u32) as u32) == set_int_range(0, n as int),
{
    assert forall|j: int| #[trigger] bits32_set(((1u32 << n) - 1u32) as u32).contains(j) == set_int_range(0, n as int).contains(j) by {
        if 0 <= j < 32 {
            bv32_index(n, j as u32);
        }
    }
    assert(bits32_set(((1u32 << n) - 1u32) as u32) =~= set_int_range(0, n as int));
}

/// Clearing the lowest set bit removes the least element.
pub proof fn lemma_bits32_pop(b: u32, t: u32)
    requires
        b != 0,
        t < 32,
        (b >> t) & 1u32 == 1u32,
        b & (((1u32 << t) - 1u32) as u32) == 0,
    ensures
        is_least(bits32_set(b), t as int),
        bits32_set(((b - 1u32) as u32) & b) == bits32_set(b).remove(t as int),
{
    assert forall|j: int| #[trigger] bits32_set(((b - 1u32) as u32) & b).contains(j) == bits32_set(b).remove(t as int).contains(j) by {
        if 0 <= j < 32 {
            bv32_lowest(b, t, j as u32);
        }
    }
    assert(bits32_set(((b - 1u32) as u32) & b) =~= bits32_set(b).remove(t as int));
    assert forall|x: int| bits32_set(b).contains(x) implies t <= x by {
        if x < t {
            bv32_lowest(b, t, x as u32);
        }
    }
}

/// A set of integers in 0..32, stored as the bits of one word.
#[derive(Clone, Copy, PartialEq, Eq, Structural, PartialOrd, Ord, Hash, Default, Debug)]
pub struct BitSet32 {
    bits: u32,
}

impl View for BitSet32 {
    type V = Set<int>;

    closed spec fn view(&self) -> Set<int> {
        bits32_set(self.bits)
    }
}

impl BitSet32 {
    /// The word that holds the set.
    pub closed spec fn raw(&self) -> u32 {
        self.bits
    }

    /// Two sets are equal exactly when they hold the same elements.
    pub proof fn lemma_eq_iff_view(a: Self, b: Self)
        ensures
            (a == b) <==> (a@ == b@),
    {
        if a@ == b@ {
            lemma_bits32_ext(a.bits, b.bits);
        }
    }

    pub proof fn lemma_view(&self)
        ensures
            self@ == bits32_set(self.raw()),
            self@.finite(),
            self@.len() <= 32,
            forall|i: int| self@.contains(i) ==> 0 <= i < 32,
    {
        lemma_bits32_finite(self.bits);
    }

    /// The position of the lowest set bit of a nonzero word.
    fn lowest(b: u32) -> (t: u32)
        requires
            b != 0,
        ensures
            t < 32,
            (b >> (t as u32)) & 1u32 == 1u32,
            b & (((1u32 << (t as u32)) - 1u32) as u32) == 0,
            is_least(bits32_set(b), t as int),
    {
        let t = b.trailing_zeros();
        proof {
            axiom_u32_trailing_zeros(b);
            assert forall|j: u32| j < (t as u32) implies #[trigger] ((b >> j) & 1u32) == 0u32 by {}
            bv32_low_from_tz(b, t as u32);
            lemma_bits32_pop(b, t as u32);
        }
        t
    }

    pub fn empty() -> (r: Self)
        ensures
            r@ == Set::<int>::empty(),
    {
        proof {
            lemma_bits32_zero_max();
        }
        BitSet32 { bits: 0 }
    }

    pub fn full() -> (r: Self)
        ensures
            r@ == set_int_range(0, 32),
    {
        proof {
            lemma_bits32_zero_max();
        }
        BitSet32 { bits: u32::MAX }
    }

    pub fn all_less_than(n: usize) -> (r: Self)
        requires
            n <= 32,
        ensures
            r@ == set_int_range(0, n as int),
    {
        if n == 32 {
            Self::full()
        } else {
            proof {
                lemma_bits32_low(n as u32);
            }
            proof {
                bv32_index(n as u32, 0u32);
            }
            BitSet32 { bits: ((1u32 << (n as u32)) - 1) as u32 }
        }
    }

    pub fn from_bits(bits: u32) -> (r: Self)
        ensures
            r@ == bits32_set(bits),
            r.raw() == bits,
    {
        BitSet32 { bits }
    }

    pub fn from_range(range: core::ops::Range<usize>) -> (r: Self)
        requires
            range.start <= 32,
            range.end <= 32,
        ensures
            r@ == set_int_range(range.start as int, range.end as int),
    {
        let start = range.start;
        let end = range.end;
        let r = Self::all_less_than(end).intersect(Self::all_less_than(start).complement());
        assert(r@ =~= set_int_range(start as int, end as int));
        r
    }

    pub fn from_iter(items: Vec<usize>) -> (r: Self)
        requires
            forall|k: int| 0 <= k < items.len() ==> items[k] < 32,
        ensures
            r@ == usize_seq_set(items@),
    {
        Self::from_slice(items.as_slice())
    }

    pub fn from_slice(slice: &[usize]) -> (r: Self)
        requires
            forall|k: int| 0 <= k < slice@.len() ==> slice@[k] < 32,
        ensures
            r@ == usize_seq_set(slice@),
    {
        let mut bitset = Self::empty();
        let mut i: usize = 0;
        proof {
            lemma_usize_seq_set_full(slice@);
        }
        while i < slice.len()
            invariant
                i <= slice@.len(),
                forall|k: int| 0 <= k < slice@.len() ==> slice@[k] < 32,
                bitset@ == usize_seq_set(slice@.take(i as int)),
            decreases slice@.len() - i,
        {
            proof {
                lemma_usize_seq_set_take(slice@, i as int);
            }
            bitset.insert(slice[i]);
            i += 1;
        }
        proof {
            lemma_usize_seq_set_full(slice@);
        }
        bitset
    }

    pub fn bits(&self) -> (r: u32)
        ensures
            r == self.raw(),
            bits32_set(r) == self@,
    {
        self.bits
    }

    pub fn is_empty(&self) -> (r: bool)
        ensures
            r == (self@ == Set::<int>::empty()),
    {
        proof {
            lemma_bits32_zero_max();
            if self@ == Set::<int>::empty() {
                lemma_bits32_ext(self.bits, 0u32);
            }
        }
        self.bits == 0
    }

    pub fn single(i: usize) -> (r: Self)
        requires
            i < 32,
        ensures
            r@ == Set::<int>::empty().insert(i as int),
    {
        proof {
            lemma_bits32_single(i as u32);
        }
        BitSet32 { bits: 1u32 << (i as u32) }
    }

    pub fn insert(&mut self, index: usize)
        requires
            index < 32,
        ensures
            final(self)@ == old(self)@.insert(index as int),
    {
        proof {
            lemma_bits32_single(index as u32);
            lemma_bits32_or(self.bits, 1u32 << (index as u32));
        }
        let bit_mask: u32 = 1u32 << (index as u32);
        self.bits = self.bits | bit_mask;
        assert(self@ =~= old(self)@.insert(index as int));
    }

    pub fn remove(&mut self, index: usize)
        requires
            index < 32,
        ensures
            final(self)@ == old(self)@.remove(index as int),
    {
        proof {
            lemma_bits32_single(index as u32);
            lemma_bits32_not(1u32 << (index as u32));
            lemma_bits32_and(self.bits, !(1u32 << (index as u32)));
        }
        let bit_mask: u32 = 1u32 << (index as u32);
        self.bits = self.bits & !bit_mask;
        assert(self@ =~= old(self)@.remove(index as int));
    }

    pub fn contains(&self, index: usize) -> (r: bool)
        requires
            index < 32,
        ensures
            r == self@.contains(index as int),
    {
        proof {
            lemma_bits32_single(index as u32);
            lemma_bits32_and(self.bits, 1u32 << (index as u32));
            lemma_bits32_zero_max();
            if self.bits & (1u32 << (index as u32)) == 0 {
                assert(!bits32_set(0u32).contains(index as int));
            } else {
                if !self@.contains(index as int) {
                    assert(bits32_set(self.bits & (1u32 << (index as u32))) =~= Set::<int>::empty());
                    lemma_bits32_ext(self.bits & (1u32 << (index as u32)), 0u32);
                }
            }
        }
        let bit_mask: u32 = 1u32 << (index as u32);
        (self.bits & bit_mask) != 0
    }

    pub fn union(&self, other: Self) -> (r: Self)
        ensures
            r@ == self@.union(other@),
    {
        proof {
            lemma_bits32_or(self.bits, other.bits);
        }
        BitSet32 { bits: self.bits | other.bits }
    }

    pub fn intersect(&self, other: Self) -> (r: Self)
        ensures
            r@ == self@.intersect(other@),
    {
        proof {
            lemma_bits32_and(self.bits, other.bits);
        }
        BitSet32 { bits: self.bits & other.bits }
    }

    pub fn complement(&self) -> (r: Self)
        ensures
            r@ == set_int_range(0, 32).difference(self@),
    {
        proof {
            lemma_bits32_not(self.bits);
        }
        BitSet32 { bits: !self.bits }
    }

    pub fn is_disjoint(&self, other: Self) -> (r: bool)
        ensures
            r == self@.disjoint(other@),
    {
        proof {
            lemma_bits32_and(self.bits, other.bits);
            lemma_bits32_zero_max();
            if self@.disjoint(other@) {
                assert(bits32_set(self.bits & other.bits) =~= Set::<int>::empty());
                lemma_bits32_ext(self.bits & other.bits, 0u32);
            }
            if self.bits & other.bits == 0 {
                assert forall|x: int| self@.contains(x) implies !other@.contains(x) by {
                    assert(!bits32_set(self.bits & other.bits).contains(x));
                }
            }
        }
        self.bits & other.bits == 0
    }

    pub fn is_subset_of(&self, other: Self) -> (r: bool)
        ensures
            r == self@.subset_of(other@),
    {
        proof {
            lemma_bits32_and(self.bits, other.bits);
            if self@.subset_of(other@) {
                assert(bits32_set(self.bits & other.bits) =~= bits32_set(self.bits));
                lemma_bits32_ext(self.bits & other.bits, self.bits);
            }
        }
        self.bits & other.bits == self.bits
    }

    pub fn len(&self) -> (r: usize)
        ensures
            r == self@.len(),
    {
        let mut b: u32 = self.bits;
        let mut count: usize = 0;
        proof {
            lemma_bits32_finite(b);
        }
        while b != 0
            invariant
                bits32_set(b).finite(),
                count + bits32_set(b).len() == self@.len(),
                self@.len() <= 32,
            decreases bits32_set(b).len(),
        {
            let t = Self::lowest(b);
            proof {
                lemma_bits32_pop(b, t as u32);
                lemma_bits32_finite(((b - 1u32) as u32) & b);
            }
            b = (b - 1) & b;
            count += 1;
        }
        proof {
            lemma_bits32_zero_max();
        }
        count
    }

    pub fn is_single(&self) -> (r: bool)
        ensures
            r == (self@.len() == 1),
    {
        self.len() == 1
    }

    /// Removes the least element.
    pub fn pop(&mut self)
        requires
            old(self)@ != Set::<int>::empty(),
        ensures
            final(self)@ == old(self)@.remove(set_min(old(self)@)),
            is_least(old(self)@, set_min(old(self)@)),
    {
        proof {
            lemma_bits32_zero_max();
        }
        let t = Self::lowest(self.bits);
        proof {
            lemma_bits32_pop(self.bits, t as u32);
            lemma_set_min_unique(self@, t as int);
        }
        self.bits = (self.bits - 1) & self.bits;
    }

    pub fn shift_left(&self, shift: usize) -> (r: Self)
        requires
            shift < 32,
        ensures
            r@ == Set::new(|i: int| 0 <= i < 32 && i >= shift && self@.contains(i - shift)),
    {
        let r = BitSet32 { bits: self.bits << (shift as u32) };
        assert forall|j: int| #[trigger] r@.contains(j) == (0 <= j < 32 && j >= shift && self@.contains(j - shift)) by {
            if 0 <= j < 32 {
                bv32_shift(self.bits, shift as u32, j as u32);
            }
        }
        assert(r@ =~= Set::new(|i: int| 0 <= i < 32 && i >= shift && self@.contains(i - shift)));
        r
    }

    pub fn shift_right(&self, shift: usize) -> (r: Self)
        requires
            shift < 32,
        ensures
            r@ == Set::new(|i: int| 0 <= i && i + shift < 32 && self@.contains(i + shift)),
    {
        let r = BitSet32 { bits: self.bits >> (shift as u32) };
        assert forall|j: int| #[trigger] r@.contains(j) == (0 <= j && j + shift < 32 && self@.contains(j + shift)) by {
            if 0 <= j < 32 {
                bv32_shift(self.bits, shift as u32, j as u32);
            }
            if j >= 32 {
                assert(!bit32(self.bits >> (shift as u32), j));
            }
        }
        assert(r@ =~= Set::new(|i: int| 0 <= i && i + shift < 32 && self@.contains(i + shift)));
        r
    }

    pub fn iter(&self) -> (r: BitSet32Iter)
        ensures
            r@ == self@,
    {
        BitSet32Iter { bitset: *self }
    }
}

/// Walks the elements of a `BitSet32` in increasing order.
#[derive(Clone, Copy, Debug)]
pub struct BitSet32Iter {
    bitset: BitSet32,
}

impl View for BitSet32Iter {
    type V = Set<int>;

    /// The elements not yet handed out.
    closed spec fn view(&self) -> Set<int> {
        self.bitset@
    }
}

impl BitSet32Iter {
    /// Hands out the least element not yet handed out.
    pub fn next(&mut self) -> (r: Option<usize>)
        ensures
            old(self)@ == Set::<int>::empty() ==> r is None && final(self)@ == old(self)@,
            old(self)@ != Set::<int>::empty() ==> r == Some(set_min(old(self)@) as usize)
                && is_least(old(self)@, set_min(old(self)@))
                && final(self)@ == old(self)@.remove(set_min(old(self)@)),
    {
        if self.bitset.is_empty() {
            None
        } else {
            proof {
                self.bitset.lemma_view();
                lemma_bits32_zero_max();
            }
            let t = BitSet32::lowest(self.bitset.bits);
            proof {
                lemma_set_min_unique(self@, t as int);
            }
            self.bitset.pop();
            Some(t as usize)
        }
    }

    pub fn len(&self) -> (r: usize)
        ensures
            r == self@.len(),
    {
        self.bitset.len()
    }
}

/// If bits 0..t of b are clear then b has no bits below t.
proof fn bv32_low_from_tz(b: u32, t: u32)
    requires
        t < 32,
        forall|j: u32| j < t ==> #[trigger] ((b >> j) & 1u32) == 0u32,
    ensures
        b & (((1u32 << t) - 1u32) as u32) == 0,
    decreases t,
{
    if t == 0 {
        bv32_mask(b, 0u32);
    } else {
        bv32_low_from_tz(b, (t - 1) as u32);
        assert(((b >> (t - 1) as u32) & 1u32) == 0u32);
        bv32_mask(b, (t - 1) as u32);
    }
}

// ---------------------------------------------------------------------------
// BitSet64: a set of integers in 0..64 held in one u64 word
// ---------------------------------------------------------------------------

/// Bit `i` of `b` is set (false outside 0..64).
pub open spec fn bit64(b: u64, i: int) -> bool {
    0 <= i < 64 && (b >> (i as u64)) & 1u64 == 1u64
}

/// The set of positions of the set bits of `b`.
pub open spec fn bits64_set(b: u64) -> Set<int> {
    Set::new(|i: int| bit64(b, i))
}

/// Single bits of the word operations on u64.
proof fn bv64_ops(a: u64, b: u64, k: u64)
    by (bit_vector)
    requires
        k < 64,
    ensures
        ((a | b) >> k) & 1u64 == 1u64 <==> ((a >> k) & 1u64 == 1u64 || (b >> k) & 1u64 == 1u64),
        ((a & b) >> k) & 1u64 == 1u64 <==> ((a >> k) & 1u64 == 1u64 && (b >> k) & 1u64 == 1u64),
        ((!a) >> k) & 1u64 == 1u64 <==> !((a >> k) & 1u64 == 1u64),
        !((0u64 >> k) & 1u64 == 1u64),
        (u64::MAX >> k) & 1u64 == 1u64,
{
}

/// Single bits of one set bit and of the words with the low bits set.
proof fn bv64_index(i: u64, k: u64)
    by (bit_vector)
    requires
        k < 64,
        i < 64,
    ensures
        ((1u64 << i) >> k) & 1u64 == 1u64 <==> i == k,
        ((((1u64 << i) - 1u64) as u64) >> k) & 1u64 == 1u64 <==> k < i,
        (1u64 << i) >= 1,
{
}

/// Single bits of shifted words.
proof fn bv64_shift(a: u64, s: u64, k: u64)
    by (bit_vector)
    requires
        k < 64,
        s < 64,
    ensures
        ((a << s) >> k) & 1u64 == 1u64 <==> (k >= s && (a >> ((k - s) as u64)) & 1u64 == 1u64),
        ((a >> s) >> k) & 1u64 == 1u64 <==> (k + s < 64 && (a >> ((k + s) as u64)) & 1u64 == 1u64),
{
}

/// Clearing the lowest set bit t of a word whose bits below t are clear.
proof fn bv64_lowest(b: u64, t: u64, k: u64)
    by (bit_vector)
    requires
        t < 64,
        k < 64,
    ensures
        ((b >> t) & 1u64 == 1u64 && b & (((1u64 << t) - 1u64) as u64) == 0) ==> (((((b - 1u64) as u64) & b) >> k) & 1u64 == 1u64 <==> ((b >> k) & 1u64 == 1u64 && k != t)),
        (k < t && b & (((1u64 << t) - 1u64) as u64) == 0) ==> !((b >> k) & 1u64 == 1u64),
{
}

/// Words that agree bit by bit from m on agree after shifting by m.
proof fn bv64_ext(a: u64, b: u64, m: u64)
    by (bit_vector)
    requires
        m < 64,
    ensures
        (((a >> m) & 1u64 == 1u64) <==> ((b >> m) & 1u64 == 1u64)) ==> (a >> m) & 1u64 == (b >> m) & 1u64,
        (m == 64 - 1 && (a >> m) & 1u64 == (b >> m) & 1u64) ==> a >> m == b >> m,
        (m < 64 - 1 && a >> (m + 1) as u64 == b >> (m + 1) as u64 && (a >> m) & 1u64 == (b >> m) & 1u64) ==> a >> m == b >> m,
        a >> 0u64 == a,
        b >> 0u64 == b,
{
}

/// Masks of the low bits grow one bit at a time.
proof fn bv64_mask(b: u64, m: u64)
    by (bit_vector)
    requires
        m < 64,
    ensures
        b & (((1u64 << 0u64) - 1u64) as u64) == 0,
        (b & (((1u64 << m) - 1u64) as u64) == 0 && (b >> m) & 1u64 == 0u64) ==> b & (((1u64 << (m + 1) as u64) - 1u64) as u64) == 0,
{
}

/// Words that agree on bits m.. agree after shifting by m.
pub proof fn lemma_bits64_ext_from(a: u64, b: u64, m: u64)
    requires
        m < 64,
        forall|k: u64| m <= k < 64 ==> (((a >> k) & 1u64 == 1u64) <==> ((b >> k) & 1u64 == 1u64)),
    ensures
        a >> m == b >> m,
    decreases 64 - m,
{
    assert(((a >> m) & 1u64 == 1u64) <==> ((b >> m) & 1u64 == 1u64));
    bv64_ext(a, b, m);
    if m < 64 - 1 {
        lemma_bits64_ext_from(a, b, (m + 1) as u64);
        bv64_ext(a, b, m);
    }
}

/// Two words with the same set of bits are equal.
pub proof fn lemma_bits64_ext(a: u64, b: u64)
    requires
        bits64_set(a) == bits64_set(b),
    ensures
        a == b,
{
    assert forall|k: u64| k < 64 implies (((a >> k) & 1u64 == 1u64) <==> ((b >> k) & 1u64 == 1u64)) by {
        assert(bits64_set(a).contains(k as int) == bits64_set(b).contains(k as int));
        assert(bits64_set(a).contains(k as int) == bit64(a, k as int));
        assert(bits64_set(b).contains(k as int) == bit64(b, k as int));
        assert(bit64(a, k as int) == ((a >> k) & 1u64 == 1u64));
        assert(bit64(b, k as int) == ((b >> k) & 1u64 == 1u64));
    }
    lemma_bits64_ext_from(a, b, 0u64);
    bv64_ext(a, b, 0u64);
}

pub proof fn lemma_bits64_finite(a: u64)
    ensures
        bits64_set(a).finite(),
        bits64_set(a).len() <= 64,
        forall|i: int| bits64_set(a).contains(i) ==> 0 <= i < 64,
{
    lemma_subset_range_finite(bits64_set(a), 0, 64);
}

pub proof fn lemma_bits64_or(a: u64, b: u64)
    ensures
        bits64_set(a | b) == bits64_set(a).union(bits64_set(b)),
{
    assert forall|i: int| #[trigger] bits64_set(a | b).contains(i) == bits64_set(a).union(bits64_set(b)).contains(i) by {
        if 0 <= i < 64 {
            bv64_ops(a, b, i as u64);
        }
    }
    assert(bits64_set(a | b) =~= bits64_set(a).union(bits64_set(b)));
}

pub proof fn lemma_bits64_and(a: u64, b: u64)
    ensures
        bits64_set(a & b) == bits64_set(a).intersect(bits64_set(b)),
{
    assert forall|i: int| #[trigger] bits64_set(a & b).contains(i) == bits64_set(a).intersect(bits64_set(b)).contains(i) by {
        if 0 <= i < 64 {
            bv64_ops(a, b, i as u64);
        }
    }
    assert(bits64_set(a & b) =~= bits64_set(a).intersect(bits64_set(b)));
}

pub proof fn lemma_bits64_not(a: u64)
    ensures
        bits64_set(!a) == set_int_range(0, 64).difference(bits64_set(a)),
{
    assert forall|i: int| #[trigger] bits64_set(!a).contains(i) == set_int_range(0, 64).difference(bits64_set(a)).contains(i) by {
        if 0 <= i < 64 {
            bv64_ops(a, a, i as u64);
        }
    }
    assert(bits64_set(!a) =~= set_int_range(0, 64).difference(bits64_set(a)));
}

pub proof fn lemma_bits64_single(i: u64)
    requires
        i < 64,
    ensures
        bits64_set(1u64 << i) == Set::<int>::empty().insert(i as int),
{
    assert forall|j: int| #[trigger] bits64_set(1u64 << i).contains(j) == Set::<int>::empty().insert(i as int).contains(j) by {
        if 0 <= j < 64 {
            bv64_index(i, j as u64);
        }
    }
    assert(bits64_set(1u64 << i) =~= Set::<int>::empty().insert(i as int));
}

pub proof fn lemma_bits64_zero_max()
    ensures
        bits64_set(0u64) == Set::<int>::empty(),
        bits64_set(u64::MAX) == set_int_range(0, 64),
{
    assert forall|j: int| #[trigger] bits64_set(0u64).contains(j) == Set::<int>::empty().contains(j) by {
        if 0 <= j < 64 {
            bv64_ops(0u64, 0u64, j as u64);
        }
    }
    assert forall|j: int| #[trigger] bits64_set(u64::MAX).contains(j) == set_int_range(0, 64).contains(j) by {
        if 0 <= j < 64 {
            bv64_ops(0u64, 0u64, j as u64);
        }
    }
    assert(bits64_set(0u64) =~= Set::<int>::empty());
    assert(bits64_set(u64::MAX) =~= set_int_range(0, 64));
}

pub proof fn lemma_bits64_low(n: u64)
    requires
        n < 64,
    ensures
        bits64_set(((1u64 << n) - 1u64) as u64) == set_int_range(0, n as int),
{
    assert forall|j: int| #[trigger] bits64_set(((1u64 << n) - 1u64) as u64).contains(j) == set_int_range(0, n as int).contains(j) by {
        if 0 <= j < 64 {
            bv64_index(n, j as u64);
        }
    }
    assert(bits64_set(((1u64 << n) - 1u64) as u64) =~= set_int_range(0, n as int));
}

/// Clearing the lowest set bit removes the least element.
pub proof fn lemma_bits64_pop(b: u64, t: u64)
    requires
        b != 0,
        t < 64,
        (b >> t) & 1u64 == 1u64,
        b & (((1u64 << t) - 1u64) as u64) == 0,
    ensures
        is_least(bits64_set(b), t as int),
        bits64_set(((b - 1u64) as u64) & b) == bits64_set(b).remove(t as int),
{
    assert forall|j: int| #[trigger] bits64_set(((b - 1u64) as u64) & b).contains(j) == bits64_set(b).remove(t as int).contains(j) by {
        if 0 <= j < 64 {
            bv64_lowest(b, t, j as u64);
        }
    }
    assert(bits64_set(((b - 1u64) as u64) & b) =~= bits64_set(b).remove(t as int));
    assert forall|x: int| bits64_set(b).contains(x) implies t <= x by {
        if x < t {
            bv64_lowest(b, t, x as u64);
        }
    }
}

/// A set of integers in 0..64, stored as the bits of one word.
#[derive(Clone, Copy, PartialEq, Eq, Structural, PartialOrd, Ord, Hash, Default, Debug)]
pub struct BitSet64 {
    bits: u64,
}

impl View for BitSet64 {
    type V = Set<int>;

    closed spec fn view(&self) -> Set<int> {
        bits64_set(self.bits)
    }
}

impl BitSet64 {
    /// The word that holds the set.
    pub closed spec fn raw(&self) -> u64 {
        self.bits
    }

    /// Two sets are equal exactly when they hold the same elements.
    pub proof fn lemma_eq_iff_view(a: Self, b: Self)
        ensures
            (a == b) <==> (a@ == b@),
    {
        if a@ == b@ {
            lemma_bits64_ext(a.bits, b.bits);
        }
    }

    pub proof fn lemma_view(&self)
        ensures
            self@ == bits64_set(self.raw()),
            self@.finite(),
            self@.len() <= 64,
            forall|i: int| self@.contains(i) ==> 0 <= i < 64,
    {
        lemma_bits64_finite(self.bits);
    }

    /// The position of the lowest set bit of a nonzero word.
    fn lowest(b: u64) -> (t: u32)
        requires
            b != 0,
        ensures
            t < 64,
            (b >> (t as u64)) & 1u64 == 1u64,
            b & (((1u64 << (t as u64)) - 1u64) as u64) == 0,
            is_least(bits64_set(b), t as int),
    {
        let t = b.trailing_zeros();
        proof {
            axiom_u64_trailing_zeros(b);
            assert forall|j: u64| j < (t as u64) implies #[trigger] ((b >> j) & 1u64) == 0u64 by {}
            bv64_low_from_tz(b, t as u64);
            lemma_bits64_pop(b, t as u64);
        }
        t
    }

    pub fn empty() -> (r: Self)
        ensures
            r@ == Set::<int>::empty(),
    {
        proof {
            lemma_bits64_zero_max();
        }
        BitSet64 { bits: 0 }
    }

    pub fn full() -> (r: Self)
        ensures
            r@ == set_int_range(0, 64),
    {
        proof {
            lemma_bits64_zero_max();
        }
        BitSet64 { bits: u64::MAX }
    }

    pub fn all_less_than(n: usize) -> (r: Self)
        requires
            n <= 64,
        ensures
            r@ == set_int_range(0, n as int),
    {
        if n == 64 {
            Self::full()
        } else {
            proof {
                lemma_bits64_low(n as u64);
            }
            proof {
                bv64_index(n as u64, 0u64);
            }
            BitSet64 { bits: ((1u64 << (n as u64)) - 1) as u64 }
        }
    }

    pub fn from_bits(bits: u64) -> (r: Self)
        ensures
            r@ == bits64_set(bits),
            r.raw() == bits,
    {
        BitSet64 { bits }
    }

    pub fn from_range(range: core::ops::Range<usize>) -> (r: Self)
        requires
            range.start <= 64,
            range.end <= 64,
        ensures
            r@ == set_int_range(range.start as int, range.end as int),
    {
        let start = range.start;
        let end = range.end;
        let r = Self::all_less_than(end).intersect(Self::all_less_than(start).complement());
        assert(r@ =~= set_int_range(start as int, end as int));
        r
    }

    pub fn from_iter(items: Vec<usize>) -> (r: Self)
        requires
            forall|k: int| 0 <= k < items.len() ==> items[k] < 64,
        ensures
            r@ == usize_seq_set(items@),
    {
        Self::from_slice(items.as_slice())
    }

    pub fn from_slice(slice: &[usize]) -> (r: Self)
        requires
            forall|k: int| 0 <= k < slice@.len() ==> slice@[k] < 64,
        ensures
            r@ == usize_seq_set(slice@),
    {
        let mut bitset = Self::empty();
        let mut i: usize = 0;
        proof {
            lemma_usize_seq_set_full(slice@);
        }
        while i < slice.len()
            invariant
                i <= slice@.len(),
                forall|k: int| 0 <= k < slice@.len() ==> slice@[k] < 64,
                bitset@ == usize_seq_set(slice@.take(i as int)),
            decreases slice@.len() - i,
        {
            proof {
                lemma_usize_seq_set_take(slice@, i as int);
            }
            bitset.insert(slice[i]);
            i += 1;
        }
        proof {
            lemma_usize_seq_set_full(slice@);
        }
        bitset
    }

    pub fn bits(&self) -> (r: u64)
        ensures
            r == self.raw(),
            bits64_set(r) == self@,
    {
        self.bits
    }

    pub fn is_empty(&self) -> (r: bool)
        ensures
            r == (self@ == Set::<int>::empty()),
    {
        proof {
            lemma_bits64_zero_max();
            if self@ == Set::<int>::empty() {
                lemma_bits64_ext(self.bits, 0u64);
            }
        }
        self.bits == 0
    }

    pub fn single(i: usize) -> (r: Self)
        requires
            i < 64,
        ensures
            r@ == Set::<int>::empty().insert(i as int),
    {
        proof {
            lemma_bits64_single(i as u64);
        }
        BitSet64 { bits: 1u64 << (i as u64) }
    }

    pub fn insert(&mut self, index: usize)
        requires
            index < 64,
        ensures
            final(self)@ == old(self)@.insert(index as int),
    {
        proof {
            lemma_bits64_single(index as u64);
            lemma_bits64_or(self.bits, 1u64 << (index as u64));
        }
        let bit_mask: u64 = 1u64 << (index as u64);
        self.bits = self.bits | bit_mask;
        assert(self@ =~= old(self)@.insert(index as int));
    }

    pub fn remove(&mut self, index: usize)
        requires
            index < 64,
        ensures
            final(self)@ == old(self)@.remove(index as int),
    {
        proof {
            lemma_bits64_single(index as u64);
            lemma_bits64_not(1u64 << (index as u64));
            lemma_bits64_and(self.bits, !(1u64 << (index as u64)));
        }
        let bit_mask: u64 = 1u64 << (index as u64);
        self.bits = self.bits & !bit_mask;
        assert(self@ =~= old(self)@.remove(index as int));
    }

    pub fn contains(&self, index: usize) -> (r: bool)
        requires
            index < 64,
        ensures
            r == self@.contains(index as int),
    {
        proof {
            lemma_bits64_single(index as u64);
            lemma_bits64_and(self.bits, 1u64 << (index as u64));
            lemma_bits64_zero_max();
            if self.bits & (1u64 << (index as u64)) == 0 {
                assert(!bits64_set(0u64).contains(index as int));
            } else {
                if !self@.contains(index as int) {
                    assert(bits64_set(self.bits & (1u64 << (index as u64))) =~= Set::<int>::empty());
                    lemma_bits64_ext(self.bits & (1u64 << (index as u64)), 0u64);
                }
            }
        }
        let bit_mask: u64 = 1u64 << (index as u64);
        (self.bits & bit_mask) != 0
    }

    pub fn union(&self, other: Self) -> (r: Self)
        ensures
            r@ == self@.union(other@),
    {
        proof {
            lemma_bits64_or(self.bits, other.bits);
        }
        BitSet64 { bits: self.bits | other.bits }
    }

    pub fn intersect(&self, other: Self) -> (r: Self)
        ensures
            r@ == self@.intersect(other@),
    {
        proof {
            lemma_bits64_and(self.bits, other.bits);
        }
        BitSet64 { bits: self.bits & other.bits }
    }

    pub fn complement(&self) -> (r: Self)
        ensures
            r@ == set_int_range(0, 64).difference(self@),
    {
        proof {
            lemma_bits64_not(self.bits);
        }
        BitSet64 { bits: !self.bits }
    }

    pub fn is_disjoint(&self, other: Self) -> (r: bool)
        ensures
            r == self@.disjoint(other@),
    {
        proof {
            lemma_bits64_and(self.bits, other.bits);
            lemma_bits64_zero_max();
            if self@.disjoint(other@) {
                assert(bits64_set(self.bits & other.bits) =~= Set::<int>::empty());
                lemma_bits64_ext(self.bits & other.bits, 0u64);
            }
            if self.bits & other.bits == 0 {
                assert forall|x: int| self@.contains(x) implies !other@.contains(x) by {
                    assert(!bits64_set(self.bits & other.bits).contains(x));
                }
            }
        }
        self.bits & other.bits == 0
    }

    pub fn is_subset_of(&self, other: Self) -> (r: bool)
        ensures
            r == self@.subset_of(other@),
    {
        proof {
            lemma_bits64_and(self.bits, other.bits);
            if self@.subset_of(other@) {
                assert(bits64_set(self.bits & other.bits) =~= bits64_set(self.bits));
                lemma_bits64_ext(self.bits & other.bits, self.bits);
            }
        }
        self.bits & other.bits == self.bits
    }

    pub fn len(&self) -> (r: usize)
        ensures
            r == self@.len(),
    {
        let mut b: u64 = self.bits;
        let mut count: usize = 0;
        proof {
            lemma_bits64_finite(b);
        }
        while b != 0
            invariant
                bits64_set(b).finite(),
                count + bits64_set(b).len() == self@.len(),
                self@.len() <= 64,
            decreases bits64_set(b).len(),
        {
            let t = Self::lowest(b);
            proof {
                lemma_bits64_pop(b, t as u64);
                lemma_bits64_finite(((b - 1u64) as u64) & b);
            }
            b = (b - 1) & b;
            count += 1;
        }
        proof {
            lemma_bits64_zero_max();
        }
        count
    }

    pub fn is_single(&self) -> (r: bool)
        ensures
            r == (self@.len() == 1),
    {
        self.len() == 1
    }

    /// Removes the least element.
    pub fn pop(&mut self)
        requires
            old(self)@ != Set::<int>::empty(),
        ensures
            final(self)@ == old(self)@.remove(set_min(old(self)@)),
            is_least(old(self)@, set_min(old(self)@)),
    {
        proof {
            lemma_bits64_zero_max();
        }
        let t = Self::lowest(self.bits);
        proof {
            lemma_bits64_pop(self.bits, t as u64);
            lemma_set_min_unique(self@, t as int);
        }
        self.bits = (self.bits - 1) & self.bits;
    }

    pub fn shift_left(&self, shift: usize) -> (r: Self)
        requires
            shift < 64,
        ensures
            r@ == Set::new(|i: int| 0 <= i < 64 && i >= shift && self@.contains(i - shift)),
    {
        let r = BitSet64 { bits: self.bits << (shift as u64) };
        assert forall|j: int| #[trigger] r@.contains(j) == (0 <= j < 64 && j >= shift && self@.contains(j - shift)) by {
            if 0 <= j < 64 {
                bv64_shift(self.bits, shift as u64, j as u64);
            }
        }
        assert(r@ =~= Set::new(|i: int| 0 <= i < 64 && i >= shift && self@.contains(i - shift)));
        r
    }

    pub fn shift_right(&self, shift: usize) -> (r: Self)
        requires
            shift < 64,
        ensures
            r@ == Set::new(|i: int| 0 <= i && i + shift < 64 && self@.contains(i + shift)),
    {
        let r = BitSet64 { bits: self.bits >> (shift as u64) };
        assert forall|j: int| #[trigger] r@.contains(j) == (0 <= j && j + shift < 64 && self@.contains(j + shift)) by {
            if 0 <= j < 64 {
                bv64_shift(self.bits, shift as u64, j as u64);
            }
            if j >= 64 {
                assert(!bit64(self.bits >> (shift as u64), j));
            }
        }
        assert(r@ =~= Set::new(|i: int| 0 <= i && i + shift < 64 && self@.contains(i + shift)));
        r
    }

    pub fn iter(&self) -> (r: BitSet64Iter)
        ensures
            r@ == self@,
    {
        BitSet64Iter { bitset: *self }
    }
}

/// Walks the elements of a `BitSet64` in increasing order.
#[derive(Clone, Copy, Debug)]
pub struct BitSet64Iter {
    bitset: BitSet64,
}

impl View for BitSet64Iter {
    type V = Set<int>;

    /// The elements not yet handed out.
    closed spec fn view(&self) -> Set<int> {
        self.bitset@
    }
}

impl BitSet64Iter {
    /// Hands out the least element not yet handed out.
    pub fn next(&mut self) -> (r: Option<usize>)
        ensures
            old(self)@ == Set::<int>::empty() ==> r is None && final(self)@ == old(self)@,
            old(self)@ != Set::<int>::empty() ==> r == Some(set_min(old(self)@) as usize)
                && is_least(old(self)@, set_min(old(self)@))
                && final(self)@ == old(self)@.remove(set_min(old(self)@)),
    {
        if self.bitset.is_empty() {
            None
        } else {
            proof {
                self.bitset.lemma_view();
                lemma_bits64_zero_max();
            }
            let t = BitSet64::lowest(self.bitset.bits);
            proof {
                lemma_set_min_unique(self@, t as int);
            }
            self.bitset.pop();
            Some(t as usize)
        }
    }

    pub fn len(&self) -> (r: usize)
        ensures
            r == self@.len(),
    {
        self.bitset.len()
    }
}

/// If bits 0..t of b are clear then b has no bits below t.
proof fn bv64_low_from_tz(b: u64, t: u64)
    requires
        t < 64,
        forall|j: u64| j < t ==> #[trigger] ((b >> j) & 1u64) == 0u64,
    ensures
        b & (((1u64 << t) - 1u64) as u64) == 0,
    decreases t,
{
    if t == 0 {
        bv64_mask(b, 0u64);
    } else {
        bv64_low_from_tz(b, (t - 1) as u64);
        assert(((b >> (t - 1) as u64) & 1u64) == 0u64);
        bv64_mask(b, (t - 1) as u64);
    }
}

// ---------------------------------------------------------------------------
// BitSet128: a set of integers in 0..128 held in one u128 word
// ---------------------------------------------------------------------------

/// Bit `i` of `b` is set (false outside 0..128).
pub open spec fn bit128(b: u128, i: int) -> bool {
    0 <= i < 128 && (b >> (i as u128)) & 1u128 == 1u128
}

/// The set of positions of the set bits of `b`.
pub open spec fn bits128_set(b: u128) -> Set<int> {
    Set::new(|i: int| bit128(b, i))
}

/// Single bits of the word operations on u128.
proof fn bv128_ops(a: u128, b: u128, k: u128)
    by (bit_vector)
    requires
        k < 128,
    ensures
        ((a | b) >> k) & 1u128 == 1u128 <==> ((a >> k) & 1u128 == 1u128 || (b >> k) & 1u128 == 1u128),
        ((a & b) >> k) & 1u128 == 1u128 <==> ((a >> k) & 1u128 == 1u128 && (b >> k) & 1u128 == 1u128),
        ((!a) >> k) & 1u128 == 1u128 <==> !((a >> k) & 1u128 == 1u128),
        !((0u128 >> k) & 1u128 == 1u128),
        (u128::MAX >> k) & 1u128 == 1u128,
{
}

/// Single bits of one set bit and of the words with the low bits set.
proof fn bv128_index(i: u128, k: u128)
    by (bit_vector)
    requires
        k < 128,
        i < 128,
    ensures
        ((1u128 << i) >> k) & 1u128 == 1u128 <==> i == k,
        ((((1u128 << i) - 1u128) as u128) >> k) & 1u128 == 1u128 <==> k < i,
        (1u128 << i) >= 1,
{
}

/// Single bits of shifted words.
proof fn bv128_shift(a: u128, s: u128, k: u128)
    by (bit_vector)
    requires
        k < 128,
        s < 128,
    ensures
        ((a << s) >> k) & 1u128 == 1u128 <==> (k >= s && (a >> ((k - s) as u128)) & 1u128 == 1u128),
        ((a >> s) >> k) & 1u128 == 1u128 <==> (k + s < 128 && (a >> ((k + s) as u128)) & 1u128 == 1u128),
{
}

/// Clearing the lowest set bit t of a word whose bits below t are clear.
proof fn bv128_lowest(b: u128, t: u128, k: u128)
    by (bit_vector)
    requires
        t < 128,
        k < 128,
    ensures
        ((b >> t) & 1u128 == 1u128 && b & (((1u128 << t) - 1u128) as u128) == 0) ==> (((((b - 1u128) as u128) & b) >> k) & 1u128 == 1u128 <==> ((b >> k) & 1u128 == 1u128 && k != t)),
        (k < t && b & (((1u128 << t) - 1u128) as u128) == 0) ==> !((b >> k) & 1u128 == 1u128),
{
}

/// Words that agree bit by bit from m on agree after shifting by m.
proof fn bv128_ext(a: u128, b: u128, m: u128)
    by (bit_vector)
    requires
        m < 128,
    ensures
        (((a >> m) & 1u128 == 1u128) <==> ((b >> m) & 1u128 == 1u128)) ==> (a >> m) & 1u128 == (b >> m) & 1u128,
        (m == 128 - 1 && (a >> m) & 1u128 == (b >> m) & 1u128) ==> a >> m == b >> m,
        (m < 128 - 1 && a >> (m + 1) as u128 == b >> (m + 1) as u128 && (a >> m) & 1u128 == (b >> m) & 1u128) ==> a >> m == b >> m,
        a >> 0u128 == a,
        b >> 0u128 == b,
{
}

/// Masks of the low bits grow one bit at a time.
proof fn bv128_mask(b: u128, m: u128)
    by (bit_vector)
    requires
        m < 128,
    ensures
        b & (((1u128 << 0u128) - 1u128) as u128) == 0,
        (b & (((1u128 << m) - 1u128) as u128) == 0 && (b >> m) & 1u128 == 0u128) ==> b & (((1u128 << (m + 1) as u128) - 1u128) as u128) == 0,
{
}

/// Words that agree on bits m.. agree after shifting by m.
pub proof fn lemma_bits128_ext_from(a: u128, b: u128, m: u128)
    requires
        m < 128,
        forall|k: u128| m <= k < 128 ==> (((a >> k) & 1u128 == 1u128) <==> ((b >> k) & 1u128 == 1u128)),
    ensures
        a >> m == b >> m,
    decreases 128 - m,
{
    assert(((a >> m) & 1u128 == 1u128) <==> ((b >> m) & 1u128 == 1u128));
    bv128_ext(a, b, m);
    if m < 128 - 1 {
        lemma_bits128_ext_from(a, b, (m + 1) as u128);
        bv128_ext(a, b, m);
    }
}

/// Two words with the same set of bits are equal.
pub proof fn lemma_bits128_ext(a: u128, b: u128)
    requires
        bits128_set(a) == bits128_set(b),
    ensures
        a == b,
{
    assert forall|k: u128| k < 128 implies (((a >> k) & 1u128 == 1u128) <==> ((b >> k) & 1u128 == 1u128)) by {
        assert(bits128_set(a).contains(k as int) == bits128_set(b).contains(k as int));
        assert(bits128_set(a).contains(k as int) == bit128(a, k as int));
        assert(bits128_set(b).contains(k as int) == bit128(b, k as int));
        assert(bit128(a, k as int) == ((a >> k) & 1u128 == 1u128));
        assert(bit128(b, k as int) == ((b >> k) & 1u128 == 1u128));
    }
    lemma_bits128_ext_from(a, b, 0u128);
    bv128_ext(a, b, 0u128);
}

pub proof fn lemma_bits128_finite(a: u128)
    ensures
        bits128_set(a).finite(),
        bits128_set(a).len() <= 128,
        forall|i: int| bits128_set(a).contains(i) ==> 0 <= i < 128,
{
    lemma_subset_range_finite(bits128_set(a), 0, 128);
}

pub proof fn lemma_bits128_or(a: u128, b: u128)
    ensures
        bits128_set(a | b) == bits128_set(a).union(bits128_set(b)),
{
    assert forall|i: int| #[trigger] bits128_set(a | b).contains(i) == bits128_set(a).union(bits128_set(b)).contains(i) by {
        if 0 <= i < 128 {
            bv128_ops(a, b, i as u128);
        }
    }
    assert(bits128_set(a | b) =~= bits128_set(a).union(bits128_set(b)));
}

pub proof fn lemma_bits128_and(a: u128, b: u128)
    ensures
        bits128_set(a & b) == bits128_set(a).intersect(bits128_set(b)),
{
    assert forall|i: int| #[trigger] bits128_set(a & b).contains(i) == bits128_set(a).intersect(bits128_set(b)).contains(i) by {
        if 0 <= i < 128 {
            bv128_ops(a, b, i as u128);
        }
    }
    assert(bits128_set(a & b) =~= bits128_set(a).intersect(bits128_set(b)));
}

pub proof fn lemma_bits128_not(a: u128)
    ensures
        bits128_set(!a) == set_int_range(0, 128).difference(bits128_set(a)),
{
    assert forall|i: int| #[trigger] bits128_set(!a).contains(i) == set_int_range(0, 128).difference(bits128_set(a)).contains(i) by {
        if 0 <= i < 128 {
            bv128_ops(a, a, i as u128);
        }
    }
    assert(bits128_set(!a) =~= set_int_range(0, 128).difference(bits128_set(a)));
}

pub proof fn lemma_bits128_single(i: u128)
    requires
        i < 128,
    ensures
        bits128_set(1u128 << i) == Set::<int>::empty().insert(i as int),
{
    assert forall|j: int| #[trigger] bits128_set(1u128 << i).contains(j) == Set::<int>::empty().insert(i as int).contains(j) by {
        if 0 <= j < 128 {
            bv128_index(i, j as u128);
        }
    }
    assert(bits128_set(1u128 << i) =~= Set::<int>::empty().insert(i as int));
}

pub proof fn lemma_bits128_zero_max()
    ensures
        bits128_set(0u128) == Set::<int>::empty(),
        bits128_set(u128::MAX) == set_int_range(0, 128),
{
    assert forall|j: int| #[trigger] bits128_set(0u128).contains(j) == Set::<int>::empty().contains(j) by {
        if 0 <= j < 128 {
            bv128_ops(0u128, 0u128, j as u128);
        }
    }
    assert forall|j: int| #[trigger] bits128_set(u128::MAX).contains(j) == set_int_range(0, 128).contains(j) by {
        if 0 <= j < 128 {
            bv128_ops(0u128, 0u128, j as u128);
        }
    }
    assert(bits128_set(0u128) =~= Set::<int>::empty());
    assert(bits128_set(u128::MAX) =~= set_int_range(0, 128));
}

pub proof fn lemma_bits128_low(n: u128)
    requires
        n < 128,
    ensures
        bits128_set(((1u128 << n) - 1u128) as u128) == set_int_range(0, n as int),
{
    assert forall|j: int| #[trigger] bits128_set(((1u128 << n) - 1u128) as u128).contains(j) == set_int_range(0, n as int).contains(j) by {
        if 0 <= j < 128 {
            bv128_index(n, j as u128);
        }
    }
    assert(bits128_set(((1u128 << n) - 1u128) as u128) =~= set_int_range(0, n as int));
}

/// Clearing the lowest set bit removes the least element.
pub proof fn lemma_bits128_pop(b: u128, t: u128)
    requires
        b != 0,
        t < 128,
        (b >> t) & 1u128 == 1u128,
        b & (((1u128 << t) - 1u128) as u128) == 0,
    ensures
        is_least(bits128_set(b), t as int),
        bits128_set(((b - 1u128) as u128) & b) == bits128_set(b).remove(t as int),
{
    assert forall|j: int| #[trigger] bits128_set(((b - 1u128) as u128) & b).contains(j) == bits128_set(b).remove(t as int).contains(j) by {
        if 0 <= j < 128 {
            bv128_lowest(b, t, j as u128);
        }
    }
    assert(bits128_set(((b - 1u128) as u128) & b) =~= bits128_set(b).remove(t as int));
    assert forall|x: int| bits128_set(b).contains(x) implies t <= x by {
        if x < t {
            bv128_lowest(b, t, x as u128);
        }
    }
}

/// A set of integers in 0..128, stored as the bits of one word.
#[derive(Clone, Copy, PartialEq, Eq, Structural, PartialOrd, Ord, Hash, Default, Debug)]
pub struct BitSet128 {
    bits: u128,
}

impl View for BitSet128 {
    type V = Set<int>;

    closed spec fn view(&self) -> Set<int> {
        bits128_set(self.bits)
    }
}

impl BitSet128 {
    /// The word that holds the set.
    pub closed spec fn raw(&self) -> u128 {
        self.bits
    }

    /// A set is its word: two sets with the same word are the same.
    pub proof fn lemma_raw_determines(self, other: Self)
        requires
            self.raw() == other.raw(),
        ensures
            self == other,
    {
    }

    /// Two sets are equal exactly when they hold the same elements.
    pub proof fn lemma_eq_iff_view(a: Self, b: Self)
        ensures
            (a == b) <==> (a@ == b@),
    {
        if a@ == b@ {
            lemma_bits128_ext(a.bits, b.bits);
        }
    }

    pub proof fn lemma_view(&self)
        ensures
            self@ == bits128_set(self.raw()),
            self@.finite(),
            self@.len() <= 128,
            forall|i: int| self@.contains(i) ==> 0 <= i < 128,
    {
        lemma_bits128_finite(self.bits);
    }

    /// The position of the lowest set bit of a nonzero word.
    fn lowest(b: u128) -> (t: u32)
        requires
            b != 0,
        ensures
            t < 128,
            (b >> (t as u128)) & 1u128 == 1u128,
            b & (((1u128 << (t as u128)) - 1u128) as u128) == 0,
            is_least(bits128_set(b), t as int),
    {
        let lo: u64 = b as u64;
        let hi: u64 = (b >> 64u128) as u64;
        let t: u32;
        if lo != 0 {
            t = lo.trailing_zeros();
            proof {
                axiom_u64_trailing_zeros(lo);
                bv128_halves(b, t as u64);
                assert forall|j: u128| j < (t as u128) implies #[trigger] ((b >> j) & 1u128) == 0u128 by {
                    bv128_halves(b, j as u64);
                    assert(((lo >> (j as u64)) & 1u64) == 0u64);
                }
            }
        } else {
            proof {
                bv128_halves(b, 0u64);
            }
            let th = hi.trailing_zeros();
            proof {
                axiom_u64_trailing_zeros(hi);
                bv128_halves(b, th as u64);
                assert forall|j: u128| j < (64 + th) as u128 implies #[trigger] ((b >> j) & 1u128) == 0u128 by {
                    if j < 64 {
                        bv128_halves(b, j as u64);
                    } else {
                        bv128_halves(b, (j - 64) as u64);
                        assert(((hi >> ((j - 64) as u64)) & 1u64) == 0u64);
                    }
                }
            }
            t = 64 + th;
        }
        proof {
            bv128_low_from_tz(b, t as u128);
            lemma_bits128_pop(b, t as u128);
        }
        t
    }

    pub fn empty() -> (r: Self)
        ensures
            r@ == Set::<int>::empty(),
    {
        proof {
            lemma_bits128_zero_max();
        }
        BitSet128 { bits: 0 }
    }

    pub fn full() -> (r: Self)
        ensures
            r@ == set_int_range(0, 128),
    {
        proof {
            lemma_bits128_zero_max();
        }
        BitSet128 { bits: u128::MAX }
    }

    pub fn all_less_than(n: usize) -> (r: Self)
        requires
            n <= 128,
        ensures
            r@ == set_int_range(0, n as int),
    {
        if n == 128 {
            Self::full()
        } else {
            proof {
                lemma_bits128_low(n as u128);
            }
            proof {
                bv128_index(n as u128, 0u128);
            }
            BitSet128 { bits: ((1u128 << (n as u128)) - 1) as u128 }
        }
    }

    pub fn from_bits(bits: u128) -> (r: Self)
        ensures
            r@ == bits128_set(bits),
            r.raw() == bits,
    {
        BitSet128 { bits }
    }

    pub fn from_range(range: core::ops::Range<usize>) -> (r: Self)
        requires
            range.start <= 128,
            range.end <= 128,
        ensures
            r@ == set_int_range(range.start as int, range.end as int),
    {
        let start = range.start;
        let end = range.end;
        let r = Self::all_less_than(end).intersect(Self::all_less_than(start).complement());
        assert(r@ =~= set_int_range(start as int, end as int));
        r
    }

    pub fn from_iter(items: Vec<usize>) -> (r: Self)
        requires
            forall|k: int| 0 <= k < items.len() ==> items[k] < 128,
        ensures
            r@ == usize_seq_set(items@),
    {
        Self::from_slice(items.as_slice())
    }

    pub fn from_slice(slice: &[usize]) -> (r: Self)
        requires
            forall|k: int| 0 <= k < slice@.len() ==> slice@[k] < 128,
        ensures
            r@ == usize_seq_set(slice@),
    {
        let mut bitset = Self::empty();
        let mut i: usize = 0;
        proof {
            lemma_usize_seq_set_full(slice@);
        }
        while i < slice.len()
            invariant
                i <= slice@.len(),
                forall|k: int| 0 <= k < slice@.len() ==> slice@[k] < 128,
                bitset@ == usize_seq_set(slice@.take(i as int)),
            decreases slice@.len() - i,
        {
            proof {
                lemma_usize_seq_set_take(slice@, i as int);
            }
            bitset.insert(slice[i]);
            i += 1;
        }
        proof {
            lemma_usize_seq_set_full(slice@);
        }
        bitset
    }

    pub fn bits(&self) -> (r: u128)
        ensures
            r == self.raw(),
            bits128_set(r) == self@,
    {
        self.bits
    }

    pub fn is_empty(&self) -> (r: bool)
        ensures
            r == (self@ == Set::<int>::empty()),
    {
        proof {
            lemma_bits128_zero_max();
            if self@ == Set::<int>::empty() {
                lemma_bits128_ext(self.bits, 0u128);
            }
        }
        self.bits == 0
    }

    pub fn single(i: usize) -> (r: Self)
        requires
            i < 128,
        ensures
            r@ == Set::<int>::empty().insert(i as int),
    {
        proof {
            lemma_bits128_single(i as u128);
        }
        BitSet128 { bits: 1u128 << (i as u128) }
    }

    pub fn insert(&mut self, index: usize)
        requires
            index < 128,
        ensures
            final(self)@ == old(self)@.insert(index as int),
    {
        proof {
            lemma_bits128_single(index as u128);
            lemma_bits128_or(self.bits, 1u128 << (index as u128));
        }
        let bit_mask: u128 = 1u128 << (index as u128);
        self.bits = self.bits | bit_mask;
        assert(self@ =~= old(self)@.insert(index as int));
    }

    pub fn remove(&mut self, index: usize)
        requires
            index < 128,
        ensures
            final(self)@ == old(self)@.remove(index as int),
    {
        proof {
            lemma_bits128_single(index as u128);
            lemma_bits128_not(1u128 << (index as u128));
            lemma_bits128_and(self.bits, !(1u128 << (index as u128)));
        }
        let bit_mask: u128 = 1u128 << (index as u128);
        self.bits = self.bits & !bit_mask;
        assert(self@ =~= old(self)@.remove(index as int));
    }

    pub fn contains(&self, index: usize) -> (r: bool)
        requires
            index < 128,
        ensures
            r == self@.contains(index as int),
    {
        proof {
            lemma_bits128_single(index as u128);
            lemma_bits128_and(self.bits, 1u128 << (index as u128));
            lemma_bits128_zero_max();
            if self.bits & (1u128 << (index as u128)) == 0 {
                assert(!bits128_set(0u128).contains(index as int));
            } else {
                if !self@.contains(index as int) {
                    assert(bits128_set(self.bits & (1u128 << (index as u128))) =~= Set::<int>::empty());
                    lemma_bits128_ext(self.bits & (1u128 << (index as u128)), 0u128);
                }
            }
        }
        let bit_mask: u128 = 1u128 << (index as u128);
        (self.bits & bit_mask) != 0
    }

    pub fn union(&self, other: Self) -> (r: Self)
        ensures
            r@ == self@.union(other@),
    {
        proof {
            lemma_bits128_or(self.bits, other.bits);
        }
        BitSet128 { bits: self.bits | other.bits }
    }

    pub fn intersect(&self, other: Self) -> (r: Self)
        ensures
            r@ == self@.intersect(other@),
    {
        proof {
            lemma_bits128_and(self.bits, other.bits);
        }
        BitSet128 { bits: self.bits & other.bits }
    }

    pub fn complement(&self) -> (r: Self)
        ensures
            r@ == set_int_range(0, 128).difference(self@),
    {
        proof {
            lemma_bits128_not(self.bits);
        }
        BitSet128 { bits: !self.bits }
    }

    pub fn is_disjoint(&self, other: Self) -> (r: bool)
        ensures
            r == self@.disjoint(other@),
    {
        proof {
            lemma_bits128_and(self.bits, other.bits);
            lemma_bits128_zero_max();
            if self@.disjoint(other@) {
                assert(bits128_set(self.bits & other.bits) =~= Set::<int>::empty());
                lemma_bits128_ext(self.bits & other.bits, 0u128);
            }
            if self.bits & other.bits == 0 {
                assert forall|x: int| self@.contains(x) implies !other@.contains(x) by {
                    assert(!bits128_set(self.bits & other.bits).contains(x));
                }
            }
        }
        self.bits & other.bits == 0
    }

    pub fn is_subset_of(&self, other: Self) -> (r: bool)
        ensures
            r == self@.subset_of(other@),
    {
        proof {
            lemma_bits128_and(self.bits, other.bits);
            if self@.subset_of(other@) {
                assert(bits128_set(self.bits & other.bits) =~= bits128_set(self.bits));
                lemma_bits128_ext(self.bits & other.bits, self.bits);
            }
        }
        self.bits & other.bits == self.bits
    }

    pub fn len(&self) -> (r: usize)
        ensures
            r == self@.len(),
    {
        let mut b: u128 = self.bits;
        let mut count: usize = 0;
        proof {
            lemma_bits128_finite(b);
        }
        while b != 0
            invariant
                bits128_set(b).finite(),
                count + bits128_set(b).len() == self@.len(),
                self@.len() <= 128,
            decreases bits128_set(b).len(),
        {
            let t = Self::lowest(b);
            proof {
                lemma_bits128_pop(b, t as u128);
                lemma_bits128_finite(((b - 1u128) as u128) & b);
            }
            b = (b - 1) & b;
            count += 1;
        }
        proof {
            lemma_bits128_zero_max();
        }
        count
    }

    pub fn is_single(&self) -> (r: bool)
        ensures
            r == (self@.len() == 1),
    {
        self.len() == 1
    }

    /// Removes the least element.
    pub fn pop(&mut self)
        requires
            old(self)@ != Set::<int>::empty(),
        ensures
            final(self)@ == old(self)@.remove(set_min(old(self)@)),
            is_least(old(self)@, set_min(old(self)@)),
    {
        proof {
            lemma_bits128_zero_max();
        }
        let t = Self::lowest(self.bits);
        proof {
            lemma_bits128_pop(self.bits, t as u128);
            lemma_set_min_unique(self@, t as int);
        }
        self.bits = (self.bits - 1) & self.bits;
    }

    pub fn shift_left(&self, shift: usize) -> (r: Self)
        requires
            shift < 128,
        ensures
            r@ == Set::new(|i: int| 0 <= i < 128 && i >= shift && self@.contains(i - shift)),
    {
        let r = BitSet128 { bits: self.bits << (shift as u128) };
        assert forall|j: int| #[trigger] r@.contains(j) == (0 <= j < 128 && j >= shift && self@.contains(j - shift)) by {
            if 0 <= j < 128 {
                bv128_shift(self.bits, shift as u128, j as u128);
            }
        }
        assert(r@ =~= Set::new(|i: int| 0 <= i < 128 && i >= shift && self@.contains(i - shift)));
        r
    }

    pub fn shift_right(&self, shift: usize) -> (r: Self)
        requires
            shift < 128,
        ensures
            r@ == Set::new(|i: int| 0 <= i && i + shift < 128 && self@.contains(i + shift)),
    {
        let r = BitSet128 { bits: self.bits >> (shift as u128) };
        assert forall|j: int| #[trigger] r@.contains(j) == (0 <= j && j + shift < 128 && self@.contains(j + shift)) by {
            if 0 <= j < 128 {
                bv128_shift(self.bits, shift as u128, j as u128);
            }
            if j >= 128 {
                assert(!bit128(self.bits >> (shift as u128), j));
            }
        }
        assert(r@ =~= Set::new(|i: int| 0 <= i && i + shift < 128 && self@.contains(i + shift)));
        r
    }

    pub fn iter(&self) -> (r: BitSet128Iter)
        ensures
            r@ == self@,
    {
        BitSet128Iter { bitset: *self }
    }
}

/// Walks the elements of a `BitSet128` in increasing order.
#[derive(Clone, Copy, Debug)]
pub struct BitSet128Iter {
    bitset: BitSet128,
}

impl View for BitSet128Iter {
    type V = Set<int>;

    /// The elements not yet handed out.
    closed spec fn view(&self) -> Set<int> {
        self.bitset@
    }
}

impl BitSet128Iter {
    /// Hands out the least element not yet handed out.
    pub fn next(&mut self) -> (r: Option<usize>)
        ensures
            old(self)@ == Set::<int>::empty() ==> r is None && final(self)@ == old(self)@,
            old(self)@ != Set::<int>::empty() ==> r == Some(set_min(old(self)@) as usize)
                && is_least(old(self)@, set_min(old(self)@))
                && final(self)@ == old(self)@.remove(set_min(old(self)@)),
    {
        if self.bitset.is_empty() {
            None
        } else {
            proof {
                self.bitset.lemma_view();
                lemma_bits128_zero_max();
            }
            let t = BitSet128::lowest(self.bitset.bits);
            proof {
                lemma_set_min_unique(self@, t as int);
            }
            self.bitset.pop();
            Some(t as usize)
        }
    }

    pub fn len(&self) -> (r: usize)
        ensures
            r == self@.len(),
    {
        self.bitset.len()
    }
}

/// If bits 0..t of b are clear then b has no bits below t.
proof fn bv128_low_from_tz(b: u128, t: u128)
    requires
        t < 128,
        forall|j: u128| j < t ==> #[trigger] ((b >> j) & 1u128) == 0u128,
    ensures
        b & (((1u128 << t) - 1u128) as u128) == 0,
    decreases t,
{
    if t == 0 {
        bv128_mask(b, 0u128);
    } else {
        bv128_low_from_tz(b, (t - 1) as u128);
        assert(((b >> (t - 1) as u128) & 1u128) == 0u128);
        bv128_mask(b, (t - 1) as u128);
    }
}

/// The bits of a u128 are those of its low word followed by those of its high word.
proof fn bv128_halves(b: u128, j: u64)
    by (bit_vector)
    requires
        j < 64,
    ensures
        ((b >> (j as u128)) & 1u128 == 1u128) <==> (((b as u64) >> j) & 1u64 == 1u64),
        ((b >> (j as u128)) & 1u128 == 0u128) <==> (((b as u64) >> j) & 1u64 == 0u64),
        ((b >> ((j + 64) as u128)) & 1u128 == 1u128) <==> ((((b >> 64u128) as u64) >> j) & 1u64 == 1u64),
        ((b >> ((j + 64) as u128)) & 1u128 == 0u128) <==> ((((b >> 64u128) as u64) >> j) & 1u64 == 0u64),
        (b != 0 && (b as u64) == 0) ==> ((b >> 64u128) as u64) != 0,
        (0u64 >> j) & 1u64 == 0u64,
{
}

// ---------------------------------------------------------------------------
// BitSet256: a set of integers in 0..256 held in four u64 words
// ---------------------------------------------------------------------------

/// The set of positions of the set bits of four words, word `k` holding 64 * k..64 * (k + 1).
pub open spec fn words256_set(w: [u64; 4]) -> Set<int> {
    Set::new(|i: int| 0 <= i < 256 && bits64_set(w[i / 64]).contains(i % 64))
}

proof fn lemma_words256_parts(w: [u64; 4])
    ensures
        forall|i: int| #[trigger] words256_set(w).contains(i) ==> 0 <= i < 256,
        words256_set(w).finite(),
        words256_set(w).len() <= 256,
{
    lemma_subset_range_finite(words256_set(w), 0, 256);
}

/// Two word arrays with the same elements are equal.
proof fn lemma_words256_ext(a: [u64; 4], b: [u64; 4])
    requires
        words256_set(a) == words256_set(b),
    ensures
        a == b,
{
    assert forall|k: int| 0 <= k < 4 implies a[k] == b[k] by {
        assert forall|j: int| #[trigger] bits64_set(a[k]).contains(j) == bits64_set(b[k]).contains(j) by {
            if 0 <= j < 64 {
                let x = 64 * k + j;
                assert(x / 64 == k);
                assert(x % 64 == j);
                assert(words256_set(a).contains(x) == bits64_set(a[k]).contains(j));
                assert(words256_set(b).contains(x) == bits64_set(b[k]).contains(j));
            } else {
                assert(!bits64_set(a[k]).contains(j));
                assert(!bits64_set(b[k]).contains(j));
            }
        }
        assert(bits64_set(a[k]) =~= bits64_set(b[k]));
        lemma_bits64_ext(a[k], b[k]);
    }
    assert(a =~= b);
}

/// A set of integers in 0..256, stored as the bits of four words.
#[derive(Clone, Copy, PartialEq, Eq, PartialOrd, Ord, Hash, Default, Debug)]
pub struct BitSet256 {
    words: [u64; 4],
}

impl View for BitSet256 {
    type V = Set<int>;

    closed spec fn view(&self) -> Set<int> {
        words256_set(self.words)
    }
}

impl BitSet256 {
    /// The four words that hold the set.
    pub closed spec fn raw(&self) -> [u64; 4] {
        self.words
    }

    pub proof fn lemma_view(&self)
        ensures
            self@ == words256_set(self.raw()),
            self@.finite(),
            self@.len() <= 256,
            forall|i: int| self@.contains(i) ==> 0 <= i < 256,
    {
        lemma_words256_parts(self.words);
    }

    fn from_words(w0: u64, w1: u64, w2: u64, w3: u64) -> (r: Self)
        ensures
            r.words@ == seq![w0, w1, w2, w3],
    {
        let r = BitSet256 { words: [w0, w1, w2, w3] };
        assert(r.words@ =~= seq![w0, w1, w2, w3]);
        r
    }

    pub fn empty() -> (r: Self)
        ensures
            r@ == Set::<int>::empty(),
    {
        proof {
            lemma_bits64_zero_max();
        }
        let r = Self::from_words(0, 0, 0, 0);
        assert(r@ =~= Set::<int>::empty());
        r
    }

    pub fn full() -> (r: Self)
        ensures
            r@ == set_int_range(0, 256),
    {
        proof {
            lemma_bits64_zero_max();
        }
        let r = Self::from_words(u64::MAX, u64::MAX, u64::MAX, u64::MAX);
        assert forall|i: int| #[trigger] r@.contains(i) == set_int_range(0, 256).contains(i) by {
            if 0 <= i < 256 {
                assert(0 <= i % 64 < 64);
                assert(0 <= i / 64 < 4);
            }
        }
        assert(r@ =~= set_int_range(0, 256));
        r
    }

    pub fn all_less_than(n: usize) -> (r: Self)
        requires
            n <= 256,
        ensures
            r@ == set_int_range(0, n as int),
    {
        if n == 256 {
            Self::full()
        } else {
            let word = n / 64;
            let index = n % 64;
            let mut words = [0u64; 4];
            let mut i: usize = 0;
            let low = BitSet64::all_less_than(index);
            while i < 4
                invariant
                    0 <= i <= 4,
                    word < 4,
                    index < 64,
                    n == 64 * word + index,
                    low@ == set_int_range(0, index as int),
                    forall|k: int| 0 <= k < i ==> bits64_set(#[trigger] words[k]) == (if k < word {
                        set_int_range(0, 64)
                    } else if k == word {
                        set_int_range(0, index as int)
                    } else {
                        Set::<int>::empty()
                    }),
                decreases 4 - i,
            {
                proof {
                    lemma_bits64_zero_max();
                }
                words[i] = if i < word {
                    u64::MAX
                } else if i == word {
                    low.bits()
                } else {
                    0
                };
                i += 1;
            }
            let r = BitSet256 { words };
            assert forall|x: int| #[trigger] r@.contains(x) == set_int_range(0, n as int).contains(x) by {
                if 0 <= x < 256 {
                    let k = x / 64;
                    assert(0 <= k < 4);
                    assert(x == 64 * k + x % 64);
                }
            }
            assert(r@ =~= set_int_range(0, n as int));
            r
        }
    }

    pub fn from_bits(bits: [u64; 4]) -> (r: Self)
        ensures
            r@ == words256_set(bits),
            r.raw() == bits,
    {
        BitSet256 { words: bits }
    }

    pub fn from_range(range: core::ops::Range<usize>) -> (r: Self)
        requires
            range.start <= 256,
            range.end <= 256,
        ensures
            r@ == set_int_range(range.start as int, range.end as int),
    {
        let start = range.start;
        let end = range.end;
        let r = Self::all_less_than(end).intersect(Self::all_less_than(start).complement());
        assert(r@ =~= set_int_range(start as int, end as int));
        r
    }

    pub fn from_iter(items: Vec<usize>) -> (r: Self)
        requires
            forall|k: int| 0 <= k < items.len() ==> items[k] < 256,
        ensures
            r@ == usize_seq_set(items@),
    {
        Self::from_slice(items.as_slice())
    }

    pub fn from_slice(slice: &[usize]) -> (r: Self)
        requires
            forall|k: int| 0 <= k < slice@.len() ==> slice@[k] < 256,
        ensures
            r@ == usize_seq_set(slice@),
    {
        let mut bitset = Self::empty();
        let mut i: usize = 0;
        proof {
            lemma_usize_seq_set_full(slice@);
        }
        while i < slice.len()
            invariant
                i <= slice@.len(),
                forall|k: int| 0 <= k < slice@.len() ==> slice@[k] < 256,
                bitset@ == usize_seq_set(slice@.take(i as int)),
            decreases slice@.len() - i,
        {
            proof {
                lemma_usize_seq_set_take(slice@, i as int);
            }
            bitset.insert(slice[i]);
            i += 1;
        }
        proof {
            lemma_usize_seq_set_full(slice@);
        }
        bitset
    }

    pub fn bits(&self) -> (r: [u64; 4])
        ensures
            r == self.raw(),
            words256_set(r) == self@,
    {
        self.words
    }

    pub fn is_empty(&self) -> (r: bool)
        ensures
            r == (self@ == Set::<int>::empty()),
    {
        proof {
            lemma_bits64_zero_max();
            if self@ == Set::<int>::empty() {
                assert forall|k: int| 0 <= k < 4 implies self.words[k] == 0 by {
                    assert forall|j: int| !(#[trigger] bits64_set(self.words[k]).contains(j)) by {
                        if 0 <= j < 64 {
                            assert(!self@.contains(64 * k + j));
                            assert((64 * k + j) / 64 == k);
                            assert((64 * k + j) % 64 == j);
                        }
                    }
                    assert(bits64_set(self.words[k]) =~= bits64_set(0u64));
                    lemma_bits64_ext(self.words[k], 0u64);
                }
            }
            if self.words[0] == 0 && self.words[1] == 0 && self.words[2] == 0 && self.words[3] == 0 {
                assert forall|i: int| !self@.contains(i) by {
                    if 0 <= i < 256 {
                        assert(0 <= i / 64 < 4);
                    }
                }
                assert(self@ =~= Set::<int>::empty());
            }
        }
        self.words[0] == 0 && self.words[1] == 0 && self.words[2] == 0 && self.words[3] == 0
    }

    pub fn single(i: usize) -> (r: Self)
        requires
            i < 256,
        ensures
            r@ == Set::<int>::empty().insert(i as int),
    {
        let mut bitset = Self::empty();
        bitset.insert(i);
        bitset
    }

    pub fn insert(&mut self, index: usize)
        requires
            index < 256,
        ensures
            final(self)@ == old(self)@.insert(index as int),
    {
        let word = index / 64;
        let mut w = BitSet64::from_bits(self.words[word]);
        w.insert(index % 64);
        self.words[word] = w.bits();
        assert forall|x: int| #[trigger] self@.contains(x) == old(self)@.insert(index as int).contains(x) by {
            if 0 <= x < 256 && x / 64 == word {
                assert(x == index <==> x % 64 == index % 64);
            }
        }
        assert(self@ =~= old(self)@.insert(index as int));
    }

    pub fn remove(&mut self, index: usize)
        requires
            index < 256,
        ensures
            final(self)@ == old(self)@.remove(index as int),
    {
        let word = index / 64;
        let mut w = BitSet64::from_bits(self.words[word]);
        w.remove(index % 64);
        self.words[word] = w.bits();
        assert forall|x: int| #[trigger] self@.contains(x) == old(self)@.remove(index as int).contains(x) by {
            if 0 <= x < 256 && x / 64 == word {
                assert(x == index <==> x % 64 == index % 64);
            }
        }
        assert(self@ =~= old(self)@.remove(index as int));
    }

    pub fn contains(&self, index: usize) -> (r: bool)
        requires
            index < 256,
        ensures
            r == self@.contains(index as int),
    {
        let word = index / 64;
        BitSet64::from_bits(self.words[word]).contains(index % 64)
    }

    pub fn union(&self, other: Self) -> (r: Self)
        ensures
            r@ == self@.union(other@),
    {
        let r = Self::from_words(
            self.words[0] | other.words[0],
            self.words[1] | other.words[1],
            self.words[2] | other.words[2],
            self.words[3] | other.words[3],
        );
        proof {
            assert forall|k: int| 0 <= k < 4 implies bits64_set(#[trigger] r.words[k]) == bits64_set(self.words[k]).union(bits64_set(other.words[k])) by {
                lemma_bits64_or(self.words[k], other.words[k]);
            }
            assert forall|x: int| #[trigger] r@.contains(x) == self@.union(other@).contains(x) by {
                if 0 <= x < 256 {
                    assert(0 <= x / 64 < 4);
                }
            }
        }
        assert(r@ =~= self@.union(other@));
        r
    }

    pub fn intersect(&self, other: Self) -> (r: Self)
        ensures
            r@ == self@.intersect(other@),
    {
        let r = Self::from_words(
            self.words[0] & other.words[0],
            self.words[1] & other.words[1],
            self.words[2] & other.words[2],
            self.words[3] & other.words[3],
        );
        proof {
            assert forall|k: int| 0 <= k < 4 implies bits64_set(#[trigger] r.words[k]) == bits64_set(self.words[k]).intersect(bits64_set(other.words[k])) by {
                lemma_bits64_and(self.words[k], other.words[k]);
            }
            assert forall|x: int| #[trigger] r@.contains(x) == self@.intersect(other@).contains(x) by {
                if 0 <= x < 256 {
                    assert(0 <= x / 64 < 4);
                }
            }
        }
        assert(r@ =~= self@.intersect(other@));
        r
    }

    pub fn complement(&self) -> (r: Self)
        ensures
            r@ == set_int_range(0, 256).difference(self@),
    {
        let r = Self::from_words(!self.words[0], !self.words[1], !self.words[2], !self.words[3]);
        proof {
            assert forall|k: int| 0 <= k < 4 implies bits64_set(#[trigger] r.words[k]) == set_int_range(0, 64).difference(bits64_set(self.words[k])) by {
                lemma_bits64_not(self.words[k]);
            }
            assert forall|x: int| #[trigger] r@.contains(x) == set_int_range(0, 256).difference(self@).contains(x) by {
                if 0 <= x < 256 {
                    assert(0 <= x / 64 < 4);
                    assert(0 <= x % 64 < 64);
                }
            }
        }
        assert(r@ =~= set_int_range(0, 256).difference(self@));
        r
    }

    pub fn is_disjoint(&self, other: Self) -> (r: bool)
        ensures
            r == self@.disjoint(other@),
    {
        let r = self.intersect(other).is_empty();
        proof {
            if r {
                assert forall|x: int| self@.contains(x) implies !other@.contains(x) by {
                    assert(!self@.intersect(other@).contains(x));
                }
            } else {
                let x = choose|x: int| #[trigger] self@.intersect(other@).contains(x);
                assert(self@.intersect(other@) != Set::<int>::empty());
                if self@.disjoint(other@) {
                    assert(self@.intersect(other@) =~= Set::<int>::empty());
                }
            }
        }
        r
    }

    pub fn is_subset_of(&self, other: Self) -> (r: bool)
        ensures
            r == self@.subset_of(other@),
    {
        let i = self.intersect(other);
        let r = i.words[0] == self.words[0] && i.words[1] == self.words[1] && i.words[2] == self.words[2]
            && i.words[3] == self.words[3];
        proof {
            if r {
                assert(i.words =~= self.words);
                assert forall|x: int| self@.contains(x) implies other@.contains(x) by {
                    assert(i@.contains(x));
                }
            }
            if self@.subset_of(other@) {
                assert(i@ =~= self@);
                lemma_words256_ext(i.words, self.words);
            }
        }
        r
    }

    pub fn len(&self) -> (r: usize)
        ensures
            r == self@.len(),
    {
        let l0 = BitSet64::from_bits(self.words[0]).len();
        let l1 = BitSet64::from_bits(self.words[1]).len();
        let l2 = BitSet64::from_bits(self.words[2]).len();
        let l3 = BitSet64::from_bits(self.words[3]).len();
        proof {
            self.lemma_len_split();
            lemma_bits64_finite(self.words[0]);
            lemma_bits64_finite(self.words[1]);
            lemma_bits64_finite(self.words[2]);
            lemma_bits64_finite(self.words[3]);
        }
        l0 + l1 + l2 + l3
    }

    /// The size of the set is the sum of the sizes of the four words' sets.
    proof fn lemma_len_split(&self)
        ensures
            self@.len() == bits64_set(self.words[0]).len() + bits64_set(self.words[1]).len()
                + bits64_set(self.words[2]).len() + bits64_set(self.words[3]).len(),
    {
        let s = self@;
        let part = |k: int| Set::new(|i: int| 64 * k <= i < 64 * (k + 1) && s.contains(i));
        lemma_words256_parts(self.words);
        assert forall|k: int| 0 <= k < 4 implies (#[trigger] part(k)).len() == bits64_set(self.words[k]).len() by {
            let f = |j: int| j + 64 * k;
            lemma_bits64_finite(self.words[k]);
            assert forall|j: int| bits64_set(self.words[k]).contains(j) implies part(k).contains(f(j)) by {
                assert((j + 64 * k) / 64 == k);
                assert((j + 64 * k) % 64 == j);
            }
            assert forall|i: int| #[trigger] part(k).contains(i) implies exists|j: int| #[trigger] bits64_set(self.words[k]).contains(j) && f(j) == i by {
                assert(i / 64 == k);
                let j = i % 64;
                assert(f(j) == i);
            }
            assert(bits64_set(self.words[k]).map(f) =~= part(k));
            assert forall|a: int, b: int| bits64_set(self.words[k]).contains(a) && bits64_set(self.words[k]).contains(b) && #[trigger] f(a) == #[trigger] f(b) implies a == b by {}
            lemma_map_size(bits64_set(self.words[k]), part(k), f);
        }
        lemma_subset_range_finite(part(0), 0, 64);
        lemma_subset_range_finite(part(1), 64, 128);
        lemma_subset_range_finite(part(2), 128, 192);
        lemma_subset_range_finite(part(3), 192, 256);
        assert(part(0).disjoint(part(1)));
        lemma_set_disjoint_lens(part(0), part(1));
        assert(part(0).union(part(1)).disjoint(part(2)));
        lemma_set_disjoint_lens(part(0).union(part(1)), part(2));
        assert(part(0).union(part(1)).union(part(2)).disjoint(part(3)));
        lemma_set_disjoint_lens(part(0).union(part(1)).union(part(2)), part(3));
        assert(s =~= part(0).union(part(1)).union(part(2)).union(part(3)));
    }

    pub fn is_single(&self) -> (r: bool)
        ensures
            r == (self@.len() == 1),
    {
        self.len() == 1
    }

    /// Removes the least element; an empty set stays empty.
    pub fn pop(&mut self)
        ensures
            old(self)@ == Set::<int>::empty() ==> final(self)@ == Set::<int>::empty(),
            old(self)@ != Set::<int>::empty() ==> final(self)@ == old(self)@.remove(set_min(old(self)@))
                && is_least(old(self)@, set_min(old(self)@)),
    {
        if self.is_empty() {
            return;
        }
        let m = self.first();
        self.remove(m);
    }

    /// The least element of a nonempty set.
    fn first(&self) -> (m: usize)
        requires
            self@ != Set::<int>::empty(),
        ensures
            m < 256,
            m as int == set_min(self@),
            is_least(self@, m as int),
    {
        let mut k: usize = 0;
        while k < 4
            invariant
                0 <= k <= 4,
                forall|x: int| #[trigger] self@.contains(x) ==> x >= 64 * k,
            decreases 4 - k,
        {
            let w = BitSet64::from_bits(self.words[k]);
            if !w.is_empty() {
                let mut it = w.iter();
                proof {
                    lemma_bits64_finite(self.words[k as int]);
                }
                let t = it.next().unwrap();
                let m = 64 * k + t;
                proof {
                    assert(m / 64 == k);
                    assert(m % 64 == t);
                    assert forall|x: int| self@.contains(x) implies m <= x by {
                        if x / 64 == k {
                            assert(x % 64 >= t);
                        } else if x / 64 < k {
                        } else {
                            assert(x >= 64 * (k + 1));
                        }
                    }
                    lemma_set_min_unique(self@, m as int);
                }
                return m;
            }
            proof {
                assert forall|x: int| #[trigger] self@.contains(x) implies x >= 64 * (k + 1) by {
                    if x / 64 == k {
                        assert(bits64_set(self.words[k as int]).contains(x % 64));
                    }
                }
            }
            k += 1;
        }
        proof {
            assert forall|x: int| !self@.contains(x) by {
                lemma_words256_parts(self.words);
            }
            assert(self@ =~= Set::<int>::empty());
        }
        0
    }

    pub fn iter(&self) -> (r: BitSet256Iter)
        ensures
            r@ == self@,
    {
        BitSet256Iter { bitset: *self }
    }
}

/// Walks the elements of a `BitSet256` in increasing order.
#[derive(Clone, Copy, Debug)]
pub struct BitSet256Iter {
    bitset: BitSet256,
}

impl View for BitSet256Iter {
    type V = Set<int>;

    /// The elements not yet handed out.
    closed spec fn view(&self) -> Set<int> {
        self.bitset@
    }
}

impl BitSet256Iter {
    /// Hands out the least element not yet handed out.
    pub fn next(&mut self) -> (r: Option<usize>)
        ensures
            old(self)@ == Set::<int>::empty() ==> r is None && final(self)@ == old(self)@,
            old(self)@ != Set::<int>::empty() ==> r == Some(set_min(old(self)@) as usize)
                && is_least(old(self)@, set_min(old(self)@))
                && final(self)@ == old(self)@.remove(set_min(old(self)@)),
    {
        if self.bitset.is_empty() {
            None
        } else {
            let m = self.bitset.first();
            self.bitset.remove(m);
            Some(m)
        }
    }

    pub fn len(&self) -> (r: usize)
        ensures
            r == self@.len(),
    {
        self.bitset.len()
    }
}

} // verus!
