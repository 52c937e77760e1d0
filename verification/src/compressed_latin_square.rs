//! Latin squares stored as the ranks of their rows among all permutations.
use vstd::prelude::*;
use crate::set_util::identity_seq;
use crate::permutation::{fact, factorial, lemma_fact_pos, lemma_fact_mono, lemma_fact_12};
use crate::permutation_dyn::unrank;
use crate::latin_square::{LatinSquare, grid, is_latin, lemma_grid, row_has};

verus! {

/// `s` holds the elements of `left`, each once.
pub open spec fn is_arrangement_of(s: Seq<usize>, left: Seq<usize>) -> bool {
    &&& s.len() == left.len()
    &&& s.no_duplicates()
    &&& left.no_duplicates()
    &&& forall|x: usize| #[trigger] s.contains(x) <==> left.contains(x)
}

/// The position of `x` in `left`.
pub open spec fn position_in(left: Seq<usize>, x: usize) -> int {
    choose|k: int| 0 <= k < left.len() && left[k] == x
}

/// The rank of the arrangement `s` of `left`: arrangements are ranked in lexicographic
/// order of the positions they take from `left`.
pub open spec fn rank_in(s: Seq<usize>, left: Seq<usize>) -> nat
    decreases s.len(),
{
    if s.len() == 0 || left.len() == 0 {
        0
    } else {
        let d = position_in(left, s[0]);
        if 0 <= d < left.len() {
            (d * fact((left.len() - 1) as nat) + rank_in(s.drop_first(), left.remove(d))) as nat
        } else {
            0
        }
    }
}

/// The bytes as numbers.
pub open spec fn widen(s: Seq<u8>) -> Seq<usize> {
    s.map_values(|x: u8| x as usize)
}

proof fn lemma_remove_at(s: Seq<usize>, d: int)
    requires
        0 <= d < s.len(),
        s.no_duplicates(),
    ensures
        s.remove(d).len() == s.len() - 1,
        s.remove(d).no_duplicates(),
        forall|x: usize| #[trigger] s.remove(d).contains(x) <==> (s.contains(x) && x != s[d]),
{
    let r = s.remove(d);
    assert forall|i: int| 0 <= i < r.len() implies #[trigger] r[i] == (if i < d { s[i] } else { s[i + 1] }) by {}
    assert forall|i: int, j: int| 0 <= i < r.len() && 0 <= j < r.len() && i != j implies r[i] != r[j] by {
        let a = if i < d { i } else { i + 1 };
        let b = if j < d { j } else { j + 1 };
        assert(r[i] == s[a] && r[j] == s[b]);
    }
    assert forall|x: usize| #[trigger] r.contains(x) <==> (s.contains(x) && x != s[d]) by {
        if r.contains(x) {
            let i = choose|i: int| 0 <= i < r.len() && r[i] == x;
            let a = if i < d { i } else { i + 1 };
            assert(s[a] == x);
            assert(a != d);
        }
        if s.contains(x) && x != s[d] {
            let a = choose|a: int| 0 <= a < s.len() && s[a] == x;
            assert(a != d);
            if a < d {
                assert(r[a] == x);
            } else {
                assert(r[a - 1] == x);
            }
        }
    }
}

proof fn lemma_position(left: Seq<usize>, k: int)
    requires
        left.no_duplicates(),
        0 <= k < left.len(),
    ensures
        position_in(left, left[k]) == k,
{
    let p = position_in(left, left[k]);
    assert(0 <= p < left.len() && left[p] == left[k]);
}

proof fn lemma_digits(d: nat, r: nat, f: nat)
    requires
        f >= 1,
        r < f,
    ensures
        (d * f + r) / f == d,
        (d * f + r) % f == r,
{
    vstd::arithmetic::div_mod::lemma_fundamental_div_mod_converse((d * f + r) as int, f as int, d as int, r as int);
}

/// Ranking an arrangement and unranking the rank gives the arrangement back, and ranks
/// are below the number of arrangements.
pub proof fn lemma_unrank_rank(s: Seq<usize>, left: Seq<usize>)
    requires
        is_arrangement_of(s, left),
    ensures
        rank_in(s, left) < fact(left.len()),
        unrank(rank_in(s, left), left) == s,
    decreases s.len(),
{
    if s.len() == 0 {
        assert(unrank(0, left) =~= s);
    } else {
        let m = left.len();
        let f = fact((m - 1) as nat);
        lemma_fact_pos((m - 1) as nat);
        assert(s.contains(s[0]));
        let d = position_in(left, s[0]);
        assert(0 <= d < m && left[d] == s[0]);
        let rest = s.drop_first();
        let lrest = left.remove(d);
        lemma_remove_at(left, d);
        assert forall|i: int, j: int| 0 <= i < rest.len() && 0 <= j < rest.len() && i != j implies rest[i] != rest[j] by {
            assert(rest[i] == s[i + 1] && rest[j] == s[j + 1]);
        }
        assert forall|x: usize| #[trigger] rest.contains(x) <==> lrest.contains(x) by {
            if rest.contains(x) {
                let i = choose|i: int| 0 <= i < rest.len() && rest[i] == x;
                assert(s[i + 1] == x);
                assert(s.contains(x));
                assert(x != s[0]);
            }
            if lrest.contains(x) {
                assert(left.contains(x) && x != left[d]);
                assert(s.contains(x));
                let i = choose|i: int| 0 <= i < s.len() && s[i] == x;
                assert(i != 0);
                assert(rest[i - 1] == x);
            }
        }
        lemma_unrank_rank(rest, lrest);
        let r = rank_in(rest, lrest);
        assert(rank_in(s, left) == d * f + r);
        assert(d * f + r < m * f) by (nonlinear_arith)
            requires
                0 <= d < m,
                r < f,
        ;
        assert(fact(m) == m * f);
        lemma_digits(d as nat, r, f);
        assert(unrank(rank_in(s, left), left) == seq![left[d]] + unrank(r, lrest));
        assert(unrank(rank_in(s, left), left) =~= s);
    }
}

/// Unranking a rank and ranking the arrangement gives the rank back.
pub proof fn lemma_rank_unrank(r: nat, left: Seq<usize>)
    requires
        r < fact(left.len()),
        left.no_duplicates(),
    ensures
        rank_in(unrank(r, left), left) == r,
    decreases left.len(),
{
    if left.len() == 0 {
        assert(fact(0) == 1);
    } else {
        let m = left.len();
        let f = fact((m - 1) as nat);
        lemma_fact_pos((m - 1) as nat);
        assert(fact(m) == m * f);
        assert(r / f < m) by (nonlinear_arith)
            requires
                f >= 1,
                r < m * f,
        ;
        let d = (r / f) as int;
        let lrest = left.remove(d);
        lemma_remove_at(left, d);
        assert(r % f < f) by (nonlinear_arith)
            requires
                f >= 1,
        ;
        lemma_rank_unrank(r % f, lrest);
        let s = unrank(r, left);
        assert(s == seq![left[d]] + unrank(r % f, lrest));
        lemma_position(left, d);
        assert(s[0] == left[d]);
        assert(s.drop_first() =~= unrank(r % f, lrest));
        vstd::arithmetic::div_mod::lemma_fundamental_div_mod(r as int, f as int);
        assert(rank_in(s, left) == d * f + (r % f));
        assert(d * f == f * d) by (nonlinear_arith);
    }
}

/// The rank of a permutation of 0..len among all permutations of 0..len in lexicographic order.
pub fn rank_of_permutation(elements: &[u8]) -> (r: u32)
    requires
        elements@.len() <= 12,
        is_arrangement_of(widen(elements@), identity_seq(elements@.len())),
    ensures
        r == rank_in(widen(elements@), identity_seq(elements@.len())),
{
    let len = elements.len();
    let ghost s = widen(elements@);
    let ghost id = identity_seq(len as nat);
    proof {
        lemma_unrank_rank(s, id);
        lemma_fact_mono(len as nat, 12);
        lemma_fact_12();
    }
    let mut elements_left: Vec<u8> = Vec::new();
    let mut k: usize = 0;
    while k < len
        invariant
            k <= len <= 12,
            widen(elements_left@) == identity_seq(k as nat),
            elements_left@.len() == k,
        decreases len - k,
    {
        let ghost before = elements_left@;
        elements_left.push(k as u8);
        k += 1;
        assert forall|j: int| 0 <= j < k implies #[trigger] widen(elements_left@)[j] == identity_seq(k as nat)[j] by {
            if j < k - 1 {
                assert(elements_left@[j] == before[j]);
                assert(widen(before)[j] == j);
            }
        }
        assert(widen(elements_left@) =~= identity_seq(k as nat));
    }
    let mut rank: usize = 0;
    let mut i: usize = 0;
    assert(s.skip(0) =~= s);
    while i < len
        invariant
            i <= len <= 12,
            len == elements@.len(),
            s.len() == len,
            elements_left@.len() == len - i,
            s == widen(elements@),
            id == identity_seq(len as nat),
            rank_in(s, id) < fact(len as nat),
            fact(len as nat) <= 479001600,
            is_arrangement_of(s.skip(i as int), widen(elements_left@)),
            rank + rank_in(s.skip(i as int), widen(elements_left@)) == rank_in(s, id),
        decreases len - i,
    {
        let element = elements[i];
        let ghost rest = s.skip(i as int);
        let ghost left = widen(elements_left@);
        proof {
            assert(rest[0] == element as usize);
            assert(rest.contains(rest[0]));
            assert(left.contains(element as usize));
        }
        let mut index: usize = 0;
        while elements_left[index] != element
            invariant
                index < elements_left@.len() <= 12,
                left == widen(elements_left@),
                left.contains(element as usize),
                forall|m: int| 0 <= m < index ==> elements_left@[m] != element,
            decreases elements_left@.len() - index,
        {
            index += 1;
            if index == elements_left.len() {
                proof {
                    let w = choose|w: int| 0 <= w < left.len() && left[w] == element as usize;
                    assert(elements_left@[w] == element);
                    assert(false);
                }
            }
        }
        proof {
            assert(left[index as int] == element as usize);
            lemma_position(left, index as int);
            lemma_fact_mono((len - i - 1) as nat, len as nat);
            assert(left.len() == len - i);
            assert(rank_in(rest, left) == index * fact((left.len() - 1) as nat) + rank_in(rest.drop_first(), left.remove(index as int)));
            assert(rest.drop_first() =~= s.skip(i as int + 1));
            lemma_remove_at(left, index as int);
        }
        let fac = factorial(len - i - 1);
        elements_left.remove(index);
        proof {
            assert(widen(elements_left@) =~= left.remove(index as int));
            let rest2 = s.skip(i as int + 1);
            let left2 = left.remove(index as int);
            assert forall|a: int, b: int| 0 <= a < rest2.len() && 0 <= b < rest2.len() && a != b implies rest2[a] != rest2[b] by {
                assert(rest2[a] == rest[a + 1] && rest2[b] == rest[b + 1]);
            }
            assert forall|x: usize| #[trigger] rest2.contains(x) <==> left2.contains(x) by {
                if rest2.contains(x) {
                    let a = choose|a: int| 0 <= a < rest2.len() && rest2[a] == x;
                    assert(rest[a + 1] == x);
                    assert(rest.contains(x));
                    assert(x != rest[0]);
                }
                if left2.contains(x) {
                    assert(rest.contains(x));
                    let a = choose|a: int| 0 <= a < rest.len() && rest[a] == x;
                    assert(a != 0);
                    assert(rest2[a - 1] == x);
                }
            }
            assert(fac == fact((left.len() - 1) as nat));
            assert(rest.drop_first() == rest2);
            assert(rank + index * fac + rank_in(rest2, left2) == rank_in(s, id));
            assert(index * fac <= rank_in(s, id)) by (nonlinear_arith)
                requires
                    rank + index * fac + rank_in(rest2, left2) == rank_in(s, id),
                    rank >= 0,
                    rank_in(rest2, left2) >= 0,
            ;
        }
        rank = rank + index * fac;
        i += 1;
    }
    proof {
        assert(s.skip(len as int).len() == 0);
    }
    rank as u32
}

/// The permutation of 0..N with the given rank in lexicographic order.
pub fn permutation_from_rank<const N: usize>(rank: u32) -> (r: [u8; N])
    requires
        N <= 12,
        rank < fact(N as nat),
    ensures
        widen(r@) == unrank(rank as nat, identity_seq(N as nat)),
{
    let ghost r0 = rank as nat;
    let mut rank = rank;
    let mut permutation = [0u8; N];
    let mut elements_left: Vec<u8> = Vec::new();
    let mut k: usize = 0;
    while k < N
        invariant
            k <= N <= 12,
            widen(elements_left@) == identity_seq(k as nat),
            elements_left@.len() == k,
        decreases N - k,
    {
        let ghost before = elements_left@;
        elements_left.push(k as u8);
        k += 1;
        assert forall|j: int| 0 <= j < k implies #[trigger] widen(elements_left@)[j] == identity_seq(k as nat)[j] by {
            if j < k - 1 {
                assert(elements_left@[j] == before[j]);
                assert(widen(before)[j] == j);
            }
        }
        assert(widen(elements_left@) =~= identity_seq(k as nat));
    }
    proof {
        lemma_fact_mono(N as nat, 12);
        lemma_fact_12();
    }
    let mut k: usize = 0;
    while k < N
        invariant
            k <= N <= 12,
            fact(N as nat) <= 479001600,
            elements_left@.len() == N - k,
            k < N ==> rank < fact((N - k) as nat),
            widen(permutation@.take(k as int)) + unrank(rank as nat, widen(elements_left@)) == unrank(r0, identity_seq(N as nat)),
        decreases N - k,
    {
        let ghost left = widen(elements_left@);
        let ghost prefix = widen(permutation@.take(k as int));
        proof {
            lemma_fact_mono((N - k - 1) as nat, N as nat);
            lemma_fact_pos((N - k - 1) as nat);
            let m = (N - k) as nat;
            let f = fact((m - 1) as nat);
            assert(fact(m) == m * f);
            let rk = rank as nat;
            assert(rk / f < m) by (nonlinear_arith)
                requires
                    f >= 1,
                    rk < m * f,
            ;
        }
        let fac = factorial(N - k - 1);
        let d = rank as usize / fac;
        let v = elements_left[d];
        permutation[k] = v;
        elements_left.remove(d);
        proof {
            assert(widen(elements_left@) =~= left.remove(d as int));
            assert(unrank(rank as nat, left) == seq![left[d as int]] + unrank((rank as nat) % (fac as nat), left.remove(d as int)));
            assert(widen(permutation@.take(k as int + 1)) =~= prefix.push(v as usize));
            assert(prefix.push(v as usize) + unrank((rank as nat) % (fac as nat), left.remove(d as int))
                =~= prefix + (seq![left[d as int]] + unrank((rank as nat) % (fac as nat), left.remove(d as int))));
            assert((rank as nat) % (fac as nat) < fac) by (nonlinear_arith)
                requires
                    fac >= 1,
            ;
        }
        rank = rank % (fac as u32);
        k += 1;
    }
    proof {
        assert(permutation@.take(N as int) =~= permutation@);
        assert(unrank(rank as nat, widen(elements_left@)) =~= Seq::<usize>::empty());
    }
    permutation
}

/// The numbers as bytes.
pub open spec fn narrow(s: Seq<usize>) -> Seq<u8> {
    s.map_values(|x: usize| x as u8)
}

/// A row of a Latin square of order n is an arrangement of 0..n.
pub proof fn lemma_row_is_arrangement(l: Seq<Seq<u8>>, n: nat, i: int)
    requires
        is_latin(l, n),
        n <= 256,
        0 <= i < n,
        forall|a: int, b: int, c: int| 0 <= a < n && 0 <= b < n && 0 <= c < n && b != c ==> #[trigger] l[a][b] != #[trigger] l[a][c],
    ensures
        is_arrangement_of(widen(l[i]), identity_seq(n)),
{
    let w = widen(l[i]);
    let id = identity_seq(n);
    assert forall|a: int, b: int| 0 <= a < w.len() && 0 <= b < w.len() && a != b implies w[a] != w[b] by {
        assert(l[i][a] != l[i][b]);
    }
    assert forall|a: int, b: int| 0 <= a < id.len() && 0 <= b < id.len() && a != b implies id[a] != id[b] by {}
    assert forall|x: usize| #[trigger] w.contains(x) <==> id.contains(x) by {
        if w.contains(x) {
            let a = choose|a: int| 0 <= a < w.len() && w[a] == x;
            assert(l[i][a] < n);
            assert(id[x as int] == x);
        }
        if id.contains(x) {
            let a = choose|a: int| 0 <= a < id.len() && id[a] == x;
            assert(row_has(l, i, x as int));
            let b = choose|b: int| 0 <= b < l[i].len() && l[i][b] as int == x as int;
            assert(w[b] == x);
        }
    }
}

/// A Latin square of order N stored as the rank of each row.
#[derive(Clone, Copy, PartialEq, Eq, Hash, Debug)]
pub struct CompressedLatinSquare<const N: usize> {
    pub values: [u32; N],
}

impl<const N: usize> CompressedLatinSquare<N> {
    /// The rows that the ranks stand for.
    pub open spec fn decoded(&self) -> Seq<Seq<usize>> {
        Seq::new(N as nat, |i: int| unrank(self.values@[i] as nat, identity_seq(N as nat)))
    }

    /// Stores each row of `sq` as its rank.
    pub fn from_latin_square(sq: LatinSquare<N>) -> (r: Self)
        requires
            N <= 12,
        ensures
            forall|i: int| 0 <= i < N ==> #[trigger] r.values@[i] < fact(N as nat),
            forall|i: int| 0 <= i < N ==> #[trigger] r.decoded()[i] == widen(sq@[i]),
    {
        proof {
            use_type_invariant(&sq);
            LatinSquare::<N>::lemma_latin(&sq);
        }
        let mut ranks = [0u32; N];
        let mut i: usize = 0;
        while i < N
            invariant
                i <= N <= 12,
                is_latin(sq@, N as nat),
                forall|a: int, b: int, c: int| 0 <= a < N && 0 <= b < N && 0 <= c < N && b != c ==> #[trigger] sq@[a][b] != #[trigger] sq@[a][c],
                forall|k: int| 0 <= k < i ==> #[trigger] ranks@[k] == rank_in(widen(sq@[k]), identity_seq(N as nat)),
            decreases N - i,
        {
            let row = sq.get_row(i);
            proof {
                lemma_row_is_arrangement(sq@, N as nat, i as int);
                assert(row@ == sq@[i as int]);
            }
            let rank = rank_of_permutation(row.as_slice());
            ranks[i] = rank;
            i += 1;
        }
        let r = CompressedLatinSquare { values: ranks };
        proof {
            assert forall|k: int| 0 <= k < N implies #[trigger] r.values@[k] < fact(N as nat) && r.decoded()[k] == widen(sq@[k]) by {
                lemma_row_is_arrangement(sq@, N as nat, k);
                lemma_unrank_rank(widen(sq@[k]), identity_seq(N as nat));
            }
        }
        r
    }

    /// The Latin square whose rows have the stored ranks.
    pub fn to_latin_square(self) -> (r: LatinSquare<N>)
        requires
            N <= 12,
            forall|i: int| 0 <= i < N ==> #[trigger] self.values@[i] < fact(N as nat),
            is_latin(Seq::new(N as nat, |i: int| narrow(self.decoded()[i])), N as nat),
        ensures
            forall|i: int| 0 <= i < N ==> #[trigger] widen(r@[i]) == self.decoded()[i],
    {
        let mut values = [[0u8; N]; N];
        let mut i: usize = 0;
        while i < N
            invariant
                i <= N <= 12,
                forall|k: int| 0 <= k < N ==> #[trigger] self.values@[k] < fact(N as nat),
                forall|k: int| 0 <= k < i ==> #[trigger] widen(values@[k]@) == self.decoded()[k],
            decreases N - i,
        {
            values[i] = permutation_from_rank::<N>(self.values[i]);
            i += 1;
        }
        proof {
            lemma_grid(values);
            let target = Seq::new(N as nat, |i: int| narrow(self.decoded()[i]));
            assert forall|k: int| 0 <= k < N implies #[trigger] grid(values)[k] =~= target[k] by {
                assert(widen(values@[k]@) == self.decoded()[k]);
                assert forall|j: int| 0 <= j < N implies grid(values)[k][j] == target[k][j] by {
                    assert(widen(values@[k]@)[j] == values@[k]@[j] as usize);
                }
            }
            assert(grid(values) =~= target);
        }
        LatinSquare::new(values)
    }
}

/// Storing a Latin square by the ranks of its rows and reading it back gives the square.
pub proof fn lemma_compression_round_trip<const N: usize>(sq: LatinSquare<N>, c: CompressedLatinSquare<N>, back: LatinSquare<N>)
    requires
        N <= 12,
        is_latin(sq@, N as nat),
        forall|i: int| 0 <= i < N ==> #[trigger] c.decoded()[i] == widen(sq@[i]),
        forall|i: int| 0 <= i < N ==> #[trigger] widen(back@[i]) == c.decoded()[i],
        is_latin(back@, N as nat),
    ensures
        is_latin(Seq::new(N as nat, |i: int| narrow(c.decoded()[i])), N as nat),
        back@ == sq@,
{
    let target = Seq::new(N as nat, |i: int| narrow(c.decoded()[i]));
    assert forall|k: int| 0 <= k < N implies #[trigger] target[k] =~= sq@[k] by {
        assert forall|j: int| 0 <= j < N implies target[k][j] == sq@[k][j] by {
            assert(c.decoded()[k][j] == sq@[k][j] as usize);
        }
    }
    assert(target =~= sq@);
    assert forall|k: int| 0 <= k < N implies #[trigger] back@[k] =~= sq@[k] by {
        assert forall|j: int| 0 <= j < N implies back@[k][j] == sq@[k][j] by {
            assert(widen(back@[k])[j] == widen(sq@[k])[j]);
        }
    }
    assert(back@ =~= sq@);
}

} // verus!
