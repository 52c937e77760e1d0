//! Cycle types of the permutations that carry one line (a row, a column or the cells of
//! one value) of a Latin square to another.
use vstd::prelude::*;
use vstd::relations::{total_ordering, sorted_by};
use vstd::seq_lib::lemma_sorted_unique;
use crate::cycles::{lex_lt, seqs, lemma_lex_trichotomy, lemma_lex_transitive, lex_compare};
use crate::permutation::{Permutation, lens_of};
use crate::orbit::is_cycle_decomposition;
use crate::set_util::{index_of, lemma_perm_surjective};
use crate::latin_square::{LatinSquare, grid, lemma_grid};

verus! {

/// The order <= on numbers.
pub open spec fn num_le() -> spec_fn(usize, usize) -> bool {
    |a: usize, b: usize| a <= b
}

/// Lexicographic order on sequences of numbers, equal sequences included.
pub open spec fn lex_le() -> spec_fn(Seq<usize>, Seq<usize>) -> bool {
    |a: Seq<usize>, b: Seq<usize>| a == b || lex_lt(a, b)
}

pub proof fn lemma_num_le_total()
    ensures
        total_ordering(num_le()),
{
}

pub proof fn lemma_lex_le_total()
    ensures
        total_ordering(lex_le()),
{
    let r = lex_le();
    assert forall|x: Seq<usize>, y: Seq<usize>| #[trigger] r(x, y) && #[trigger] r(y, x) implies x == y by {
        lemma_lex_trichotomy(x, y);
    }
    assert forall|x: Seq<usize>, y: Seq<usize>, z: Seq<usize>| #[trigger] r(x, y) && #[trigger] r(y, z) implies r(x, z) by {
        if lex_lt(x, y) && lex_lt(y, z) {
            lemma_lex_transitive(x, y, z);
        }
    }
    assert forall|x: Seq<usize>, y: Seq<usize>| #[trigger] r(x, y) || #[trigger] r(y, x) by {
        lemma_lex_trichotomy(x, y);
    }
}

/// The numbers in increasing order.
pub fn sort_numbers(v: &Vec<usize>) -> (r: Vec<usize>)
    ensures
        r@ == v@.sort_by(num_le()),
{
    let mut out: Vec<usize> = Vec::new();
    let mut i: usize = 0;
    assert(out@ =~= v@.take(0));
    while i < v.len()
        invariant
            i <= v@.len(),
            sorted_by(out@, num_le()),
            out@.to_multiset() == v@.take(i as int).to_multiset(),
        decreases v@.len() - i,
    {
        let x = v[i];
        let mut p: usize = 0;
        while p < out.len() && out[p] <= x
            invariant
                p <= out@.len(),
                forall|q: int| 0 <= q < p ==> #[trigger] out@[q] <= x,
            decreases out@.len() - p,
        {
            p += 1;
        }
        let ghost before = out@;
        out.insert(p, x);
        proof {
            assert(out@ =~= before.insert(p as int, x));
            assert forall|a: int, b: int| 0 <= a < b < out@.len() implies #[trigger] num_le()(out@[a], out@[b]) by {
                if b < p {
                    assert(num_le()(before[a], before[b]));
                } else if b == p {
                    assert(out@[a] == before[a]);
                } else if a == p {
                    assert(out@[b] == before[b - 1]);
                    assert(before[p as int] > x);
                    if b - 1 > p {
                        assert(num_le()(before[p as int], before[b - 1]));
                    }
                } else if a < p {
                    assert(out@[a] == before[a] && out@[b] == before[b - 1]);
                    assert(before[a] <= x);
                    assert(before[p as int] > x);
                    if b - 1 > p {
                        assert(num_le()(before[p as int], before[b - 1]));
                    }
                } else {
                    assert(num_le()(before[a - 1], before[b - 1]));
                }
            }
            vstd::seq_lib::to_multiset_insert(before, p as int, x);
            assert(v@.take(i as int + 1) =~= v@.take(i as int).push(x));
            vstd::seq_lib::to_multiset_build(v@.take(i as int), x);
        }
        i += 1;
    }
    proof {
        assert(v@.take(v@.len() as int) =~= v@);
        lemma_num_le_total();
        v@.lemma_sort_by_ensures(num_le());
        lemma_sorted_unique(out@, v@.sort_by(num_le()), num_le());
    }
    out
}

/// The lists in lexicographic order.
pub fn sort_lists(v: Vec<Vec<usize>>) -> (r: Vec<Vec<usize>>)
    ensures
        seqs(r@) == seqs(v@).sort_by(lex_le()),
{
    let ghost s = seqs(v@);
    let mut out: Vec<Vec<usize>> = Vec::new();
    let mut rest = v;
    let mut i: usize = 0;
    let len = rest.len();
    proof {
        lemma_lex_le_total();
        assert(seqs(out@) =~= s.take(0));
    }
    while i < len
        invariant
            i <= len == s.len(),
            rest@.len() == len,
            forall|k: int| i <= k < len ==> #[trigger] rest@[k]@ == s[k],
            sorted_by(seqs(out@), lex_le()),
            total_ordering(lex_le()),
            seqs(out@).to_multiset() == s.take(i as int).to_multiset(),
        decreases len - i,
    {
        let mut x: Vec<usize> = Vec::new();
        std::mem::swap(&mut x, &mut rest[i]);
        assert(x@ == s[i as int]);
        let mut p: usize = 0;
        while p < out.len() && lex_compare(&out[p], &x) != 1
            invariant
                p <= out@.len(),
                forall|q: int| 0 <= q < p ==> #[trigger] lex_le()(out@[q]@, x@),
            decreases out@.len() - p,
        {
            p += 1;
        }
        let ghost before = seqs(out@);
        out.insert(p, x);
        proof {
            let now = seqs(out@);
            assert(now =~= before.insert(p as int, s[i as int]));
            if p < before.len() {
                assert(lex_lt(s[i as int], before[p as int]));
            }
            assert forall|a: int, b: int| 0 <= a < b < now.len() implies #[trigger] lex_le()(now[a], now[b]) by {
                let y = s[i as int];
                if b < p {
                    assert(lex_le()(before[a], before[b]));
                } else if b == p {
                    assert(now[a] == before[a]);
                    assert(lex_le()(out@[a]@, y));
                } else if a == p {
                    assert(now[b] == before[b - 1]);
                    lemma_lex_trichotomy(before[p as int], y);
                    if b - 1 > p {
                        assert(lex_le()(before[p as int], before[b - 1]));
                    }
                    assert(lex_le()(y, before[p as int]));
                    assert(lex_le()(y, before[b - 1]));
                } else if a < p {
                    assert(now[a] == before[a] && now[b] == before[b - 1]);
                    assert(lex_le()(before[a], y));
                    lemma_lex_trichotomy(before[p as int], y);
                    assert(lex_le()(y, before[p as int]));
                    if b - 1 > p {
                        assert(lex_le()(before[p as int], before[b - 1]));
                    }
                    assert(lex_le()(y, before[b - 1]));
                } else {
                    assert(lex_le()(before[a - 1], before[b - 1]));
                }
            }
            vstd::seq_lib::to_multiset_insert(before, p as int, s[i as int]);
            assert(s.take(i as int + 1) =~= s.take(i as int).push(s[i as int]));
            vstd::seq_lib::to_multiset_build(s.take(i as int), s[i as int]);
        }
        i += 1;
    }
    proof {
        assert(s.take(s.len() as int) =~= s);
        s.lemma_sort_by_ensures(lex_le());
        lemma_sorted_unique(seqs(out@), s.sort_by(lex_le()), lex_le());
    }
    out
}

/// `a` lists each of 0..n once.
pub open spec fn is_line(a: Seq<u8>, n: nat) -> bool {
    &&& a.len() == n
    &&& forall|j: int| 0 <= j < n ==> #[trigger] a[j] < n
    &&& forall|j: int, k: int| 0 <= j < n && 0 <= k < n && j != k ==> #[trigger] a[j] != #[trigger] a[k]
}

/// The position at which `a` holds `v`.
pub open spec fn position_of(a: Seq<u8>, v: int) -> int {
    choose|j: int| 0 <= j < a.len() && a[j] as int == v
}

/// The permutation that sends the value at each position of `a` to the value at the same
/// position of `b`.
pub open spec fn line_perm(a: Seq<u8>, b: Seq<u8>, n: nat) -> Seq<usize> {
    Seq::new(n, |v: int| b[position_of(a, v)] as usize)
}

/// A line holds each value at exactly one position.
pub proof fn lemma_position_of(a: Seq<u8>, n: nat)
    requires
        is_line(a, n),
    ensures
        forall|v: int| 0 <= v < n ==> 0 <= #[trigger] position_of(a, v) < n && a[position_of(a, v)] as int == v,
        forall|j: int| 0 <= j < n ==> #[trigger] position_of(a, a[j] as int) == j,
{
    let t = a.map_values(|x: u8| x as usize);
    assert forall|j: int, k: int| 0 <= j < n && 0 <= k < n && j != k implies #[trigger] t[j] != #[trigger] t[k] by {
        assert(a[j] != a[k]);
    }
    assert forall|j: int| 0 <= j < n implies #[trigger] t[j] < n by {
        assert(a[j] < n);
    }
    lemma_perm_surjective(t, n);
    assert forall|v: int| 0 <= v < n implies 0 <= #[trigger] position_of(a, v) < n && a[position_of(a, v)] as int == v by {
        let j = index_of(t, v);
        assert(a[j] as int == v);
    }
    assert forall|j: int| 0 <= j < n implies #[trigger] position_of(a, a[j] as int) == j by {
        let k = position_of(a, a[j] as int);
        assert(0 <= k < n && a[k] == a[j]);
    }
}

/// The permutation that carries line `a` to line `b`.
pub fn line_permutation<const N: usize>(a: &[u8; N], b: &[u8; N]) -> (r: Permutation<N>)
    requires
        is_line(a@, N as nat),
        is_line(b@, N as nat),
    ensures
        r@ == line_perm(a@, b@, N as nat),
{
    proof {
        lemma_position_of(a@, N as nat);
    }
    let mut pos = [0usize; N];
    let mut j: usize = 0;
    while j < N
        invariant
            j <= N,
            is_line(a@, N as nat),
            forall|k: int| 0 <= k < j ==> #[trigger] pos@[a@[k] as int] == k,
        decreases N - j,
    {
        let ghost before = pos;
        pos[a[j] as usize] = j;
        proof {
            assert forall|k: int| 0 <= k < j + 1 implies #[trigger] pos@[a@[k] as int] == k by {
                if k < j {
                    assert(a@[k] != a@[j as int]);
                    assert(pos@[a@[k] as int] == before@[a@[k] as int]);
                }
            }
        }
        j += 1;
    }
    proof {
        assert forall|v: int| 0 <= v < N implies #[trigger] pos@[v] == position_of(a@, v) by {
            let k = position_of(a@, v);
            assert(pos@[a@[k] as int] == k);
        }
    }
    let mut perm = [0usize; N];
    let mut v: usize = 0;
    while v < N
        invariant
            v <= N,
            is_line(a@, N as nat),
            is_line(b@, N as nat),
            forall|w: int| 0 <= w < N ==> #[trigger] pos@[w] == position_of(a@, w) && 0 <= position_of(a@, w) < N,
            forall|w: int| 0 <= w < v ==> #[trigger] perm@[w] == line_perm(a@, b@, N as nat)[w],
        decreases N - v,
    {
        assert(pos@[v as int] < N);
        perm[v] = b[pos[v]] as usize;
        v += 1;
    }
    proof {
        assert(perm@ =~= line_perm(a@, b@, N as nat));
        assert forall|x: int, y: int| 0 <= x < N && 0 <= y < N && x != y implies #[trigger] perm@[x] != #[trigger] perm@[y] by {
            let px = position_of(a@, x);
            let py = position_of(a@, y);
            assert(a@[px] as int == x && a@[py] as int == y);
            assert(px != py);
            assert(b@[px] != b@[py]);
        }
        assert forall|x: int| 0 <= x < N implies #[trigger] perm@[x] < N by {
            assert(b@[position_of(a@, x)] < N);
        }
    }
    Permutation::from_array(perm)
}

/// `t` lists the cycle lengths of `p` in increasing order.
pub open spec fn is_cycle_type(p: Seq<usize>, n: nat, t: Seq<usize>) -> bool {
    exists|cs: Seq<Seq<usize>>| is_cycle_decomposition(p, n, cs) && t == lens_of(cs).sort_by(num_le())
}

/// The cycle lengths of the permutation in increasing order.
pub fn cycle_type<const N: usize>(p: &Permutation<N>) -> (r: Vec<usize>)
    ensures
        is_cycle_type(p@, N as nat, r@),
{
    let lens = p.cycle_lengths();
    let r = sort_numbers(&lens);
    proof {
        let cs = choose|cs: Seq<Seq<usize>>| is_cycle_decomposition(p@, N as nat, cs) && lens@ == lens_of(cs);
        assert(is_cycle_decomposition(p@, N as nat, cs) && r@ == lens_of(cs).sort_by(num_le()));
    }
    r
}

/// The pairs (a, b) with a < b < n, by b and then by a.
pub open spec fn pairs_below(n: nat) -> Seq<(int, int)>
    decreases n,
{
    if n == 0 {
        Seq::empty()
    } else {
        pairs_below((n - 1) as nat) + Seq::new((n - 1) as nat, |a: int| (a, n - 1))
    }
}

/// The pairs below n followed by the pairs (a, n) with a < n.
pub open spec fn pairs_through(n: nat) -> Seq<(int, int)> {
    pairs_below(n) + Seq::new(n, |a: int| (a, n as int))
}

/// `t` is the cycle type of the permutation from line `pair.0` to line `pair.1`.
pub open spec fn is_pair_type(lines: Seq<Seq<u8>>, n: nat, pair: (int, int), t: Seq<usize>) -> bool {
    is_cycle_type(line_perm(lines[pair.0], lines[pair.1], n), n, t)
}

/// `types` lists, pair by pair, the cycle types of the permutations between two lines.
pub open spec fn are_pair_types(lines: Seq<Seq<u8>>, n: nat, types: Seq<Seq<usize>>) -> bool {
    &&& types.len() == pairs_below(n).len()
    &&& forall|m: int| 0 <= m < types.len() ==> #[trigger] is_pair_type(lines, n, pairs_below(n)[m], types[m])
}

/// The cycle types of the permutations between any two of the lines, in lexicographic order.
pub fn line_cycle_types<const N: usize>(lines: &[[u8; N]; N]) -> (r: Vec<Vec<usize>>)
    requires
        forall|i: int| 0 <= i < N ==> #[trigger] is_line(lines@[i]@, N as nat),
    ensures
        exists|types: Seq<Seq<usize>>| are_pair_types(grid(*lines), N as nat, types) && seqs(r@) == types.sort_by(lex_le()),
{
    let ghost g = grid(*lines);
    let mut types: Vec<Vec<usize>> = Vec::new();
    let mut b: usize = 0;
    assert(seqs(types@) =~= Seq::<Seq<usize>>::empty());
    while b < N
        invariant
            b <= N,
            g == grid(*lines),
            forall|i: int| 0 <= i < N ==> #[trigger] is_line(lines@[i]@, N as nat),
            types@.len() == pairs_below(b as nat).len(),
            forall|m: int| 0 <= m < types@.len() ==> #[trigger] is_pair_type(g, N as nat, pairs_below(b as nat)[m], types@[m]@),
        decreases N - b,
    {
        let ghost base = pairs_below(b as nat);
        let mut a: usize = 0;
        while a < b
            invariant
                a <= b < N,
                g == grid(*lines),
                base == pairs_below(b as nat),
                forall|i: int| 0 <= i < N ==> #[trigger] is_line(lines@[i]@, N as nat),
                types@.len() == base.len() + a,
                forall|m: int| 0 <= m < types@.len() ==> #[trigger] is_pair_type(g, N as nat, pairs_through(b as nat)[m], types@[m]@),
            decreases b - a,
        {
            assert(is_line(lines@[a as int]@, N as nat));
            assert(is_line(lines@[b as int]@, N as nat));
            let p = line_permutation(&lines[a], &lines[b]);
            let t = cycle_type(&p);
            let ghost before = types@;
            types.push(t);
            proof {
                let ext = pairs_through(b as nat);
                assert forall|m: int| 0 <= m < types@.len() implies #[trigger] is_pair_type(g, N as nat, ext[m], types@[m]@) by {
                    if m < before.len() {
                        assert(types@[m] == before[m]);
                    } else {
                        assert(ext[m] == (a as int, b as int));
                        assert(g[a as int] == lines@[a as int]@);
                        assert(g[b as int] == lines@[b as int]@);
                    }
                }
            }
            a += 1;
        }
        proof {
            assert(pairs_below((b + 1) as nat) == pairs_through(b as nat));
        }
        b += 1;
    }
    let ghost unsorted = seqs(types@);
    let r = sort_lists(types);
    proof {
        assert(are_pair_types(g, N as nat, unsorted)) by {
            assert forall|m: int| 0 <= m < unsorted.len() implies #[trigger] is_pair_type(g, N as nat, pairs_below(N as nat)[m], unsorted[m]) by {
                assert(unsorted[m] == types@[m]@);
            }
        }
    }
    r
}

/// The columns of the square, each read top to bottom.
pub open spec fn columns(s: Seq<Seq<u8>>, n: nat) -> Seq<Seq<u8>> {
    Seq::new(n, |j: int| Seq::new(n, |i: int| s[i][j]))
}

/// For each value, the columns in which it stands, row by row.
pub open spec fn value_lines(s: Seq<Seq<u8>>, n: nat) -> Seq<Seq<u8>> {
    Seq::new(n, |v: int| Seq::new(n, |i: int| position_of(s[i], v) as u8))
}

impl<const N: usize> LatinSquare<N> {
    /// The cycle types of the permutations between any two rows, in lexicographic order.
    pub fn row_cycles(&self) -> (r: Vec<Vec<usize>>)
        ensures
            exists|types: Seq<Seq<usize>>| are_pair_types(self@, N as nat, types) && seqs(r@) == types.sort_by(lex_le()),
    {
        proof {
            use_type_invariant(self);
            Self::lemma_latin(self);
        }
        let lines = self.values();
        proof {
            lemma_grid(*lines);
            assert forall|i: int| 0 <= i < N implies #[trigger] is_line(lines@[i]@, N as nat) by {
                assert(lines@[i]@ == self@[i]);
            }
        }
        line_cycle_types(lines)
    }

    /// The cycle types of the permutations between any two columns, in lexicographic order.
    pub fn col_cycles(&self) -> (r: Vec<Vec<usize>>)
        ensures
            exists|types: Seq<Seq<usize>>| are_pair_types(columns(self@, N as nat), N as nat, types)
                && seqs(r@) == types.sort_by(lex_le()),
    {
        proof {
            use_type_invariant(self);
            Self::lemma_latin(self);
        }
        let mut lines = [[0u8; N]; N];
        let mut j: usize = 0;
        while j < N
            invariant
                j <= N,
                forall|k: int| 0 <= k < j ==> #[trigger] lines@[k]@ == columns(self@, N as nat)[k],
            decreases N - j,
        {
            let col = self.get_col(j);
            lines[j] = col;
            proof {
                assert(col@ =~= columns(self@, N as nat)[j as int]);
            }
            j += 1;
        }
        proof {
            lemma_grid(lines);
            assert(grid(lines) =~= columns(self@, N as nat));
            assert forall|i: int| 0 <= i < N implies #[trigger] is_line(lines@[i]@, N as nat) by {
                assert(lines@[i]@ == columns(self@, N as nat)[i]);
                assert forall|a: int, b: int| 0 <= a < N && 0 <= b < N && a != b implies #[trigger] lines@[i]@[a] != #[trigger] lines@[i]@[b] by {
                    assert(self@[a][i] != self@[b][i]);
                }
            }
        }
        line_cycle_types(&lines)
    }

    /// The cycle types of the permutations between the cells of any two values, in
    /// lexicographic order.
    pub fn val_cycles(&self) -> (r: Vec<Vec<usize>>)
        ensures
            exists|types: Seq<Seq<usize>>| are_pair_types(value_lines(self@, N as nat), N as nat, types)
                && seqs(r@) == types.sort_by(lex_le()),
    {
        proof {
            use_type_invariant(self);
            Self::lemma_latin(self);
            assert forall|i: int| 0 <= i < N implies #[trigger] is_line(self@[i], N as nat) by {}
        }
        let mut lines = [[0u8; N]; N];
        let mut v: usize = 0;
        while v < N
            invariant
                v <= N,
                N <= 256,
                forall|i: int| 0 <= i < N ==> #[trigger] is_line(self@[i], N as nat),
                forall|k: int| 0 <= k < v ==> #[trigger] lines@[k]@ == value_lines(self@, N as nat)[k],
            decreases N - v,
        {
            let line = self.get_val(v);
            lines[v] = line;
            proof {
                assert forall|i: int| 0 <= i < N implies #[trigger] line@[i] == value_lines(self@, N as nat)[v as int][i] by {
                    lemma_position_of(self@[i], N as nat);
                    assert(self@[i][line@[i] as int] == v);
                    assert(position_of(self@[i], self@[i][line@[i] as int] as int) == line@[i] as int);
                }
                assert(line@ =~= value_lines(self@, N as nat)[v as int]);
            }
            v += 1;
        }
        proof {
            lemma_grid(lines);
            assert(grid(lines) =~= value_lines(self@, N as nat));
            assert forall|w: int| 0 <= w < N implies #[trigger] is_line(lines@[w]@, N as nat) by {
                assert(lines@[w]@ == value_lines(self@, N as nat)[w]);
                assert forall|a: int| 0 <= a < N implies #[trigger] lines@[w]@[a] < N by {
                    lemma_position_of(self@[a], N as nat);
                }
                assert forall|a: int, b: int| 0 <= a < N && 0 <= b < N && a != b implies #[trigger] lines@[w]@[a] != #[trigger] lines@[w]@[b] by {
                    lemma_position_of(self@[a], N as nat);
                    lemma_position_of(self@[b], N as nat);
                    let ca = position_of(self@[a], w);
                    let cb = position_of(self@[b], w);
                    if ca == cb {
                        assert(self@[a][ca] == self@[b][ca]);
                    }
                }
            }
        }
        line_cycle_types(&lines)
    }
}

} // verus!
