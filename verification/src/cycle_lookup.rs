//! The table of row-pair normalisations: for each cycle type, the renamings of the values
//! (with the matching column orders) that keep the canonical pair of rows of that type in
//! canonical form.
use vstd::prelude::*;
use crate::cycles::{generate_cycle_structures, is_cycle_type, seqs, seq_sum, lemma_sum_concat, lex_lt, strictly_sorted, lex_compare, lemma_lex_trichotomy, lemma_lex_transitive};
use crate::orbit::pow_apply;
use crate::permutation::Permutation;
use crate::set_util::is_perm;

verus! {

/// The pair as one list: the renaming of the values, then the column order.
pub open spec fn pair_key<const N: usize>(e: (Permutation<N>, Permutation<N>)) -> Seq<usize> {
    e.0@ + e.1@
}

/// The keys of a list of pairs.
pub open spec fn pair_keys<const N: usize>(l: Seq<(Permutation<N>, Permutation<N>)>) -> Seq<Seq<usize>> {
    l.map_values(|e: (Permutation<N>, Permutation<N>)| pair_key(e))
}

/// `c` undoes `s`.
pub open spec fn undoes(s: Seq<usize>, c: Seq<usize>, n: nat) -> bool {
    forall|i: int| 0 <= i < n ==> #[trigger] c[s[i] as int] == i
}

/// Whether the array lists each of 0..N once.
fn is_permutation_array<const N: usize>(arr: &[usize; N]) -> (r: bool)
    ensures
        r == is_perm(arr@, N as nat),
{
    let mut i: usize = 0;
    while i < N
        invariant
            i <= N,
            forall|a: int| 0 <= a < i ==> #[trigger] arr@[a] < N,
            forall|a: int, b: int| 0 <= a < i && 0 <= b < i && a != b ==> #[trigger] arr@[a] != #[trigger] arr@[b],
        decreases N - i,
    {
        if arr[i] >= N {
            return false;
        }
        let mut j: usize = 0;
        while j < i
            invariant
                j <= i < N,
                forall|b: int| 0 <= b < j ==> #[trigger] arr@[b] != arr@[i as int],
            decreases i - j,
        {
            if arr[j] == arr[i] {
                return false;
            }
            j += 1;
        }
        i += 1;
    }
    true
}

/// Adds `e` to a list kept in strictly increasing order of keys, unless its key is there.
fn insert_pair<const N: usize>(list: &mut Vec<(Permutation<N>, Permutation<N>)>, keys: &mut Vec<Vec<usize>>, e: (Permutation<N>, Permutation<N>), key: Vec<usize>)
    requires
        old(keys)@.len() == old(list)@.len(),
        forall|k: int| 0 <= k < old(keys)@.len() ==> (#[trigger] old(keys)@[k])@ == pair_key(old(list)@[k]),
        strictly_sorted(pair_keys(old(list)@)),
        key@ == pair_key(e),
    ensures
        final(keys)@.len() == final(list)@.len(),
        forall|k: int| 0 <= k < final(keys)@.len() ==> (#[trigger] final(keys)@[k])@ == pair_key(final(list)@[k]),
        strictly_sorted(pair_keys(final(list)@)),
        forall|k: int| 0 <= k < final(list)@.len() ==> old(list)@.contains(#[trigger] final(list)@[k]) || final(list)@[k] == e,
        forall|k: int| 0 <= k < old(list)@.len() ==> final(list)@.contains(#[trigger] old(list)@[k]),
        exists|k: int| 0 <= k < final(list)@.len() && #[trigger] pair_key(final(list)@[k]) == pair_key(e),
{
    let ghost ks = pair_keys(list@);
    let mut p: usize = 0;
    while p < keys.len() && lex_compare(&keys[p], &key) < 0
        invariant
            p <= keys@.len(),
            keys@.len() == list@.len(),
            ks == pair_keys(list@),
            forall|k: int| 0 <= k < keys@.len() ==> (#[trigger] keys@[k])@ == pair_key(list@[k]),
            forall|q: int| 0 <= q < p ==> lex_lt(#[trigger] ks[q], key@),
        decreases keys@.len() - p,
    {
        p += 1;
    }
    if p < keys.len() && lex_compare(&keys[p], &key) == 0 {
        proof {
            assert(pair_key(list@[p as int]) == pair_key(e));
        }
        return;
    }
    proof {
        if p < ks.len() {
            assert(ks[p as int] == keys@[p as int]@);
            lemma_lex_trichotomy(ks[p as int], key@);
        }
    }
    let ghost before = list@;
    list.insert(p, e);
    keys.insert(p, key);
    proof {
        let ks1 = pair_keys(list@);
        assert(ks1 =~= ks.insert(p as int, pair_key(e)));
        assert forall|x: int, y: int| 0 <= x < y < ks1.len() implies lex_lt(#[trigger] ks1[x], #[trigger] ks1[y]) by {
            if y < p {
                assert(ks1[x] == ks[x] && ks1[y] == ks[y]);
            } else if y == p {
                assert(ks1[x] == ks[x]);
            } else if x == p {
                assert(ks1[y] == ks[y - 1]);
                if y - 1 > p {
                    assert(lex_lt(ks[p as int], ks[y - 1]));
                    lemma_lex_transitive(key@, ks[p as int], ks[y - 1]);
                }
            } else if x < p {
                assert(ks1[x] == ks[x] && ks1[y] == ks[y - 1]);
                assert(lex_lt(ks[x], ks[y - 1]));
            } else {
                assert(ks1[x] == ks[x - 1] && ks1[y] == ks[y - 1]);
            }
        }
        assert forall|k: int| 0 <= k < list@.len() implies before.contains(#[trigger] list@[k]) || list@[k] == e by {
            if k < p {
                assert(list@[k] == before[k]);
            } else if k > p {
                assert(list@[k] == before[k - 1]);
            }
        }
        assert forall|k: int| 0 <= k < before.len() implies list@.contains(#[trigger] before[k]) by {
            if k < p {
                assert(list@[k] == before[k]);
            } else {
                assert(list@[k + 1] == before[k]);
            }
        }
        assert(pair_key(list@[p as int]) == pair_key(e));
    }
}

/// Two pairs with one key have one renaming of the values.
proof fn lemma_key_renaming<const N: usize>(a: (Permutation<N>, Permutation<N>), b: (Permutation<N>, Permutation<N>))
    requires
        pair_key(a) == pair_key(b),
        a.0@.len() == N,
        b.0@.len() == N,
    ensures
        a.0@ == b.0@,
{
    assert(pair_key(a).take(N as int) =~= a.0@);
    assert(pair_key(b).take(N as int) =~= b.0@);
}

/// Where cycle q of the type starts: the sum of the lengths of the cycles before it.
pub open spec fn cycle_start(lens: Seq<usize>, q: nat) -> nat
    decreases q,
{
    if q == 0 { 0 } else { cycle_start(lens, (q - 1) as nat) + lens[q - 1] as nat }
}

/// Point j of cycle q.
pub open spec fn cycle_point(lens: Seq<usize>, q: nat, j: nat) -> nat {
    cycle_start(lens, q) + j
}

/// A cycle type whose cycles are nonempty and cover the n points.
pub open spec fn covers(lens: Seq<usize>, n: nat) -> bool {
    &&& forall|q: int| 0 <= q < lens.len() ==> #[trigger] lens[q] > 0
    &&& cycle_start(lens, lens.len()) == n
}

/// `p` is the second row of the canonical pair of rows of the type: each cycle on
/// consecutive values, sending each value to the next.
pub open spec fn is_canonical_cycles(p: Seq<usize>, lens: Seq<usize>, n: nat) -> bool {
    &&& p.len() == n
    &&& forall|q: nat, j: nat| q < lens.len() && j < lens[q as int]
        ==> #[trigger] p[cycle_point(lens, q, j) as int] == cycle_start(lens, q) + (j + 1) % (lens[q as int] as nat)
}

/// Renaming the values by `s` and then the second row by `p` is the same as the other way round.
pub open spec fn commutes(s: Seq<usize>, p: Seq<usize>, n: nat) -> bool {
    forall|x: int| 0 <= x < n ==> #[trigger] s[p[x] as int] == p[s[x] as int]
}

/// `s` renames the values so that the canonical pair of rows of the type stays canonical
/// once the columns are put back in order.
pub open spec fn keeps_canonical(s: Seq<usize>, lens: Seq<usize>, n: nat) -> bool {
    &&& is_perm(s, n)
    &&& exists|p: Seq<usize>| #[trigger] is_canonical_cycles(p, lens, n) && commutes(s, p, n)
}

/// The list has a pair whose renaming of the values is `s`.
pub open spec fn lists_renaming<const N: usize>(l: Seq<(Permutation<N>, Permutation<N>)>, s: Seq<usize>) -> bool {
    exists|k: int| 0 <= k < l.len() && (#[trigger] l[k]).0@ == s
}

/// The entry renames the values as the table says, and its column order undoes the renaming.
pub open spec fn is_normalisation<const N: usize>(e: (Permutation<N>, Permutation<N>), pi: Seq<usize>) -> bool {
    &&& is_perm(e.0@, N as nat)
    &&& commutes(e.0@, pi, N as nat)
    &&& undoes(e.0@, e.1@, N as nat)
}

proof fn lemma_start_mono(lens: Seq<usize>, a: nat, b: nat)
    requires
        a <= b,
    ensures
        cycle_start(lens, a) <= cycle_start(lens, b),
    decreases b,
{
    if a < b {
        lemma_start_mono(lens, a, (b - 1) as nat);
    }
}

proof fn lemma_start_sum(lens: Seq<usize>, q: nat)
    requires
        q <= lens.len(),
    ensures
        cycle_start(lens, q) == seq_sum(lens.take(q as int)),
    decreases q,
{
    if q == 0 {
        assert(lens.take(0) =~= Seq::<usize>::empty());
    } else {
        lemma_start_sum(lens, (q - 1) as nat);
        let x = seq![lens[q - 1]];
        assert(lens.take(q as int) =~= lens.take(q - 1) + x);
        lemma_sum_concat(lens.take(q - 1), x);
        assert(x.drop_first() =~= Seq::<usize>::empty());
        assert(seq_sum(x) == lens[q - 1] as nat + seq_sum(x.drop_first()));
    }
}

/// Every point below the start of cycle m lies on one of the cycles before it.
proof fn lemma_cover(lens: Seq<usize>, m: nat, x: int)
    requires
        m <= lens.len(),
        0 <= x < cycle_start(lens, m),
    ensures
        exists|q: nat, j: nat| q < m && j < lens[q as int] && x == #[trigger] cycle_point(lens, q, j),
    decreases m,
{
    let m1 = (m - 1) as nat;
    if x < cycle_start(lens, m1) {
        lemma_cover(lens, m1, x);
        let (q, j) = choose|q: nat, j: nat| q < m1 && j < lens[q as int] && x == #[trigger] cycle_point(lens, q, j);
        assert(q < m && j < lens[q as int] && x == cycle_point(lens, q, j));
    } else {
        let j = (x - cycle_start(lens, m1)) as nat;
        assert(x == cycle_point(lens, m1, j));
    }
}

/// The cycles of a covering type end by the last point.
proof fn lemma_cycle_in_range(lens: Seq<usize>, n: nat, q: nat, j: nat)
    requires
        covers(lens, n),
        q < lens.len(),
        j < lens[q as int],
    ensures
        cycle_point(lens, q, j) < cycle_start(lens, q + 1) <= n,
{
    lemma_start_mono(lens, q + 1, lens.len());
}

/// The canonical second row is unique.
proof fn lemma_canonical_unique(p1: Seq<usize>, p2: Seq<usize>, lens: Seq<usize>, n: nat)
    requires
        covers(lens, n),
        is_canonical_cycles(p1, lens, n),
        is_canonical_cycles(p2, lens, n),
    ensures
        p1 == p2,
{
    assert forall|x: int| 0 <= x < n implies p1[x] == p2[x] by {
        lemma_cover(lens, lens.len(), x);
        let (q, j) = choose|q: nat, j: nat| q < lens.len() && j < lens[q as int] && x == #[trigger] cycle_point(lens, q, j);
        assert(p1[cycle_point(lens, q, j) as int] == p2[cycle_point(lens, q, j) as int]);
    }
    assert(p1 =~= p2);
}

/// Walking j steps along cycle q from its start reaches its point j.
proof fn lemma_walk(p: Seq<usize>, lens: Seq<usize>, n: nat, q: nat, j: nat)
    requires
        is_canonical_cycles(p, lens, n),
        q < lens.len(),
        j < lens[q as int],
    ensures
        pow_apply(p, j, cycle_start(lens, q) as int) == cycle_point(lens, q, j),
    decreases j,
{
    if j > 0 {
        let j1 = (j - 1) as nat;
        lemma_walk(p, lens, n, q, j1);
        assert(p[cycle_point(lens, q, j1) as int] == cycle_start(lens, q) + (j1 + 1) % (lens[q as int] as nat));
        vstd::arithmetic::div_mod::lemma_small_mod(j, lens[q as int] as nat);
    }
}

/// A renaming that commutes with a row commutes with its powers.
proof fn lemma_commutes_pow(s: Seq<usize>, p: Seq<usize>, n: nat, k: nat, a: int)
    requires
        commutes(s, p, n),
        is_perm(p, n),
        is_perm(s, n),
        0 <= a < n,
    ensures
        s[pow_apply(p, k, a)] as int == pow_apply(p, k, s[a] as int),
    decreases k,
{
    if k > 0 {
        let k1 = (k - 1) as nat;
        lemma_commutes_pow(s, p, n, k1, a);
        crate::orbit::lemma_pow_in_range(p, n, k1, a);
        let x = pow_apply(p, k1, a);
        assert(s[p[x] as int] == p[s[x] as int]);
    }
}

/// The canonical second row of a covering type is a permutation.
proof fn lemma_canonical_perm(p: Seq<usize>, lens: Seq<usize>, n: nat)
    requires
        covers(lens, n),
        is_canonical_cycles(p, lens, n),
        forall|x: int| 0 <= x < n ==> #[trigger] p[x] < n,
    ensures
        is_perm(p, n),
{
    assert forall|x: int, y: int| 0 <= x < n && 0 <= y < n && x != y implies #[trigger] p[x] != #[trigger] p[y] by {
        lemma_cover(lens, lens.len(), x);
        lemma_cover(lens, lens.len(), y);
        let (q1, j1) = choose|q: nat, j: nat| q < lens.len() && j < lens[q as int] && x == #[trigger] cycle_point(lens, q, j);
        let (q2, j2) = choose|q: nat, j: nat| q < lens.len() && j < lens[q as int] && y == #[trigger] cycle_point(lens, q, j);
        assert(p[cycle_point(lens, q1, j1) as int] == cycle_start(lens, q1) + (j1 + 1) % (lens[q1 as int] as nat));
        assert(p[cycle_point(lens, q2, j2) as int] == cycle_start(lens, q2) + (j2 + 1) % (lens[q2 as int] as nat));
        let l1 = lens[q1 as int] as nat;
        let l2 = lens[q2 as int] as nat;
        assert(0 <= (j1 + 1) % l1 < l1);
        assert(0 <= (j2 + 1) % l2 < l2);
        if q1 == q2 {
            if j1 + 1 < l1 {
                vstd::arithmetic::div_mod::lemma_small_mod(j1 + 1, l1);
            } else {
                vstd::arithmetic::div_mod::lemma_mod_self_0(l1 as int);
            }
            if j2 + 1 < l2 {
                vstd::arithmetic::div_mod::lemma_small_mod(j2 + 1, l2);
            } else {
                vstd::arithmetic::div_mod::lemma_mod_self_0(l2 as int);
            }
        } else if q1 < q2 {
            lemma_start_mono(lens, q1 + 1, q2);
        } else {
            lemma_start_mono(lens, q2 + 1, q1);
        }
    }
}

/// The array that follows the cycles from the chosen images of their starts is the renaming
/// itself, for any renaming that commutes with the canonical row and sends the starts there.
proof fn lemma_built_is_renaming(lens: Seq<usize>, pi: Seq<usize>, ys: Seq<usize>, arr: Seq<usize>, s: Seq<usize>, n: nat)
    requires
        covers(lens, n),
        is_canonical_cycles(pi, lens, n),
        is_perm(pi, n),
        ys.len() == lens.len(),
        arr.len() == n,
        forall|q: nat, j: nat| q < lens.len() && j < lens[q as int]
            ==> #[trigger] arr[cycle_point(lens, q, j) as int] == pow_apply(pi, j, ys[q as int] as int),
        is_perm(s, n),
        commutes(s, pi, n),
        forall|q: int| 0 <= q < lens.len() ==> #[trigger] s[cycle_start(lens, q as nat) as int] == ys[q],
    ensures
        arr == s,
{
    assert forall|x: int| 0 <= x < n implies arr[x] == s[x] by {
        lemma_cover(lens, lens.len(), x);
        let (q, j) = choose|q: nat, j: nat| q < lens.len() && j < lens[q as int] && x == #[trigger] cycle_point(lens, q, j);
        let st = cycle_start(lens, q) as int;
        let qi = q as int;
        assert(s[cycle_start(lens, qi as nat) as int] == ys[qi]);
        assert(s[st] == ys[q as int]);
        lemma_cycle_in_range(lens, n, q, 0);
        lemma_walk(pi, lens, n, q, j);
        lemma_commutes_pow(s, pi, n, j, st);
        assert(arr[cycle_point(lens, q, j) as int] == pow_apply(pi, j, ys[q as int] as int));
    }
    assert(arr =~= s);
}

/// The cycle lengths add up to N and none is 0.
fn type_covers<const N: usize>(lens: &Vec<usize>) -> (r: bool)
    ensures
        r == covers(lens@, N as nat),
{
    let mut total: usize = 0;
    let mut q: usize = 0;
    while q < lens.len()
        invariant
            q <= lens@.len(),
            total == cycle_start(lens@, q as nat),
            total <= N,
            forall|k: int| 0 <= k < q ==> #[trigger] lens@[k] > 0,
        decreases lens@.len() - q,
    {
        if lens[q] == 0 || lens[q] > N - total {
            proof {
                if lens[q as int] > 0 {
                    lemma_start_mono(lens@, (q + 1) as nat, lens@.len());
                }
            }
            return false;
        }
        total = total + lens[q];
        q += 1;
    }
    total == N
}

/// The second row of the canonical pair of rows of a covering type.
fn canonical_cycles<const N: usize>(lens: &Vec<usize>) -> (r: [usize; N])
    requires
        covers(lens@, N as nat),
    ensures
        is_canonical_cycles(r@, lens@, N as nat),
        is_perm(r@, N as nat),
{
    let mut arr = [0usize; N];
    let mut start: usize = 0;
    let mut q: usize = 0;
    while q < lens.len()
        invariant
            covers(lens@, N as nat),
            q <= lens@.len(),
            start == cycle_start(lens@, q as nat),
            forall|q2: nat, j: nat| q2 < q && j < lens@[q2 as int]
                ==> #[trigger] arr@[cycle_point(lens@, q2, j) as int] == cycle_start(lens@, q2) + (j + 1) % (lens@[q2 as int] as nat),
            forall|x: int| 0 <= x < start ==> #[trigger] arr@[x] < N,
        decreases lens@.len() - q,
    {
        let len = lens[q];
        proof {
            lemma_start_mono(lens@, (q + 1) as nat, lens@.len());
            assert(lens@[q as int] > 0);
        }
        let mut j: usize = 0;
        while j < len
            invariant
                covers(lens@, N as nat),
                q < lens@.len(),
                len == lens@[q as int],
                len > 0,
                start == cycle_start(lens@, q as nat),
                start + len <= N,
                j <= len,
                forall|q2: nat, j2: nat| q2 < q && j2 < lens@[q2 as int]
                    ==> #[trigger] arr@[cycle_point(lens@, q2, j2) as int] == cycle_start(lens@, q2) + (j2 + 1) % (lens@[q2 as int] as nat),
                forall|j2: nat| j2 < j
                    ==> #[trigger] arr@[cycle_point(lens@, q as nat, j2) as int] == start + (j2 + 1) % (len as nat),
                forall|x: int| 0 <= x < start + j ==> #[trigger] arr@[x] < N,
            decreases len - j,
        {
            let v = start + (j + 1) % len;
            proof {
                assert forall|q2: nat, j2: nat| q2 < q && j2 < lens@[q2 as int]
                    implies cycle_point(lens@, q2, j2) < start by {
                    lemma_start_mono(lens@, q2 + 1, q as nat);
                }
            }
            arr[start + j] = v;
            j += 1;
        }
        start = start + len;
        q += 1;
    }
    proof {
        lemma_canonical_perm(arr@, lens@, N as nat);
    }
    arr
}

/// Whether `s` commutes with `p`.
fn commutes_with<const N: usize>(s: &[usize; N], p: &[usize; N]) -> (r: bool)
    requires
        is_perm(s@, N as nat),
        is_perm(p@, N as nat),
    ensures
        r == commutes(s@, p@, N as nat),
{
    let mut x: usize = 0;
    while x < N
        invariant
            x <= N,
            is_perm(s@, N as nat),
            is_perm(p@, N as nat),
            forall|y: int| 0 <= y < x ==> #[trigger] s@[p@[y] as int] == p@[s@[y] as int],
        decreases N - x,
    {
        if s[p[x]] != p[s[x]] {
            return false;
        }
        x += 1;
    }
    true
}

/// Adds to the list every renaming that commutes with the canonical row `pi` and sends the
/// starts of the first cycles to `ys`: the images of the starts of the other cycles are
/// tried in turn, and the renaming follows from them.
fn search<const N: usize>(
    lens: &Vec<usize>,
    pi: &[usize; N],
    ys: &mut Vec<usize>,
    list: &mut Vec<(Permutation<N>, Permutation<N>)>,
    keys: &mut Vec<Vec<usize>>,
)
    requires
        covers(lens@, N as nat),
        is_canonical_cycles(pi@, lens@, N as nat),
        is_perm(pi@, N as nat),
        old(ys)@.len() <= lens@.len(),
        forall|q: int| 0 <= q < old(ys)@.len() ==> #[trigger] old(ys)@[q] < N,
        old(keys)@.len() == old(list)@.len(),
        forall|k: int| 0 <= k < old(keys)@.len() ==> (#[trigger] old(keys)@[k])@ == pair_key(old(list)@[k]),
        strictly_sorted(pair_keys(old(list)@)),
        forall|k: int| 0 <= k < old(list)@.len() ==> is_normalisation(#[trigger] old(list)@[k], pi@),
    ensures
        final(ys)@ == old(ys)@,
        final(keys)@.len() == final(list)@.len(),
        forall|k: int| 0 <= k < final(keys)@.len() ==> (#[trigger] final(keys)@[k])@ == pair_key(final(list)@[k]),
        strictly_sorted(pair_keys(final(list)@)),
        forall|k: int| 0 <= k < final(list)@.len() ==> is_normalisation(#[trigger] final(list)@[k], pi@),
        forall|k: int| 0 <= k < old(list)@.len() ==> final(list)@.contains(#[trigger] old(list)@[k]),
        forall|s: Seq<usize>| is_perm(s, N as nat) && commutes(s, pi@, N as nat)
            && (forall|q: int| 0 <= q < old(ys)@.len() ==> #[trigger] s[cycle_start(lens@, q as nat) as int] == old(ys)@[q])
            ==> #[trigger] lists_renaming(final(list)@, s),
    decreases lens@.len() - old(ys)@.len(),
{
    let ghost ys0 = ys@;
    let ghost list0 = list@;
    if ys.len() == lens.len() {
        let mut arr = [0usize; N];
        let mut start: usize = 0;
        let mut q: usize = 0;
        while q < lens.len()
            invariant
                covers(lens@, N as nat),
                is_perm(pi@, N as nat),
                ys@ == ys0,
                ys@.len() == lens@.len(),
                forall|q: int| 0 <= q < ys@.len() ==> #[trigger] ys@[q] < N,
                q <= lens@.len(),
                start == cycle_start(lens@, q as nat),
                forall|q2: nat, j: nat| q2 < q && j < lens@[q2 as int]
                    ==> #[trigger] arr@[cycle_point(lens@, q2, j) as int] == pow_apply(pi@, j, ys@[q2 as int] as int),
            decreases lens@.len() - q,
        {
            let len = lens[q];
            proof {
                lemma_start_mono(lens@, (q + 1) as nat, lens@.len());
            }
            let mut cur = ys[q];
            let mut j: usize = 0;
            while j < len
                invariant
                    covers(lens@, N as nat),
                    is_perm(pi@, N as nat),
                    q < lens@.len(),
                    len == lens@[q as int],
                    start == cycle_start(lens@, q as nat),
                    start + len <= N,
                    j <= len,
                    cur < N,
                    cur as int == pow_apply(pi@, j as nat, ys@[q as int] as int),
                    forall|q2: nat, j2: nat| q2 < q && j2 < lens@[q2 as int]
                        ==> #[trigger] arr@[cycle_point(lens@, q2, j2) as int] == pow_apply(pi@, j2, ys@[q2 as int] as int),
                    forall|j2: nat| j2 < j
                        ==> #[trigger] arr@[cycle_point(lens@, q as nat, j2) as int] == pow_apply(pi@, j2, ys@[q as int] as int),
                decreases len - j,
            {
                proof {
                    assert forall|q2: nat, j2: nat| q2 < q && j2 < lens@[q2 as int]
                        implies cycle_point(lens@, q2, j2) < start by {
                        lemma_start_mono(lens@, q2 + 1, q as nat);
                    }
                }
                arr[start + j] = cur;
                cur = pi[cur];
                j += 1;
            }
            start = start + len;
            q += 1;
        }
        let is_perm_arr = is_permutation_array(&arr);
        let keeps = if is_perm_arr { commutes_with(&arr, pi) } else { false };
        if keeps {
            let s = Permutation::from_array(arr);
            let c = s.clone().inverse();
            let mut key: Vec<usize> = Vec::new();
            let sa = s.as_array();
            let ca = c.as_array();
            let mut k: usize = 0;
            while k < N
                invariant
                    k <= N,
                    key@ == sa@.take(k as int),
                decreases N - k,
            {
                key.push(sa[k]);
                k += 1;
                assert(key@ =~= sa@.take(k as int));
            }
            let mut k: usize = 0;
            while k < N
                invariant
                    k <= N,
                    key@ == sa@ + ca@.take(k as int),
                decreases N - k,
            {
                key.push(ca[k]);
                k += 1;
                assert(key@ =~= sa@ + ca@.take(k as int));
            }
            proof {
                assert(ca@.take(N as int) =~= ca@);
                assert(sa@.take(N as int) =~= sa@);
            }
            let e = (s, c);
            proof {
                assert(key@ == pair_key(e));
                assert(is_normalisation(e, pi@));
            }
            insert_pair(list, keys, e, key);
            proof {
                assert forall|k: int| 0 <= k < list@.len() implies is_normalisation(#[trigger] list@[k], pi@) by {
                    if list@[k] != e {
                        let t = choose|t: int| 0 <= t < list0.len() && list0[t] == list@[k];
                        assert(is_normalisation(list0[t], pi@));
                    }
                }
                let k0 = choose|k: int| 0 <= k < list@.len() && #[trigger] pair_key(list@[k]) == pair_key(e);
                assert(is_normalisation(list@[k0], pi@));
                lemma_key_renaming(list@[k0], e);
                assert forall|s2: Seq<usize>| is_perm(s2, N as nat) && commutes(s2, pi@, N as nat)
                    && (forall|q: int| 0 <= q < ys0.len() ==> #[trigger] s2[cycle_start(lens@, q as nat) as int] == ys0[q])
                    implies #[trigger] lists_renaming(list@, s2) by {
                    lemma_built_is_renaming(lens@, pi@, ys0, arr@, s2, N as nat);
                    assert(list@[k0].0@ == s2);
                }
            }
        } else {
            proof {
                assert forall|s2: Seq<usize>| is_perm(s2, N as nat) && commutes(s2, pi@, N as nat)
                    && (forall|q: int| 0 <= q < ys0.len() ==> #[trigger] s2[cycle_start(lens@, q as nat) as int] == ys0[q])
                    implies #[trigger] lists_renaming(list@, s2) by {
                    lemma_built_is_renaming(lens@, pi@, ys0, arr@, s2, N as nat);
                }
            }
        }
    } else {
        let i = ys.len();
        proof {
            lemma_start_mono(lens@, (i + 1) as nat, lens@.len());
            assert(lens@[i as int] > 0);
        }
        let mut y: usize = 0;
        while y < N
            invariant
                covers(lens@, N as nat),
                is_canonical_cycles(pi@, lens@, N as nat),
                is_perm(pi@, N as nat),
                i == ys0.len(),
                ys0 == old(ys)@,
                i < lens@.len(),
                cycle_start(lens@, i as nat) < N,
                ys@ == ys0,
                forall|q: int| 0 <= q < ys@.len() ==> #[trigger] ys@[q] < N,
                y <= N,
                keys@.len() == list@.len(),
                forall|k: int| 0 <= k < keys@.len() ==> (#[trigger] keys@[k])@ == pair_key(list@[k]),
                strictly_sorted(pair_keys(list@)),
                forall|k: int| 0 <= k < list@.len() ==> is_normalisation(#[trigger] list@[k], pi@),
                forall|k: int| 0 <= k < list0.len() ==> list@.contains(#[trigger] list0[k]),
                forall|s: Seq<usize>| is_perm(s, N as nat) && commutes(s, pi@, N as nat)
                    && (forall|q: int| 0 <= q < ys0.len() ==> #[trigger] s[cycle_start(lens@, q as nat) as int] == ys0[q])
                    && s[cycle_start(lens@, i as nat) as int] < y
                    ==> #[trigger] lists_renaming(list@, s),
            decreases N - y,
        {
            let ghost mid = list@;
            ys.push(y);
            proof {
                assert(ys@ == ys0.push(y));
            }
            search(lens, pi, ys, list, keys);
            ys.pop();
            proof {
                assert(ys@ =~= ys0);
                assert forall|k: int| 0 <= k < list0.len() implies list@.contains(#[trigger] list0[k]) by {
                    assert(mid.contains(list0[k]));
                    let t = choose|t: int| 0 <= t < mid.len() && mid[t] == list0[k];
                    assert(list@.contains(mid[t]));
                }
                assert forall|s: Seq<usize>| is_perm(s, N as nat) && commutes(s, pi@, N as nat)
                    && (forall|q: int| 0 <= q < ys0.len() ==> #[trigger] s[cycle_start(lens@, q as nat) as int] == ys0[q])
                    && s[cycle_start(lens@, i as nat) as int] < y + 1
                    implies #[trigger] lists_renaming(list@, s) by {
                    let ysy = ys0.push(y);
                    if s[cycle_start(lens@, i as nat) as int] < y {
                        assert(lists_renaming(mid, s));
                        let t = choose|t: int| 0 <= t < mid.len() && (#[trigger] mid[t]).0@ == s;
                        assert(list@.contains(mid[t]));
                        let t2 = choose|t2: int| 0 <= t2 < list@.len() && list@[t2] == mid[t];
                        assert(list@[t2].0@ == s);
                    } else {
                        assert forall|q: int| 0 <= q < ysy.len() implies #[trigger] s[cycle_start(lens@, q as nat) as int] == ysy[q] by {
                            if q < ys0.len() {
                                assert(s[cycle_start(lens@, q as nat) as int] == ys0[q]);
                            }
                        }
                    }
                }
            }
            y += 1;
        }
        proof {
            assert forall|s: Seq<usize>| is_perm(s, N as nat) && commutes(s, pi@, N as nat)
                && (forall|q: int| 0 <= q < ys0.len() ==> #[trigger] s[cycle_start(lens@, q as nat) as int] == ys0[q])
                implies #[trigger] lists_renaming(list@, s) by {
                assert(s[cycle_start(lens@, i as nat) as int] < N);
            }
        }
    }
}

/// The renamings of the values, with their column orders, that keep the canonical pair of
/// rows of the cycle type `lens` canonical: the first row 0, 1, ..., N - 1, the second made
/// of the cycles in the order of the type, each on consecutive values and sending each value
/// to the next. Each renaming once, in increasing order of the renaming; none where the
/// lengths are not all positive or do not add up to N.
fn normalisations<const N: usize>(lens: &Vec<usize>) -> (r: Vec<(Permutation<N>, Permutation<N>)>)
    ensures
        strictly_sorted(pair_keys(r@)),
        forall|k: int| 0 <= k < r@.len() ==> #[trigger] keeps_canonical(r@[k].0@, lens@, N as nat),
        forall|k: int| 0 <= k < r@.len() ==> #[trigger] undoes(r@[k].0@, r@[k].1@, N as nat),
        covers(lens@, N as nat) ==> forall|s: Seq<usize>| #[trigger] keeps_canonical(s, lens@, N as nat) ==> lists_renaming(r@, s),
{
    let mut list: Vec<(Permutation<N>, Permutation<N>)> = Vec::new();
    let mut keys: Vec<Vec<usize>> = Vec::new();
    if !type_covers::<N>(lens) {
        return list;
    }
    let pi = canonical_cycles::<N>(lens);
    let mut ys: Vec<usize> = Vec::new();
    search(lens, &pi, &mut ys, &mut list, &mut keys);
    proof {
        assert forall|k: int| 0 <= k < list@.len() implies #[trigger] keeps_canonical(list@[k].0@, lens@, N as nat) by {
            assert(is_normalisation(list@[k], pi@));
        }
        assert forall|k: int| 0 <= k < list@.len() implies #[trigger] undoes(list@[k].0@, list@[k].1@, N as nat) by {
            assert(is_normalisation(list@[k], pi@));
        }
        assert forall|s: Seq<usize>| #[trigger] keeps_canonical(s, lens@, N as nat) implies lists_renaming(list@, s) by {
            let p = choose|p: Seq<usize>| #[trigger] is_canonical_cycles(p, lens@, N as nat) && commutes(s, p, N as nat);
            lemma_canonical_unique(p, pi@, lens@, N as nat);
        }
    }
    list
}

/// For each cycle type of a permutation of N points without fixed points, in the order of
/// `generate_cycle_structures`, the renamings of the values, with their column orders,
/// that keep the canonical pair of rows of that type canonical: all of them, each once, in
/// increasing order.
pub fn generate_minimize_rows_lookup<const N: usize>() -> (r: Vec<Vec<(Permutation<N>, Permutation<N>)>>)
    ensures
        exists|types: Seq<Seq<usize>>| {
            &&& strictly_sorted(types)
            &&& r@.len() == types.len()
            &&& forall|c: Seq<usize>| #[trigger] is_cycle_type(c, N as nat) <==> types.contains(c)
            &&& forall|t: int, k: int| 0 <= t < r@.len() && 0 <= k < r@[t]@.len()
                ==> #[trigger] keeps_canonical(r@[t]@[k].0@, types[t], N as nat)
            &&& forall|t: int, s: Seq<usize>| 0 <= t < r@.len() && N >= 1 && #[trigger] keeps_canonical(s, types[t], N as nat)
                ==> lists_renaming(r@[t]@, s)
        },
        forall|t: int| 0 <= t < r@.len() ==> strictly_sorted(pair_keys((#[trigger] r@[t])@)),
        forall|t: int, k: int| 0 <= t < r@.len() && 0 <= k < r@[t]@.len()
            ==> #[trigger] undoes(r@[t]@[k].0@, r@[t]@[k].1@, N as nat),
{
    let structures = generate_cycle_structures(N);
    let ghost types = seqs(structures@);
    let mut r: Vec<Vec<(Permutation<N>, Permutation<N>)>> = Vec::new();
    let mut t: usize = 0;
    while t < structures.len()
        invariant
            t <= structures@.len(),
            types == seqs(structures@),
            forall|k: int| 0 <= k < structures@.len() ==> #[trigger] is_cycle_type(types[k], N as nat),
            r@.len() == t,
            forall|q: int| 0 <= q < r@.len() ==> strictly_sorted(pair_keys((#[trigger] r@[q])@)),
            forall|q: int, k: int| 0 <= q < r@.len() && 0 <= k < r@[q]@.len()
                ==> #[trigger] undoes(r@[q]@[k].0@, r@[q]@[k].1@, N as nat),
            forall|q: int, k: int| 0 <= q < r@.len() && 0 <= k < r@[q]@.len()
                ==> #[trigger] keeps_canonical(r@[q]@[k].0@, types[q], N as nat),
            forall|q: int, s: Seq<usize>| 0 <= q < r@.len() && N >= 1 && #[trigger] keeps_canonical(s, types[q], N as nat)
                ==> lists_renaming(r@[q]@, s),
        decreases structures@.len() - t,
    {
        let l = normalisations::<N>(&structures[t]);
        proof {
            assert(types[t as int] == structures@[t as int]@);
            if N >= 1 {
                lemma_cycle_type_covers(types[t as int], N as nat);
            }
        }
        r.push(l);
        t += 1;
    }
    proof {
        assert(types.len() == structures@.len());
        assert forall|c: Seq<usize>| #[trigger] is_cycle_type(c, N as nat) <==> types.contains(c) by {
            if types.contains(c) {
                let k = choose|k: int| 0 <= k < types.len() && types[k] == c;
                assert(is_cycle_type(types[k], N as nat));
            }
        }
    }
    r
}

/// A cycle type of n >= 1 points covers them.
proof fn lemma_cycle_type_covers(c: Seq<usize>, n: nat)
    requires
        is_cycle_type(c, n),
        n >= 1,
    ensures
        covers(c, n),
{
    if n < 2 {
        assert(c == seq![1usize]);
        assert(cycle_start(c, 1) == cycle_start(c, 0) + c[0] as nat);
    } else {
        lemma_start_sum(c, c.len());
        assert(c.take(c.len() as int) =~= c);
    }
}

} // verus!
