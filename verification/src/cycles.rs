//! Cycle structures of fixed-point-free permutations: the ways to split n into parts of
//! at least two, each listed in increasing order of its parts.
use vstd::prelude::*;

verus! {

/// The sum of the entries.
pub open spec fn seq_sum(s: Seq<usize>) -> nat
    decreases s.len(),
{
    if s.len() == 0 {
        0
    } else {
        s[0] as nat + seq_sum(s.drop_first())
    }
}

/// The entries do not decrease.
pub open spec fn nondecreasing(s: Seq<usize>) -> bool {
    forall|a: int, b: int| 0 <= a <= b < s.len() ==> #[trigger] s[a] <= #[trigger] s[b]
}

/// `c` lists, in increasing order, the cycle lengths of a permutation of n points without
/// fixed points; for n below 2 the only structure is [n].
pub open spec fn is_cycle_type(c: Seq<usize>, n: nat) -> bool {
    if n < 2 {
        c == seq![n as usize]
    } else {
        &&& c.len() >= 1
        &&& nondecreasing(c)
        &&& forall|k: int| 0 <= k < c.len() ==> #[trigger] c[k] >= 2
        &&& seq_sum(c) == n
    }
}

/// `a` comes before `b` in lexicographic order (a proper prefix comes first).
pub open spec fn lex_lt(a: Seq<usize>, b: Seq<usize>) -> bool
    decreases a.len(),
{
    if a.len() == 0 {
        b.len() > 0
    } else if b.len() == 0 {
        false
    } else if a[0] != b[0] {
        a[0] < b[0]
    } else {
        lex_lt(a.drop_first(), b.drop_first())
    }
}

/// The list is in strictly increasing lexicographic order.
pub open spec fn strictly_sorted(l: Seq<Seq<usize>>) -> bool {
    forall|a: int, b: int| 0 <= a < b < l.len() ==> lex_lt(#[trigger] l[a], #[trigger] l[b])
}

pub proof fn lemma_lex_trichotomy(a: Seq<usize>, b: Seq<usize>)
    ensures
        a == b || lex_lt(a, b) || lex_lt(b, a),
        !(lex_lt(a, b) && lex_lt(b, a)),
        !lex_lt(a, a),
    decreases a.len(),
{
    if a.len() > 0 && b.len() > 0 && a[0] == b[0] {
        lemma_lex_trichotomy(a.drop_first(), b.drop_first());
        if a.drop_first() == b.drop_first() {
            assert(a =~= seq![a[0]] + a.drop_first());
            assert(b =~= seq![b[0]] + b.drop_first());
        }
    }
    if a.len() > 0 {
        lemma_lex_trichotomy(a.drop_first(), a.drop_first());
    }
    if a.len() == 0 && b.len() == 0 {
        assert(a =~= b);
    }
}

pub proof fn lemma_lex_transitive(a: Seq<usize>, b: Seq<usize>, c: Seq<usize>)
    requires
        lex_lt(a, b),
        lex_lt(b, c),
    ensures
        lex_lt(a, c),
    decreases a.len(),
{
    if a.len() > 0 && b.len() > 0 && c.len() > 0 && a[0] == b[0] && b[0] == c[0] {
        lemma_lex_transitive(a.drop_first(), b.drop_first(), c.drop_first());
    }
}

/// -1, 0 or 1 as `a` comes before, equals or comes after `b` lexicographically.
pub(crate) fn lex_compare(a: &Vec<usize>, b: &Vec<usize>) -> (r: i8)
    ensures
        r == -1 <==> lex_lt(a@, b@),
        r == 0 <==> a@ == b@,
        r == 1 <==> lex_lt(b@, a@),
        -1 <= r <= 1,
{
    proof {
        lemma_lex_trichotomy(a@, b@);
    }
    let mut k: usize = 0;
    assert(a@.skip(0) =~= a@);
    assert(b@.skip(0) =~= b@);
    while k < a.len() && k < b.len() && a[k] == b[k]
        invariant
            k <= a@.len(),
            k <= b@.len(),
            a@.take(k as int) == b@.take(k as int),
            lex_lt(a@, b@) == lex_lt(a@.skip(k as int), b@.skip(k as int)),
            lex_lt(b@, a@) == lex_lt(b@.skip(k as int), a@.skip(k as int)),
        decreases a@.len() - k,
    {
        assert(a@.skip(k as int).drop_first() =~= a@.skip(k as int + 1));
        assert(b@.skip(k as int).drop_first() =~= b@.skip(k as int + 1));
        assert(a@.take(k as int + 1) =~= a@.take(k as int).push(a@[k as int]));
        assert(b@.take(k as int + 1) =~= b@.take(k as int).push(b@[k as int]));
        k += 1;
    }
    if k == a.len() && k == b.len() {
        assert(a@ =~= a@.take(k as int));
        assert(b@ =~= b@.take(k as int));
        0
    } else if k == a.len() {
        assert(a@.skip(k as int).len() == 0);
        -1
    } else if k == b.len() {
        assert(b@.skip(k as int).len() == 0);
        1
    } else if a[k] < b[k] {
        -1
    } else {
        1
    }
}

/// Inserts `item` into the strictly sorted list unless it is already there.
fn insert_sorted_unique(list: &mut Vec<Vec<usize>>, item: Vec<usize>)
    requires
        strictly_sorted(seqs(old(list)@)),
    ensures
        strictly_sorted(seqs(final(list)@)),
        forall|x: Seq<usize>| #[trigger] seqs(final(list)@).contains(x) <==> (seqs(old(list)@).contains(x) || x == item@),
{
    let ghost l0 = seqs(list@);
    let mut p: usize = 0;
    while p < list.len() && lex_compare(&list[p], &item) == -1
        invariant
            p <= list@.len(),
            l0 == seqs(list@),
            forall|a: int| 0 <= a < p ==> lex_lt(#[trigger] l0[a], item@),
        decreases list@.len() - p,
    {
        p += 1;
    }
    if p < list.len() && lex_compare(&list[p], &item) == 0 {
        proof {
            assert(l0[p as int] == item@);
            assert forall|x: Seq<usize>| #[trigger] l0.contains(x) <==> (l0.contains(x) || x == item@) by {
                if x == item@ {
                    assert(l0[p as int] == x);
                }
            }
        }
        return;
    }
    proof {
        if p < list@.len() {
            lemma_lex_trichotomy(l0[p as int], item@);
            assert(lex_lt(item@, l0[p as int]));
        }
    }
    list.insert(p, item);
    proof {
        let l1 = seqs(list@);
        assert(l1 =~= l0.insert(p as int, item@));
        assert forall|a: int, b: int| 0 <= a < b < l1.len() implies lex_lt(#[trigger] l1[a], #[trigger] l1[b]) by {
            if b < p {
                assert(l1[a] == l0[a] && l1[b] == l0[b]);
            } else if b == p {
                assert(l1[a] == l0[a]);
            } else if a == p {
                assert(l1[b] == l0[b - 1]);
                if b - 1 > p {
                    lemma_lex_transitive(item@, l0[p as int], l0[b - 1]);
                }
            } else if a < p {
                assert(l1[a] == l0[a] && l1[b] == l0[b - 1]);
                assert(lex_lt(l0[a], item@));
                if p < l0.len() {
                    if b - 1 >= p {
                        if b - 1 > p {
                            lemma_lex_transitive(l0[a], l0[p as int], l0[b - 1]);
                        }
                    }
                }
            } else {
                assert(l1[a] == l0[a - 1] && l1[b] == l0[b - 1]);
            }
        }
        assert forall|x: Seq<usize>| #[trigger] l1.contains(x) <==> (l0.contains(x) || x == item@) by {
            if l1.contains(x) {
                let k = choose|k: int| 0 <= k < l1.len() && l1[k] == x;
                if k < p {
                    assert(l0[k] == x);
                } else if k > p {
                    assert(l0[k - 1] == x);
                }
            }
            if l0.contains(x) {
                let k = choose|k: int| 0 <= k < l0.len() && l0[k] == x;
                if k < p {
                    assert(l1[k] == x);
                } else {
                    assert(l1[k + 1] == x);
                }
            }
            if x == item@ {
                assert(l1[p as int] == x);
            }
        }
    }
}

/// The views of a list of vectors.
pub open spec fn seqs(v: Seq<Vec<usize>>) -> Seq<Seq<usize>> {
    v.map_values(|c: Vec<usize>| c@)
}

pub proof fn lemma_sum_concat(a: Seq<usize>, b: Seq<usize>)
    ensures
        seq_sum(a + b) == seq_sum(a) + seq_sum(b),
    decreases a.len(),
{
    if a.len() == 0 {
        assert(a + b =~= b);
    } else {
        assert((a + b).drop_first() =~= a.drop_first() + b);
        lemma_sum_concat(a.drop_first(), b);
    }
}

proof fn lemma_sum_single(x: usize)
    ensures
        seq_sum(seq![x]) == x,
{
    assert(seq![x].drop_first() =~= Seq::<usize>::empty());
    assert(seq_sum(Seq::<usize>::empty()) == 0);
    assert(seq_sum(seq![x]) == x + seq_sum(seq![x].drop_first()));
}

/// The sum is at least the first two entries together.
proof fn lemma_sum_first_two(c: Seq<usize>)
    requires
        c.len() >= 2,
    ensures
        seq_sum(c) >= c[0] + c[1],
{
    assert(c.drop_first()[0] == c[1]);
    assert(seq_sum(c.drop_first()) == c[1] + seq_sum(c.drop_first().drop_first()));
}

/// `d` with `x` inserted before its first entry greater than `x`.
fn insert_in_order(d: &Vec<usize>, x: usize) -> (r: Vec<usize>)
    requires
        nondecreasing(d@),
    ensures
        nondecreasing(r@),
        r@.len() == d@.len() + 1,
        seq_sum(r@) == seq_sum(d@) + x,
        forall|k: int| 0 <= k < r@.len() ==> #[trigger] r@[k] == x || d@.contains(r@[k]),
        (forall|q: int| 0 <= q < d@.len() ==> #[trigger] d@[q] >= x) ==> r@ == seq![x] + d@,
{
    let mut p: usize = 0;
    while p < d.len() && d[p] <= x
        invariant
            p <= d@.len(),
            forall|q: int| 0 <= q < p ==> #[trigger] d@[q] <= x,
        decreases d@.len() - p,
    {
        p += 1;
    }
    let mut r: Vec<usize> = Vec::new();
    let mut k: usize = 0;
    while k < p
        invariant
            k <= p <= d@.len(),
            r@ == d@.take(k as int),
        decreases p - k,
    {
        r.push(d[k]);
        k += 1;
        assert(r@ =~= d@.take(k as int));
    }
    r.push(x);
    let mut k: usize = p;
    while k < d.len()
        invariant
            p <= k <= d@.len(),
            r@ == d@.take(p as int) + seq![x] + d@.subrange(p as int, k as int),
        decreases d@.len() - k,
    {
        r.push(d[k]);
        k += 1;
        assert(r@ =~= d@.take(p as int) + seq![x] + d@.subrange(p as int, k as int));
    }
    proof {
        let a = d@.take(p as int);
        let b = d@.skip(p as int);
        assert(d@.subrange(p as int, d@.len() as int) =~= b);
        assert(d@ =~= a + b);
        lemma_sum_concat(a, b);
        lemma_sum_concat(a + seq![x], b);
        lemma_sum_concat(a, seq![x]);
        lemma_sum_single(x);
        assert(r@ =~= a + seq![x] + b);
        assert forall|u: int, v: int| 0 <= u <= v < r@.len() implies #[trigger] r@[u] <= #[trigger] r@[v] by {
            if u < p && v < p {
                assert(r@[u] == d@[u] && r@[v] == d@[v]);
            } else if u < p && v == p {
            } else if u < p {
                assert(r@[u] == d@[u] && r@[v] == d@[v - 1]);
            } else if u == p && v > p {
                assert(r@[v] == d@[v - 1]);
            } else if u > p {
                assert(r@[u] == d@[u - 1] && r@[v] == d@[v - 1]);
            }
        }
        assert forall|k: int| 0 <= k < r@.len() implies #[trigger] r@[k] == x || d@.contains(r@[k]) by {
            if k < p {
                assert(r@[k] == d@[k]);
            } else if k > p {
                assert(r@[k] == d@[k - 1]);
            }
        }
        if forall|q: int| 0 <= q < d@.len() ==> #[trigger] d@[q] >= x {
            assert forall|q: int| 0 <= q < p implies a[q] == x by {
                assert(d@[q] <= x && d@[q] >= x);
            }
            assert forall|k: int| 0 <= k < r@.len() implies r@[k] == (seq![x] + d@)[k] by {
                if k < p {
                    assert(r@[k] == x);
                    if k > 0 {
                        assert((seq![x] + d@)[k] == d@[k - 1]);
                        assert(d@[k - 1] == x);
                    }
                } else if k == p {
                    if k > 0 {
                        assert(d@[k - 1] == x);
                    }
                } else {
                    assert(r@[k] == d@[k - 1]);
                }
            }
            assert(r@ =~= seq![x] + d@);
        }
    }
    r
}

/// The cycle structures of the permutations of n points without fixed points, each in
/// increasing order of its cycle lengths, the list in increasing lexicographic order.
pub fn generate_cycle_structures(n: usize) -> (r: Vec<Vec<usize>>)
    ensures
        strictly_sorted(seqs(r@)),
        forall|k: int| 0 <= k < r@.len() ==> #[trigger] is_cycle_type(seqs(r@)[k], n as nat),
        forall|c: Seq<usize>| #[trigger] is_cycle_type(c, n as nat) ==> seqs(r@).contains(c),
    decreases n,
{
    let mut cycles: Vec<Vec<usize>> = Vec::new();
    let mut first: Vec<usize> = Vec::new();
    first.push(n);
    cycles.push(first);
    proof {
        lemma_sum_single(n);
        assert(seqs(cycles@) =~= seq![seq![n]]);
        assert(is_cycle_type(seq![n], n as nat));
        assert forall|c: Seq<usize>| is_cycle_type(c, n as nat) && c.len() == 1 implies #[trigger] seqs(cycles@).contains(c) by {
            if n >= 2 {
                assert(c.drop_first() =~= Seq::<usize>::empty());
                assert(seq_sum(Seq::<usize>::empty()) == 0);
                assert(seq_sum(c) == c[0] + seq_sum(c.drop_first()));
                assert(c =~= seq![n]);
            }
            assert(seqs(cycles@)[0] == c);
        }
    }
    let mut i: usize = 2;
    while i <= n / 2
        invariant
            2 <= i <= n / 2 + 1 || (i == 2 && n / 2 < 2),
            strictly_sorted(seqs(cycles@)),
            forall|k: int| 0 <= k < cycles@.len() ==> #[trigger] is_cycle_type(seqs(cycles@)[k], n as nat),
            forall|c: Seq<usize>| #[trigger] is_cycle_type(c, n as nat) && (c.len() == 1 || c[0] < i) ==> seqs(cycles@).contains(c),
        decreases n + 1 - i,
    {
        let sub = generate_cycle_structures(n - i);
        let mut k: usize = 0;
        while k < sub.len()
            invariant
                2 <= i <= n / 2,
                k <= sub@.len(),
                strictly_sorted(seqs(cycles@)),
                forall|m: int| 0 <= m < cycles@.len() ==> #[trigger] is_cycle_type(seqs(cycles@)[m], n as nat),
                forall|m: int| 0 <= m < sub@.len() ==> #[trigger] is_cycle_type(seqs(sub@)[m], (n - i) as nat),
                forall|c: Seq<usize>| #[trigger] is_cycle_type(c, n as nat) && (c.len() == 1 || c[0] < i) ==> seqs(cycles@).contains(c),
                forall|c: Seq<usize>| #[trigger] is_cycle_type(c, n as nat) && c.len() >= 2 && c[0] == i
                    && seqs(sub@.take(k as int)).contains(c.drop_first()) ==> seqs(cycles@).contains(c),
            decreases sub@.len() - k,
        {
            let ghost d = sub@[k as int]@;
            proof {
                assert(seqs(sub@)[k as int] == d);
                assert(is_cycle_type(d, (n - i) as nat));
            }
            let c = insert_in_order(&sub[k], i);
            let ghost before = seqs(cycles@);
            proof {
                assert(is_cycle_type(c@, n as nat)) by {
                    assert forall|m: int| 0 <= m < c@.len() implies #[trigger] c@[m] >= 2 by {
                        if c@[m] != i {
                            let q = choose|q: int| 0 <= q < d.len() && d[q] == c@[m];
                            assert(d[q] >= 2);
                        }
                    }
                }
            }
            let ghost cv = c@;
            insert_sorted_unique(&mut cycles, c);
            proof {
                assert forall|m: int| 0 <= m < cycles@.len() implies #[trigger] is_cycle_type(seqs(cycles@)[m], n as nat) by {
                    assert(seqs(cycles@).contains(seqs(cycles@)[m]));
                    if seqs(cycles@)[m] != cv {
                        assert(before.contains(seqs(cycles@)[m]));
                        let w = choose|w: int| 0 <= w < before.len() && before[w] == seqs(cycles@)[m];
                    }
                }
                assert forall|x: Seq<usize>| #[trigger] is_cycle_type(x, n as nat) && x.len() >= 2 && x[0] == i
                    && seqs(sub@.take(k as int + 1)).contains(x.drop_first()) implies seqs(cycles@).contains(x) by {
                    let t = seqs(sub@.take(k as int + 1));
                    let w = choose|w: int| 0 <= w < t.len() && t[w] == x.drop_first();
                    if w < k {
                        assert(seqs(sub@.take(k as int))[w] == x.drop_first());
                        assert(before.contains(x));
                    } else {
                        assert(x.drop_first() == d);
                        assert forall|q: int| 0 <= q < d.len() implies #[trigger] d[q] >= i by {
                            assert(x[0] <= x[q + 1]);
                        }
                        assert(x =~= seq![x[0]] + x.drop_first());
                        assert(cv == x);
                    }
                }
                assert forall|x: Seq<usize>| #[trigger] is_cycle_type(x, n as nat) && (x.len() == 1 || x[0] < i) implies seqs(cycles@).contains(x) by {
                    assert(before.contains(x));
                }
            }
            k += 1;
        }
        proof {
            assert(sub@.take(sub@.len() as int) =~= sub@);
            assert forall|c: Seq<usize>| #[trigger] is_cycle_type(c, n as nat) && (c.len() == 1 || c[0] < i + 1) implies seqs(cycles@).contains(c) by {
                if c.len() >= 2 && c[0] == i {
                    let d = c.drop_first();
                    assert(seq_sum(c) == c[0] + seq_sum(d));
                    assert(d.len() >= 1 && d[0] == c[1]);
                    assert(seq_sum(d) == d[0] + seq_sum(d.drop_first()));
                    assert(is_cycle_type(d, (n - i) as nat)) by {
                        assert forall|a: int, b: int| 0 <= a <= b < d.len() implies #[trigger] d[a] <= #[trigger] d[b] by {
                            assert(c[a + 1] <= c[b + 1]);
                        }
                        assert forall|q: int| 0 <= q < d.len() implies #[trigger] d[q] >= 2 by {
                            assert(c[q + 1] >= 2);
                        }
                    }
                    assert(seqs(sub@).contains(d));
                }
            }
        }
        i += 1;
    }
    proof {
        assert forall|c: Seq<usize>| #[trigger] is_cycle_type(c, n as nat) implies seqs(cycles@).contains(c) by {
            if n >= 2 && c.len() >= 2 {
                lemma_sum_first_two(c);
                assert(c[0] <= c[1]);
                assert(c[0] <= n / 2);
            }
            if n < 2 {
                assert(c.len() == 1);
            }
        }
    }
    cycles
}

/// How many entries of `s` equal `x`.
pub open spec fn count_of(s: Seq<Seq<usize>>, x: Seq<usize>) -> nat {
    s.filter(|y: Seq<usize>| y == x).len()
}

/// The lists of a tally.
pub open spec fn tally_keys(t: Seq<(Vec<usize>, usize)>) -> Seq<Seq<usize>> {
    t.map_values(|e: (Vec<usize>, usize)| e.0@)
}

/// One entry more counts once more for the list it equals.
proof fn lemma_count_step(s: Seq<Seq<usize>>, i: int, x: Seq<usize>)
    requires
        0 <= i < s.len(),
    ensures
        count_of(s.take(i + 1), x) == count_of(s.take(i), x) + if s[i] == x { 1nat } else { 0nat },
        count_of(s.take(i), x) <= i,
{
    reveal(Seq::filter);
    assert(s.take(i + 1).drop_last() =~= s.take(i));
    assert(s.take(i + 1).last() == s[i]);
    s.take(i).lemma_filter_len(|y: Seq<usize>| y == x);
}

/// A copy of the list.
fn copy_list(v: &Vec<usize>) -> (r: Vec<usize>)
    ensures
        r@ == v@,
{
    let mut r: Vec<usize> = Vec::new();
    let mut k: usize = 0;
    while k < v.len()
        invariant
            k <= v@.len(),
            r@ == v@.take(k as int),
        decreases v@.len() - k,
    {
        r.push(v[k]);
        k += 1;
        assert(r@ =~= v@.take(k as int));
    }
    assert(v@.take(k as int) =~= v@);
    r
}

/// Each list that occurs in `lists`, once, in increasing lexicographic order, with the
/// number of times it occurs.
pub fn tally(lists: &Vec<Vec<usize>>) -> (r: Vec<(Vec<usize>, usize)>)
    ensures
        strictly_sorted(tally_keys(r@)),
        forall|k: int| 0 <= k < r@.len() ==> (#[trigger] r@[k]).1 as nat == count_of(seqs(lists@), r@[k].0@) && r@[k].1 >= 1,
        forall|i: int| 0 <= i < lists@.len() ==> tally_keys(r@).contains(#[trigger] seqs(lists@)[i]),
{
    let ghost all = seqs(lists@);
    let mut t: Vec<(Vec<usize>, usize)> = Vec::new();
    let mut i: usize = 0;
    while i < lists.len()
        invariant
            i <= lists@.len(),
            all == seqs(lists@),
            all.len() == lists@.len(),
            strictly_sorted(tally_keys(t@)),
            forall|k: int| 0 <= k < t@.len() ==> (#[trigger] t@[k]).1 as nat == count_of(all.take(i as int), t@[k].0@) && t@[k].1 >= 1,
            forall|m: int| 0 <= m < i ==> tally_keys(t@).contains(#[trigger] all[m]),
            forall|x: Seq<usize>| count_of(all.take(i as int), x) > 0 ==> #[trigger] tally_keys(t@).contains(x),
        decreases lists@.len() - i,
    {
        let e = &lists[i];
        let ghost ev = e@;
        proof {
            assert(all[i as int] == ev);
        }
        let mut p: usize = 0;
        while p < t.len() && lex_compare(&t[p].0, e) < 0
            invariant
                p <= t@.len(),
                forall|q: int| 0 <= q < p ==> lex_lt(#[trigger] tally_keys(t@)[q], ev),
                e@ == ev,
            decreases t@.len() - p,
        {
            p += 1;
        }
        let ghost before = t@;
        let ghost keys0 = tally_keys(before);
        proof {
            assert forall|x: Seq<usize>| #[trigger] count_of(all.take(i + 1), x) == count_of(all.take(i as int), x) + if ev == x { 1nat } else { 0nat } by {
                lemma_count_step(all, i as int, x);
            }
        }
        let equal = p < t.len() && lex_compare(&t[p].0, e) == 0;
        if equal {
            let (key, count) = t.remove(p);
            proof {
                lemma_count_step(all, i as int, ev);
                assert(key@ == ev);
            }
            t.insert(p, (key, count + 1));
            proof {
                assert(tally_keys(t@) =~= keys0);
                assert forall|k: int| 0 <= k < t@.len() implies (#[trigger] t@[k]).1 as nat == count_of(all.take(i + 1), t@[k].0@) && t@[k].1 >= 1 by {
                    if k != p {
                        assert(t@[k] == before[k]);
                        assert(keys0[k] != keys0[p as int]) by {
                            if k < p {
                                assert(lex_lt(keys0[k], keys0[p as int]));
                            } else {
                                assert(lex_lt(keys0[p as int], keys0[k]));
                            }
                            lemma_lex_trichotomy(keys0[k], keys0[p as int]);
                        }
                        assert(before[k].0@ == keys0[k]);
                    }
                }
            }
        } else {
            proof {
                if p < before.len() {
                    lemma_lex_trichotomy(keys0[p as int], ev);
                    assert(!lex_lt(keys0[p as int], ev));
                    assert(lex_lt(ev, keys0[p as int]));
                }
            }
            let key = copy_list(e);
            t.insert(p, (key, 1));
            proof {
                let keys1 = tally_keys(t@);
                assert(keys1 =~= keys0.insert(p as int, ev));
                assert forall|x: int, y: int| 0 <= x < y < keys1.len() implies lex_lt(#[trigger] keys1[x], #[trigger] keys1[y]) by {
                    if y < p {
                        assert(keys1[x] == keys0[x] && keys1[y] == keys0[y]);
                    } else if y == p {
                        assert(keys1[x] == keys0[x]);
                    } else if x == p {
                        assert(keys1[y] == keys0[y - 1]);
                        if y - 1 > p {
                            assert(lex_lt(keys0[p as int], keys0[y - 1]));
                            lemma_lex_transitive(ev, keys0[p as int], keys0[y - 1]);
                        }
                    } else if x < p {
                        assert(keys1[x] == keys0[x] && keys1[y] == keys0[y - 1]);
                        assert(lex_lt(keys0[x], keys0[y - 1]));
                    } else {
                        assert(keys1[x] == keys0[x - 1] && keys1[y] == keys0[y - 1]);
                    }
                }
                assert forall|x: Seq<usize>| count_of(all.take(i as int), x) > 0 implies x != ev by {
                    if x == ev {
                        assert(keys0.contains(ev));
                        let q = choose|q: int| 0 <= q < keys0.len() && keys0[q] == ev;
                        if q < p {
                            assert(lex_lt(keys0[q], ev));
                            lemma_lex_trichotomy(ev, ev);
                        } else {
                            assert(q == p || lex_lt(keys0[p as int], keys0[q]));
                            if q != p {
                                lemma_lex_transitive(ev, keys0[p as int], keys0[q]);
                                lemma_lex_trichotomy(ev, ev);
                            }
                        }
                    }
                }
                lemma_count_step(all, i as int, ev);
                assert forall|k: int| 0 <= k < t@.len() implies (#[trigger] t@[k]).1 as nat == count_of(all.take(i + 1), t@[k].0@) && t@[k].1 >= 1 by {
                    if k < p {
                        assert(t@[k] == before[k]);
                        assert(keys0[k] != ev) by {
                            lemma_lex_trichotomy(ev, ev);
                        }
                        assert(before[k].0@ == keys0[k]);
                    } else if k > p {
                        assert(t@[k] == before[k - 1]);
                        assert(keys0[k - 1] != ev) by {
                            if k - 1 > p {
                                lemma_lex_transitive(ev, keys0[p as int], keys0[k - 1]);
                            }
                            lemma_lex_trichotomy(ev, ev);
                        }
                        assert(before[k - 1].0@ == keys0[k - 1]);
                    } else {
                        assert(count_of(all.take(i as int), ev) == 0);
                    }
                }
            }
        }
        proof {
            let keys1 = tally_keys(t@);
            assert forall|x: Seq<usize>| #[trigger] keys0.contains(x) implies keys1.contains(x) by {
                let q = choose|q: int| 0 <= q < keys0.len() && keys0[q] == x;
                if equal {
                    assert(keys1[q] == x);
                } else if q < p {
                    assert(keys1[q] == x);
                } else {
                    assert(keys1[q + 1] == x);
                }
            }
            assert(keys1.contains(ev)) by {
                assert(keys1[p as int] == ev);
            }
            assert forall|m: int| 0 <= m < i + 1 implies keys1.contains(#[trigger] all[m]) by {
                if m < i {
                    assert(keys0.contains(all[m]));
                }
            }
            assert forall|x: Seq<usize>| count_of(all.take(i + 1), x) > 0 implies #[trigger] keys1.contains(x) by {
                if x != ev {
                    assert(keys0.contains(x));
                }
            }
        }
        i += 1;
    }
    proof {
        assert(all.take(i as int) =~= all);
    }
    t
}

} // verus!
