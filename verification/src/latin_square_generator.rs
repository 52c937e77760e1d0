//! Depth-first enumeration of the Latin squares that complete a partial square.
use vstd::prelude::*;
use vstd::arithmetic::power::{pow, lemma_pow_positive, lemma_pow_adds, lemma_pow1};
use crate::constraints::{Constraints, ConstraintsDyn};
use crate::partial_latin_square_dyn::PartialLatinSquareDyn;
use crate::latin_square_dyn::LatinSquareDyn;
use crate::latin_square::LatinSquare;
use crate::partial_latin_square::{PartialLatinSquare, is_partial_latin};
use crate::completion::{candidates, extends, completes, entries_below, empty_cells, is_grid_of, all_filled, filled_values, placed, lemma_place, lemma_place_shrinks, lemma_extends_empty_cells, lemma_extends_trans, lemma_completes_extends, lemma_has_empty_cell, lemma_empty_cells_finite, lemma_filled_no_candidates, lemma_completion_candidate};
use crate::latin_square::is_latin;

verus! {

/// The digits read as a number in the given base, the first digit the most significant
/// of `width` digits.
pub open spec fn positional(digits: Seq<int>, base: int, width: nat) -> int
    decreases digits.len(),
{
    if digits.len() == 0 {
        0
    } else {
        positional(digits.drop_last(), base, width) + digits.last() * pow(base, (width - digits.len()) as nat)
    }
}

proof fn lemma_positional_nonneg(digits: Seq<int>, base: int, width: nat)
    requires
        base > 0,
        forall|d: int| 0 <= d < digits.len() ==> #[trigger] digits[d] >= 0,
    ensures
        positional(digits, base, width) >= 0,
    decreases digits.len(),
{
    if digits.len() > 0 {
        lemma_positional_nonneg(digits.drop_last(), base, width);
        lemma_pow_positive(base, (width - digits.len()) as nat);
        assert(digits.last() * pow(base, (width - digits.len()) as nat) >= 0) by (nonlinear_arith)
            requires
                digits.last() >= 0,
                pow(base, (width - digits.len()) as nat) > 0,
        ;
    }
}

/// Lowering the last digit of a search state and then adding a new full digit after it
/// lowers the number.
proof fn lemma_positional_step(digits: Seq<int>, x: int, width: nat, push: bool)
    requires
        digits.len() >= 1,
        digits.len() + 1 <= width,
        0 <= x < digits.last(),
    ensures
        ({
            let lowered = digits.update(digits.len() - 1, x);
            let next = if push { lowered.push(17) } else { lowered };
            positional(next, 18, width) < positional(digits, 18, width)
        }),
{
    let len = digits.len();
    let lowered = digits.update(len - 1, x);
    assert(lowered.drop_last() =~= digits.drop_last());
    let w = pow(18, (width - len) as nat);
    let w1 = pow(18, (width - len - 1) as nat);
    lemma_pow_positive(18, (width - len - 1) as nat);
    lemma_pow_adds(18, 1, (width - len - 1) as nat);
    lemma_pow1(18);
    assert(w == 18 * w1);
    assert(positional(lowered, 18, width) == positional(digits, 18, width) - (digits.last() - x) * w) by (nonlinear_arith)
        requires
            positional(lowered, 18, width) == positional(digits.drop_last(), 18, width) + x * w,
            positional(digits, 18, width) == positional(digits.drop_last(), 18, width) + digits.last() * w,
    ;
    if push {
        let next = lowered.push(17);
        assert(next.drop_last() =~= lowered);
        assert(positional(next, 18, width) == positional(lowered, 18, width) + 17 * w1);
        assert((digits.last() - x) * w >= 18 * w1) by (nonlinear_arith)
            requires
                digits.last() - x >= 1,
                w == 18 * w1,
                w1 > 0,
        ;
    } else {
        assert((digits.last() - x) * w >= w) by (nonlinear_arith)
            requires
                digits.last() - x >= 1,
                w > 0,
        ;
    }
}

/// Dropping a positive last digit lowers the number.
proof fn lemma_positional_pop(digits: Seq<int>, width: nat)
    requires
        digits.len() >= 1,
        digits.len() <= width,
        digits.last() >= 1,
    ensures
        positional(digits.drop_last(), 18, width) < positional(digits, 18, width),
{
    lemma_pow_positive(18, (width - digits.len()) as nat);
    assert(digits.last() * pow(18, (width - digits.len()) as nat) > 0) by (nonlinear_arith)
        requires
            digits.last() >= 1,
            pow(18, (width - digits.len()) as nat) > 0,
    ;
}

/// A search state: the constraints, the cell being tried, and the least value not tried yet.
pub type SearchEntry<const N: usize> = (Constraints<N>, usize, usize, usize);

/// The entry at depth `d` of a search that started from `init`.
pub open spec fn entry_ok<const N: usize>(e: SearchEntry<N>, init: Seq<Seq<Option<u8>>>, d: int) -> bool {
    &&& e.1 < N && e.2 < N
    &&& (e.0.partial()[e.1 as int][e.2 as int] is None || candidates(e.0.partial(), N as nat, e.1 as int, e.2 as int).is_empty())
    &&& e.3 <= 16
    &&& extends(e.0.partial(), init, N as nat)
    &&& empty_cells(e.0.partial(), N as nat).len() + d <= N * N
}

/// The digits that measure how much of the search is left: 17 minus each start value.
pub open spec fn search_digits<const N: usize>(stack: Seq<SearchEntry<N>>) -> Seq<int> {
    Seq::new(stack.len(), |d: int| 17 - stack[d].3)
}

/// The entry has `l` still ahead of it: its cell is empty, `l` completes its partial
/// square and puts in its cell a value not tried yet.
spec fn entry_covers<const N: usize>(e: SearchEntry<N>, l: Seq<Seq<u8>>) -> bool {
    &&& e.0.partial()[e.1 as int][e.2 as int] is None
    &&& completes(l, e.0.partial(), N as nat)
    &&& l[e.1 as int][e.2 as int] >= e.3
}

/// Some entry of the stack has `l` still ahead of it.
spec fn stack_covers<const N: usize>(stack: Seq<SearchEntry<N>>, l: Seq<Seq<u8>>) -> bool {
    exists|d: int| 0 <= d < stack.len() && #[trigger] entry_covers(stack[d], l)
}

/// `c`, deeper in the search than `p`, extends it and holds in `p`'s cell the value last
/// tried there.
spec fn chain_link<const N: usize>(p: SearchEntry<N>, c: SearchEntry<N>) -> bool {
    &&& extends(c.0.partial(), p.0.partial(), N as nat)
    &&& p.3 >= 1
    &&& c.0.partial()[p.1 as int][p.2 as int] == Some((p.3 - 1) as u8)
}

/// Each entry of the stack lies below every entry before it.
spec fn search_chain<const N: usize>(stack: Seq<SearchEntry<N>>) -> bool {
    forall|d: int, e: int| 0 <= d < e < stack.len() ==> #[trigger] chain_link(stack[d], stack[e])
}

/// The squares handed out complete `init`; no completion that an entry of the stack has
/// ahead has been handed out; and, unless `init` is full, every other completion has.
spec fn search_complete<const N: usize>(stack: Seq<SearchEntry<N>>, emitted: Set<Seq<Seq<u8>>>, init: Seq<Seq<Option<u8>>>) -> bool {
    &&& forall|l: Seq<Seq<u8>>| #[trigger] emitted.contains(l) ==> is_completion(l, init, N as nat)
    &&& forall|l: Seq<Seq<u8>>| #[trigger] is_completion(l, init, N as nat) ==> (stack_covers(stack, l) ==> !emitted.contains(l))
    &&& !all_filled(init, N as nat) ==> forall|l: Seq<Seq<u8>>| #[trigger] is_completion(l, init, N as nat)
        ==> (!stack_covers(stack, l) ==> emitted.contains(l))
}

/// Yields, one at a time, the Latin squares that complete its starting partial square.
pub struct LatinSquareGenerator<const N: usize> {
    stack: Vec<SearchEntry<N>>,
    initial: Ghost<Seq<Seq<Option<u8>>>>,
    emitted: Ghost<Set<Seq<Seq<u8>>>>,
}

impl<const N: usize> LatinSquareGenerator<N> {
    #[verifier::type_invariant]
    spec fn wf(&self) -> bool {
        &&& N <= 16
        &&& self.stack@.len() <= N * N
        &&& forall|d: int| 0 <= d < self.stack@.len() ==> #[trigger] entry_ok(self.stack@[d], self.initial@, d)
        &&& search_chain(self.stack@)
        &&& search_complete(self.stack@, self.emitted@, self.initial@)
    }

    /// The partial square the search started from.
    pub closed spec fn initial(&self) -> Seq<Seq<Option<u8>>> {
        self.initial@
    }

    /// The squares handed out so far.
    pub closed spec fn handed_out(&self) -> Set<Seq<Seq<u8>>> {
        self.emitted@
    }

    /// Enumerates the reduced Latin squares of order N.
    pub fn new() -> (r: Self)
        requires
            2 <= N <= 16,
        ensures
            r.initial() == crate::constraints::reduced_grid(N as nat, N as int),
            r.handed_out() == Set::<Seq<Seq<u8>>>::empty(),
    {
        let constraints = Constraints::<N>::new_reduced();
        proof {
            use_type_invariant(&constraints);
            Constraints::<N>::lemma_wf(&constraints);
            lemma_empty_cells_finite(constraints.partial(), N as nat);
            assert(extends(constraints.partial(), constraints.partial(), N as nat));
            assert(N * N >= 1) by (nonlinear_arith)
                requires
                    N >= 2,
            ;
        }
        let ghost init = constraints.partial();
        let mut stack: Vec<SearchEntry<N>> = Vec::new();
        stack.push((constraints, 1, 1, 0));
        proof {
            assert(init[1][1] is None);
            assert forall|l: Seq<Seq<u8>>| #[trigger] is_completion(l, init, N as nat)
                implies stack_covers(stack@, l) by {
                assert(entry_covers(stack@[0], l));
            }
        }
        LatinSquareGenerator { stack, initial: Ghost(init), emitted: Ghost(Set::empty()) }
    }

    /// Enumerates the Latin squares that complete `sq`.
    pub fn from_partial_sq(sq: &PartialLatinSquare<N>) -> (r: Self)
        requires
            1 <= N <= 16,
            is_partial_latin(sq@, N as nat),
            entries_below(sq@, N as nat),
        ensures
            r.initial() == sq@,
            r.handed_out() == Set::<Seq<Seq<u8>>>::empty(),
    {
        let constraints = Constraints::<N>::new_partial(sq);
        let index = match constraints.first_empty() {
            Some(index) => index,
            None => (0, 0),
        };
        proof {
            use_type_invariant(&constraints);
            Constraints::<N>::lemma_wf(&constraints);
            lemma_empty_cells_finite(constraints.partial(), N as nat);
            assert(extends(constraints.partial(), sq@, N as nat));
            assert(N * N >= 1) by (nonlinear_arith)
                requires
                    N >= 1,
            ;
            if constraints.partial()[index.0 as int][index.1 as int] is Some {
                lemma_filled_no_candidates(constraints.partial(), N as nat, index.0 as int, index.1 as int);
            }
        }
        let mut stack: Vec<SearchEntry<N>> = Vec::new();
        stack.push((constraints, index.0, index.1, 0));
        proof {
            if !all_filled(sq@, N as nat) {
                assert forall|l: Seq<Seq<u8>>| #[trigger] is_completion(l, sq@, N as nat)
                    implies stack_covers(stack@, l) by {
                    assert(entry_covers(stack@[0], l));
                }
            }
        }
        LatinSquareGenerator { stack, initial: Ghost(sq@), emitted: Ghost(Set::empty()) }
    }

    /// The next Latin square that completes the starting partial square, in the order
    /// of a depth-first search that tries the values of a cell in increasing order: one
    /// not handed out before. When none is left, every completion has been handed out,
    /// unless the starting square was full (it then yields nothing).
    pub fn next(&mut self) -> (r: Option<LatinSquare<N>>)
        ensures
            final(self).initial() == old(self).initial(),
            r matches Some(l) ==> completes(l@, old(self).initial(), N as nat),
            r matches Some(l) ==> !old(self).handed_out().contains(l@)
                && final(self).handed_out() == old(self).handed_out().insert(l@),
            r is None ==> final(self).handed_out() == old(self).handed_out(),
            r is None && !all_filled(old(self).initial(), N as nat) ==> forall|l: Seq<Seq<u8>>|
                #[trigger] is_completion(l, old(self).initial(), N as nat) ==> old(self).handed_out().contains(l),
            forall|l: Seq<Seq<u8>>| #[trigger] final(self).handed_out().contains(l)
                ==> is_completion(l, old(self).initial(), N as nat),
    {
        proof {
            use_type_invariant(&*self);
        }
        let ghost init = self.initial@;
        let ghost em = self.emitted@;
        let ghost nn = N as nat;
        let ghost all = Set::new(|l: Seq<Seq<u8>>| is_completion(l, init, nn));
        let mut taken = LatinSquareGenerator::<N> { stack: Vec::new(), initial: Ghost(init), emitted: Ghost(all) };
        std::mem::swap(&mut taken, self);
        let LatinSquareGenerator { stack: mut stack, initial: _, emitted: _ } = taken;
        while stack.len() > 0
            invariant
                N <= 16,
                nn == N as nat,
                stack@.len() <= N * N,
                forall|d: int| 0 <= d < stack@.len() ==> #[trigger] entry_ok(stack@[d], init, d),
                search_chain(stack@),
                search_complete(stack@, em, init),
                self.initial@ == init,
                old(self).initial() == init,
                old(self).handed_out() == em,
            decreases positional(search_digits(stack@), 18, (N * N + 1) as nat),
        {
            let top = stack.len() - 1;
            let entry = stack[top];
            let constraints = entry.0;
            let i = entry.1;
            let j = entry.2;
            let start = entry.3;
            let ghost s0 = stack@;
            proof {
                use_type_invariant(&constraints);
                Constraints::<N>::lemma_wf(&constraints);
                assert(entry_ok(stack@[top as int], init, top as int));
            }
            let ghost digits = search_digits(stack@);
            let values = constraints.get_possibilities(i, j);
            let mut it = values.iter();
            let mut advanced = false;
            proof {
                values.lemma_view();
            }
            loop
                invariant_except_break
                    stack@ == s0,
                    stack@.len() == top + 1,
                    stack@[top as int] == entry,
                    !advanced,
                    digits == search_digits(stack@),
                    forall|v: int| values@.contains(v) && !it@.contains(v) ==> v < start,
                invariant
                    N <= 16,
                    nn == N as nat,
                    forall|d: int| 0 <= d < stack@.len() ==> #[trigger] entry_ok(stack@[d], init, d),
                    s0.len() == top + 1,
                    s0[top as int] == entry,
                    search_chain(s0),
                    search_complete(s0, em, init),
                    forall|d: int| 0 <= d < s0.len() ==> #[trigger] entry_ok(s0[d], init, d),
                    self.initial@ == init,
                    old(self).initial() == init,
                    old(self).handed_out() == em,
                    it@.subset_of(values@),
                    it@.finite(),
                    values@ == candidates(constraints.partial(), N as nat, i as int, j as int),
                    entry == (constraints, i, j, start),
                    entry_ok(entry, init, top as int),
                    is_grid_of(constraints.partial(), N as nat),
                    entries_below(constraints.partial(), N as nat),
                    is_partial_latin(constraints.partial(), N as nat),
                    digits.len() == top + 1,
                    top + 1 <= N * N,
                    digits[top as int] == 17 - start,
                ensures
                    !advanced ==> stack@ == s0 && digits == search_digits(stack@),
                    !advanced ==> forall|v: int| values@.contains(v) ==> v < start,
                    advanced ==> stack@.len() <= N * N && positional(search_digits(stack@), 18, (N * N + 1) as nat) < positional(digits, 18, (N * N + 1) as nat),
                    advanced ==> search_chain(stack@) && search_complete(stack@, em, init),
                    forall|d: int| 0 <= d < stack@.len() ==> #[trigger] entry_ok(stack@[d], init, d),
                    self.initial@ == init,
                decreases it@.len(),
            {
                let ghost before_it = it@;
                let next_value = it.next();
                match next_value {
                    None => {
                        proof {
                            assert forall|v: int| values@.contains(v) implies v < start by {
                                assert(!before_it.contains(v));
                            }
                        }
                        break;
                    },
                    Some(value) => {
                        proof {
                            assert(before_it.contains(value as int));
                            assert(values@.contains(value as int));
                            values.lemma_view();
                        }
                        if value >= start {
                            proof {
                                assert forall|v: int| #[trigger] candidates(constraints.partial(), N as nat, i as int, j as int).contains(v)
                                    implies !(start <= v < value) by {
                                    if before_it.contains(v) {
                                        assert(value <= v);
                                    }
                                }
                                assert(constraints.partial()[i as int][j as int] is None);
                            }
                            let ghost old_stack = stack@;
                            stack.set(top, (constraints, i, j, value + 1));
                            let mut new = constraints;
                            proof {
                                lemma_place(constraints.partial(), N as nat, i as int, j as int, value as int);
                                lemma_place_shrinks(constraints.partial(), N as nat, i as int, j as int, value as int);
                            }
                            new.set(i, j, value);
                            let ghost after_set = new.partial();
                            new.find_singles();
                            let ghost q = new.partial();
                            let ghost s1 = stack@;
                            proof {
                                use_type_invariant(&new);
                                Constraints::<N>::lemma_wf(&new);
                                lemma_extends_empty_cells(new.partial(), after_set, N as nat);
                                lemma_extends_trans(new.partial(), after_set, constraints.partial(), N as nat);
                                lemma_extends_trans(new.partial(), constraints.partial(), init, N as nat);
                                assert(entry_ok(stack@[top as int], init, top as int));
                                assert forall|d: int| 0 <= d < stack@.len() implies #[trigger] entry_ok(stack@[d], init, d) by {
                                    if d != top {
                                        assert(stack@[d] == old_stack[d]);
                                    }
                                }
                                assert(search_digits(stack@) =~= digits.update(top as int, 17 - (value + 1)));
                                assert forall|d: int, e: int| 0 <= d < e < s1.len() implies #[trigger] chain_link(s1[d], s1[e]) by {
                                    assert(chain_link(s0[d], s0[e]));
                                }
                                assert forall|l: Seq<Seq<u8>>| #[trigger] is_completion(l, init, nn)
                                    implies entry_covers(s0[top as int], l) == (entry_covers(s1[top as int], l) || completes(l, q, nn)) by {
                                    lemma_advance(constraints.partial(), i as int, j as int, start as int, value as int, q, l, nn);
                                }
                                assert forall|l: Seq<Seq<u8>>| #[trigger] is_completion(l, init, nn)
                                    implies stack_covers(s0, l) == (stack_covers(s1, l) || completes(l, q, nn)) by {
                                    if stack_covers(s0, l) {
                                        let d = choose|d: int| 0 <= d < s0.len() && #[trigger] entry_covers(s0[d], l);
                                        if d < top {
                                            assert(entry_covers(s1[d], l));
                                        }
                                    }
                                    if stack_covers(s1, l) {
                                        let d = choose|d: int| 0 <= d < s1.len() && #[trigger] entry_covers(s1[d], l);
                                        if d < top {
                                            assert(entry_covers(s0[d], l));
                                        } else {
                                            assert(entry_covers(s0[top as int], l));
                                        }
                                    }
                                    if completes(l, q, nn) {
                                        assert(entry_covers(s0[top as int], l));
                                    }
                                }
                            }
                            match new.first_empty() {
                                Some((a, b)) => {
                                    let ghost lowered = stack@;
                                    let solvable = new.is_solvable();
                                    proof {
                                        lemma_has_empty_cell(new.partial(), N as nat, a as int, b as int);
                                    }
                                    if solvable {
                                        stack.push((new, a, b, 0));
                                        proof {
                                            let s2 = stack@;
                                            assert(search_digits(stack@) =~= search_digits(lowered).push(17));
                                            assert forall|d: int| 0 <= d < stack@.len() implies #[trigger] entry_ok(stack@[d], init, d) by {
                                                if d < top + 1 {
                                                    assert(stack@[d] == lowered[d]);
                                                }
                                            }
                                            assert forall|d: int, e: int| 0 <= d < e < s2.len() implies #[trigger] chain_link(s2[d], s2[e]) by {
                                                if e < top + 1 {
                                                    assert(chain_link(s1[d], s1[e]));
                                                } else if d < top {
                                                    assert(chain_link(s0[d], s0[top as int]));
                                                    lemma_extends_trans(q, constraints.partial(), s0[d].0.partial(), N as nat);
                                                    assert(s2[d] == s0[d]);
                                                    assert(entry_ok(s0[d], init, d));
                                                    assert(constraints.partial()[s0[d].1 as int][s0[d].2 as int] is Some);
                                                    assert(q[s0[d].1 as int][s0[d].2 as int] == constraints.partial()[s0[d].1 as int][s0[d].2 as int]);
                                                    assert(chain_link(s2[d], s2[e]));
                                                } else {
                                                    assert(after_set[i as int][j as int] is Some);
                                                    assert(after_set[i as int][j as int] == Some(value as u8));
                                                    assert(q[i as int][j as int] == Some(value as u8));
                                                    assert(s2[d] == s1[top as int]);
                                                    assert(chain_link(s2[d], s2[e]));
                                                }
                                            }
                                            assert forall|l: Seq<Seq<u8>>| #[trigger] is_completion(l, init, nn)
                                                implies stack_covers(s2, l) == stack_covers(s0, l) by {
                                                if stack_covers(s1, l) {
                                                    let d = choose|d: int| 0 <= d < s1.len() && #[trigger] entry_covers(s1[d], l);
                                                    assert(entry_covers(s2[d], l));
                                                }
                                                if completes(l, q, nn) {
                                                    assert(entry_covers(s2[top + 1], l));
                                                }
                                                if stack_covers(s2, l) {
                                                    let d = choose|d: int| 0 <= d < s2.len() && #[trigger] entry_covers(s2[d], l);
                                                    if d < top + 1 {
                                                        assert(entry_covers(s1[d], l));
                                                    }
                                                }
                                            }
                                        }
                                    } else {
                                        proof {
                                            assert forall|l: Seq<Seq<u8>>| #[trigger] is_completion(l, init, nn)
                                                implies stack_covers(s1, l) == stack_covers(s0, l) by {
                                                lemma_dead_end(q, l, nn);
                                            }
                                        }
                                    }
                                    proof {
                                        lemma_positional_step(digits, 17 - (value + 1), (N * N + 1) as nat, solvable);
                                    }
                                    advanced = true;
                                    break;
                                },
                                None => {
                                    let sq = new.into_latin_square();
                                    let ghost l0 = sq@;
                                    proof {
                                        lemma_completes_extends(sq@, new.partial(), init, N as nat);
                                        use_type_invariant(&sq);
                                        crate::latin_square::LatinSquare::<N>::lemma_latin(&sq);
                                        assert(is_completion(l0, init, nn));
                                        assert(stack_covers(s0, l0));
                                        assert(!em.contains(l0));
                                        assert forall|l: Seq<Seq<u8>>| #[trigger] is_completion(l, init, nn) && stack_covers(s1, l)
                                            implies l != l0 by {
                                            let d = choose|d: int| 0 <= d < s1.len() && #[trigger] entry_covers(s1[d], l);
                                            if l == l0 {
                                                if d < top {
                                                    assert(entry_ok(s0[d], init, d));
                                                    assert(chain_link(s1[d], s1[top as int]));
                                                    assert(s1[top as int].0.partial() == constraints.partial());
                                                    lemma_completes_extends(l0, q, constraints.partial(), nn);
                                                    assert(constraints.partial()[s1[d].1 as int][s1[d].2 as int] is Some);
                                                } else {
                                                    assert(after_set[i as int][j as int] is Some);
                                                    assert(q[i as int][j as int] == Some(value as u8));
                                                }
                                            }
                                        }
                                        assert forall|l: Seq<Seq<u8>>| #[trigger] is_completion(l, init, nn) && l != l0 && completes(l, q, nn)
                                            implies false by {
                                            lemma_filled_unique(l, q, nn);
                                        }
                                        assert forall|l: Seq<Seq<u8>>| #[trigger] em.insert(l0).contains(l) implies is_completion(l, init, nn) by {
                                            if l != l0 {
                                                assert(em.contains(l));
                                            }
                                        }
                                    }
                                    *self = LatinSquareGenerator { stack, initial: Ghost(init), emitted: Ghost(em.insert(l0)) };
                                    return Some(sq);
                                },
                            }
                        }
                    },
                }
            }
            if !advanced {
                let ghost full = stack@;
                stack.pop();
                proof {
                    assert(search_digits(stack@) =~= digits.drop_last());
                    assert(digits.last() == 17 - start);
                    lemma_positional_pop(digits, (N * N + 1) as nat);
                    assert forall|d: int| 0 <= d < stack@.len() implies #[trigger] entry_ok(stack@[d], init, d) by {
                        assert(stack@[d] == full[d]);
                    }
                    assert forall|d: int, e: int| 0 <= d < e < stack@.len() implies #[trigger] chain_link(stack@[d], stack@[e]) by {
                        assert(chain_link(full[d], full[e]));
                    }
                    assert forall|l: Seq<Seq<u8>>| #[trigger] is_completion(l, init, nn)
                        implies stack_covers(stack@, l) == stack_covers(full, l) by {
                        if constraints.partial()[i as int][j as int] is None {
                            lemma_exhausted(constraints.partial(), i as int, j as int, start as int, l, nn);
                        }
                        assert(!entry_covers(full[top as int], l));
                        if stack_covers(full, l) {
                            let d = choose|d: int| 0 <= d < full.len() && #[trigger] entry_covers(full[d], l);
                            assert(stack@[d] == full[d]);
                            assert(entry_covers(stack@[d], l));
                        }
                        if stack_covers(stack@, l) {
                            let d = choose|d: int| 0 <= d < stack@.len() && #[trigger] entry_covers(stack@[d], l);
                            assert(stack@[d] == full[d]);
                            assert(entry_covers(full[d], l));
                        }
                    }
                }
            }
            proof {
                assert forall|d: int| 0 <= d < search_digits(stack@).len() implies #[trigger] search_digits(stack@)[d] >= 0 by {
                    assert(entry_ok(stack@[d], init, d));
                }
                lemma_positional_nonneg(search_digits(stack@), 18, (N * N + 1) as nat);
            }
        }
        *self = LatinSquareGenerator { stack, initial: Ghost(init), emitted: Ghost(em) };
        None
    }
}
/// A search state of run-time order: the constraints, the cell being tried, and the
/// least value not tried yet.
pub type SearchEntryDyn = (ConstraintsDyn, usize, usize, usize);

/// The entry at depth `d` of a search of order n that started from `init`.
pub open spec fn entry_ok_dyn(e: SearchEntryDyn, init: Seq<Seq<Option<u8>>>, n: nat, d: int) -> bool {
    &&& e.0.order() == n
    &&& e.1 < n && e.2 < n
    &&& (e.0.partial()[e.1 as int][e.2 as int] is None || candidates(e.0.partial(), n, e.1 as int, e.2 as int).is_empty())
    &&& e.3 <= 16
    &&& extends(e.0.partial(), init, n)
    &&& empty_cells(e.0.partial(), n).len() + d <= n * n
}

/// The digits that measure how much of the search is left: 17 minus each start value.
pub open spec fn search_digits_dyn(stack: Seq<SearchEntryDyn>) -> Seq<int> {
    Seq::new(stack.len(), |d: int| 17 - stack[d].3)
}

/// The measure of a search state whose entries are all in order is not negative.
proof fn lemma_stack_nonneg(stack: Seq<SearchEntryDyn>, init: Seq<Seq<Option<u8>>>, n: nat)
    requires
        forall|d: int| 0 <= d < stack.len() ==> #[trigger] entry_ok_dyn(stack[d], init, n, d),
    ensures
        positional(search_digits_dyn(stack), 18, (n * n + 1) as nat) >= 0,
{
    assert forall|d: int| 0 <= d < search_digits_dyn(stack).len() implies #[trigger] search_digits_dyn(stack)[d] >= 0 by {
        assert(entry_ok_dyn(stack[d], init, n, d));
    }
    lemma_positional_nonneg(search_digits_dyn(stack), 18, (n * n + 1) as nat);
}

/// `l` is a Latin square of order n that completes `init`.
pub open spec fn is_completion(l: Seq<Seq<u8>>, init: Seq<Seq<Option<u8>>>, n: nat) -> bool {
    is_latin(l, n) && completes(l, init, n)
}

/// A Latin square that completes a full grid is the grid's values.
pub proof fn lemma_filled_unique(l: Seq<Seq<u8>>, p: Seq<Seq<Option<u8>>>, n: nat)
    requires
        is_latin(l, n),
        all_filled(p, n),
        completes(l, p, n),
    ensures
        l == filled_values(p, n),
{
    assert forall|i: int| 0 <= i < n implies #[trigger] l[i] =~= filled_values(p, n)[i] by {
        assert forall|j: int| 0 <= j < n implies l[i][j] == filled_values(p, n)[i][j] by {
            assert(p[i][j] is Some);
        }
    }
    assert(l =~= filled_values(p, n));
}

/// Trying `value` in the empty cell (i, j) of `p`, when no candidate lies between `start`
/// and `value`, splits the squares that put a value of at least `start` there into those
/// that put a larger value than `value` there and those that complete `q`, the grid
/// reached from placing `value`.
proof fn lemma_advance(
    p: Seq<Seq<Option<u8>>>,
    i: int,
    j: int,
    start: int,
    value: int,
    q: Seq<Seq<Option<u8>>>,
    l: Seq<Seq<u8>>,
    n: nat,
)
    requires
        is_grid_of(p, n),
        n <= 256,
        0 <= i < n,
        0 <= j < n,
        p[i][j] is None,
        0 <= value < n,
        start <= value,
        forall|v: int| #[trigger] candidates(p, n, i, j).contains(v) ==> !(start <= v < value),
        extends(q, placed(p, i, j, value), n),
        is_latin(l, n),
        completes(l, placed(p, i, j, value), n) ==> completes(l, q, n),
    ensures
        (completes(l, p, n) && l[i][j] >= start) == ((completes(l, p, n) && l[i][j] >= value + 1) || completes(l, q, n)),
{
    let t = placed(p, i, j, value);
    if completes(l, p, n) && l[i][j] >= start {
        lemma_completion_candidate(l, p, n, i, j);
        assert(candidates(p, n, i, j).contains(l[i][j] as int));
        if l[i][j] < value + 1 {
            assert(l[i][j] == value);
            assert forall|a: int, b: int| 0 <= a < n && 0 <= b < n && #[trigger] t[a][b] is Some implies t[a][b] == Some(l[a][b]) by {
                if a == i && b == j {
                } else {
                    assert(t[a][b] == p[a][b]);
                }
            }
        }
    }
    if completes(l, q, n) {
        lemma_completes_extends(l, q, t, n);
        assert(t[i][j] == Some(value as u8));
        assert forall|a: int, b: int| 0 <= a < n && 0 <= b < n && #[trigger] p[a][b] is Some implies p[a][b] == Some(l[a][b]) by {
            assert(t[a][b] == p[a][b]);
        }
    }
}

/// When every candidate of the empty cell (i, j) lies below `start`, no Latin square that
/// completes `p` puts a value of at least `start` there.
proof fn lemma_exhausted(p: Seq<Seq<Option<u8>>>, i: int, j: int, start: int, l: Seq<Seq<u8>>, n: nat)
    requires
        is_grid_of(p, n),
        n <= 256,
        0 <= i < n,
        0 <= j < n,
        p[i][j] is None,
        forall|v: int| #[trigger] candidates(p, n, i, j).contains(v) ==> v < start,
        is_latin(l, n),
    ensures
        !(completes(l, p, n) && l[i][j] >= start),
{
    if completes(l, p, n) {
        lemma_completion_candidate(l, p, n, i, j);
    }
}

/// A grid with an empty cell that has no candidate has no completion.
proof fn lemma_dead_end(q: Seq<Seq<Option<u8>>>, l: Seq<Seq<u8>>, n: nat)
    requires
        is_grid_of(q, n),
        n <= 256,
        is_latin(l, n),
        !(forall|x: int, y: int| 0 <= x < n && 0 <= y < n && #[trigger] q[x][y] is None
            ==> !candidates(q, n, x, y).is_empty()),
    ensures
        !completes(l, q, n),
{
    if completes(l, q, n) {
        let (x, y) = choose|x: int, y: int| 0 <= x < n && 0 <= y < n && #[trigger] q[x][y] is None
            && candidates(q, n, x, y).is_empty();
        lemma_completion_candidate(l, q, n, x, y);
        assert(candidates(q, n, x, y).contains(l[x][y] as int));
    }
}

/// The entry has `l` still ahead of it: `l` completes the entry's partial square and puts
/// in the entry's cell a value not tried yet.
spec fn entry_covers_dyn(e: SearchEntryDyn, l: Seq<Seq<u8>>, n: nat) -> bool {
    completes(l, e.0.partial(), n) && l[e.1 as int][e.2 as int] >= e.3
}

/// Some entry of the stack has `l` still ahead of it.
spec fn stack_covers_dyn(stack: Seq<SearchEntryDyn>, l: Seq<Seq<u8>>, n: nat) -> bool {
    exists|d: int| 0 <= d < stack.len() && #[trigger] entry_covers_dyn(stack[d], l, n)
}

/// `c`, deeper in the search than `p`, extends it and holds in `p`'s cell the value last
/// tried there.
spec fn chain_link_dyn(p: SearchEntryDyn, c: SearchEntryDyn, n: nat) -> bool {
    &&& extends(c.0.partial(), p.0.partial(), n)
    &&& p.3 >= 1
    &&& c.0.partial()[p.1 as int][p.2 as int] == Some((p.3 - 1) as u8)
}

/// Each entry of the stack lies below every entry before it.
spec fn search_chain_dyn(stack: Seq<SearchEntryDyn>, n: nat) -> bool {
    forall|d: int, e: int| 0 <= d < e < stack.len() ==> #[trigger] chain_link_dyn(stack[d], stack[e], n)
}

/// The cell of every entry is empty.
spec fn cells_empty_dyn(stack: Seq<SearchEntryDyn>, n: nat) -> bool {
    forall|d: int| 0 <= d < stack.len() ==> (#[trigger] stack[d]).0.partial()[stack[d].1 as int][stack[d].2 as int] is None
}

/// Every entry's cell is empty, but in a search whose first grid is full, which is then
/// the only entry and has tried nothing.
spec fn search_cells_dyn(stack: Seq<SearchEntryDyn>, n: nat) -> bool {
    stack.len() > 0 ==> if all_filled(stack[0].0.partial(), n) {
        stack.len() == 1 && stack[0].3 == 0
    } else {
        cells_empty_dyn(stack, n)
    }
}

/// The squares handed out complete `init`, and a completion of `init` has been handed
/// out exactly when no entry of the stack has it ahead.
spec fn search_complete_dyn(stack: Seq<SearchEntryDyn>, emitted: Set<Seq<Seq<u8>>>, init: Seq<Seq<Option<u8>>>, n: nat) -> bool {
    &&& forall|l: Seq<Seq<u8>>| #[trigger] emitted.contains(l) ==> is_completion(l, init, n)
    &&& forall|l: Seq<Seq<u8>>| #[trigger] is_completion(l, init, n) ==> (emitted.contains(l) <==> !stack_covers_dyn(stack, l, n))
}

/// No entry before the last has a square ahead that completes the last entry's grid.
proof fn lemma_chain_excludes(stack: Seq<SearchEntryDyn>, l: Seq<Seq<u8>>, n: nat, d: int)
    requires
        search_chain_dyn(stack, n),
        0 <= d < stack.len() - 1,
        completes(l, stack[stack.len() - 1].0.partial(), n),
        stack[d].1 < n,
        stack[d].2 < n,
        stack[d].3 <= 16,
    ensures
        !entry_covers_dyn(stack[d], l, n),
{
    assert(chain_link_dyn(stack[d], stack[stack.len() - 1], n));
}

/// A stack whose cells are all empty keeps the cell rule.
proof fn lemma_cells_rule(stack: Seq<SearchEntryDyn>, n: nat)
    requires
        cells_empty_dyn(stack, n),
        stack.len() > 0 ==> stack[0].1 < n && stack[0].2 < n,
    ensures
        search_cells_dyn(stack, n),
{
    if stack.len() > 0 {
        assert(stack[0].0.partial()[stack[0].1 as int][stack[0].2 as int] is None);
    }
}

/// Yields, one at a time, the Latin squares of run-time order that complete its
/// starting partial square.
pub struct LatinSquareGeneratorDyn {
    stack: Vec<SearchEntryDyn>,
    n: Ghost<nat>,
    initial: Ghost<Seq<Seq<Option<u8>>>>,
    emitted: Ghost<Set<Seq<Seq<u8>>>>,
}

impl LatinSquareGeneratorDyn {
    #[verifier::type_invariant]
    spec fn wf(&self) -> bool {
        &&& self.n@ <= 16
        &&& self.stack@.len() <= self.n@ * self.n@
        &&& forall|d: int| 0 <= d < self.stack@.len() ==> #[trigger] entry_ok_dyn(self.stack@[d], self.initial@, self.n@, d)
        &&& search_chain_dyn(self.stack@, self.n@)
        &&& search_cells_dyn(self.stack@, self.n@)
        &&& search_complete_dyn(self.stack@, self.emitted@, self.initial@, self.n@)
    }

    /// The order.
    pub closed spec fn order(&self) -> nat {
        self.n@
    }

    /// The partial square the search started from.
    pub closed spec fn initial(&self) -> Seq<Seq<Option<u8>>> {
        self.initial@
    }

    /// The squares handed out so far.
    pub closed spec fn handed_out(&self) -> Set<Seq<Seq<u8>>> {
        self.emitted@
    }

    /// The search is over.
    pub closed spec fn done(&self) -> bool {
        self.stack@.len() == 0
    }

    /// A number that bounds how much of the search is left; every square handed out lowers it.
    pub closed spec fn remaining(&self) -> int {
        positional(search_digits_dyn(self.stack@), 18, (self.n@ * self.n@ + 1) as nat)
    }

    proof fn lemma_remaining_nonneg(&self)
        requires
            self.wf(),
        ensures
            self.remaining() >= 0,
    {
        assert forall|d: int| 0 <= d < search_digits_dyn(self.stack@).len() implies #[trigger] search_digits_dyn(self.stack@)[d] >= 0 by {
            assert(entry_ok_dyn(self.stack@[d], self.initial@, self.n@, d));
        }
        lemma_positional_nonneg(search_digits_dyn(self.stack@), 18, (self.n@ * self.n@ + 1) as nat);
    }

    /// Enumerates the Latin squares of order n.
    pub fn new(n: usize) -> (r: Self)
        requires
            2 <= n <= 16,
        ensures
            r.order() == n,
            forall|i: int, j: int| 0 <= i < n && 0 <= j < n ==> #[trigger] r.initial()[i][j] is None,
            r.handed_out() == Set::<Seq<Seq<u8>>>::empty(),
    {
        let constraints = ConstraintsDyn::new(n);
        proof {
            use_type_invariant(&constraints);
            ConstraintsDyn::lemma_wf(&constraints);
            lemma_empty_cells_finite(constraints.partial(), n as nat);
            assert(extends(constraints.partial(), constraints.partial(), n as nat));
            assert(n * n >= 1) by (nonlinear_arith)
                requires
                    n >= 2,
            ;
        }
        let ghost init = constraints.partial();
        let mut stack: Vec<SearchEntryDyn> = Vec::new();
        stack.push((constraints, 1, 1, 0));
        proof {
            let nn = n as nat;
            assert(cells_empty_dyn(stack@, nn));
            lemma_cells_rule(stack@, nn);
            assert forall|l: Seq<Seq<u8>>| #[trigger] is_completion(l, init, nn)
                implies (Set::<Seq<Seq<u8>>>::empty().contains(l) <==> !stack_covers_dyn(stack@, l, nn)) by {
                assert(entry_covers_dyn(stack@[0], l, nn));
            }
        }
        LatinSquareGeneratorDyn { stack, n: Ghost(n as nat), initial: Ghost(init), emitted: Ghost(Set::empty()) }
    }

    /// Enumerates the Latin squares that complete `sq`.
    pub fn from_partial_sq(sq: &PartialLatinSquareDyn) -> (r: Self)
        requires
            1 <= sq.order() <= 16,
            is_partial_latin(sq.grid(), sq.order()),
            entries_below(sq.grid(), sq.order()),
        ensures
            r.order() == sq.order(),
            r.initial() == sq.grid(),
            r.remaining() >= 0,
            r.handed_out() == Set::<Seq<Seq<u8>>>::empty(),
    {
        let mut constraints = ConstraintsDyn::new_partial(sq);
        let ghost start_grid = constraints.partial();
        constraints.find_singles();
        let n = constraints.n();
        let index = match constraints.first_empty() {
            Some(index) => index,
            None => (0, 0),
        };
        proof {
            use_type_invariant(&constraints);
            ConstraintsDyn::lemma_wf(&constraints);
            lemma_empty_cells_finite(constraints.partial(), n as nat);
            assert(n * n >= 1) by (nonlinear_arith)
                requires
                    n >= 1,
            ;
            if constraints.partial()[index.0 as int][index.1 as int] is Some {
                lemma_filled_no_candidates(constraints.partial(), n as nat, index.0 as int, index.1 as int);
            }
        }
        let mut stack: Vec<SearchEntryDyn> = Vec::new();
        stack.push((constraints, index.0, index.1, 0));
        proof {
            let nn = n as nat;
            let init = sq.grid();
            if !all_filled(stack@[0].0.partial(), nn) {
                assert(cells_empty_dyn(stack@, nn));
            }
            assert forall|l: Seq<Seq<u8>>| #[trigger] is_completion(l, init, nn)
                implies (Set::<Seq<Seq<u8>>>::empty().contains(l) <==> !stack_covers_dyn(stack@, l, nn)) by {
                assert(is_latin(l, nn) && completes(l, start_grid, nn));
                assert(completes(l, constraints.partial(), nn));
                assert(entry_covers_dyn(stack@[0], l, nn));
            }
        }
        let r = LatinSquareGeneratorDyn { stack, n: Ghost(n as nat), initial: Ghost(sq.grid()), emitted: Ghost(Set::empty()) };
        proof {
            use_type_invariant(&r);
            r.lemma_remaining_nonneg();
        }
        r
    }

    /// The next Latin square that completes the starting partial square, in the order
    /// of a depth-first search that tries the values of a cell in increasing order: one
    /// not handed out before; when none is left, every completion has been handed out.
    pub fn next(&mut self) -> (r: Option<LatinSquareDyn>)
        ensures
            final(self).initial() == old(self).initial(),
            final(self).order() == old(self).order(),
            r matches Some(l) ==> l.order() == old(self).order() && completes(l.square(), old(self).initial(), old(self).order()),
            r matches Some(l) ==> !old(self).handed_out().contains(l.square())
                && final(self).handed_out() == old(self).handed_out().insert(l.square()),
            r is None ==> final(self).handed_out() == old(self).handed_out(),
            r is None ==> forall|l: Seq<Seq<u8>>| #[trigger] is_completion(l, old(self).initial(), old(self).order())
                ==> old(self).handed_out().contains(l),
            r is None ==> final(self).done(),
            old(self).done() ==> r is None,
            forall|l: Seq<Seq<u8>>| #[trigger] final(self).handed_out().contains(l)
                ==> is_completion(l, old(self).initial(), old(self).order()),
            final(self).remaining() >= 0,
            final(self).remaining() <= old(self).remaining(),
            r is Some ==> final(self).remaining() < old(self).remaining(),
    {
        proof {
            use_type_invariant(&*self);
            self.lemma_remaining_nonneg();
        }
        let ghost init = self.initial@;
        let ghost n = self.n@;
        let ghost m0 = self.remaining();
        let ghost em = self.emitted@;
        let ghost all = Set::new(|l: Seq<Seq<u8>>| is_completion(l, init, n));
        let mut taken = LatinSquareGeneratorDyn { stack: Vec::new(), n: Ghost(n), initial: Ghost(init), emitted: Ghost(all) };
        std::mem::swap(&mut taken, self);
        let LatinSquareGeneratorDyn { stack: mut stack, n: _, initial: _, emitted: _ } = taken;
        if stack.len() == 0 {
            *self = LatinSquareGeneratorDyn { stack, n: Ghost(n), initial: Ghost(init), emitted: Ghost(em) };
            return None;
        }
        if stack[0].0.is_solved() {
            let ghost full = stack@;
            proof {
                assert(entry_ok_dyn(full[0], init, n, 0));
                assert(full.len() == 1);
            }
            let last = stack.pop();
            proof {
                assert(search_digits_dyn(stack@) =~= search_digits_dyn(full).drop_last());
                assert(entry_ok_dyn(full[full.len() - 1], init, n, full.len() - 1));
                lemma_positional_pop(search_digits_dyn(full), (n * n + 1) as nat);
                lemma_stack_nonneg(stack@, init, n);
            }
            match last {
                Some(entry) => {
                    proof {
                        assert(entry == full[0]);
                        use_type_invariant(&entry.0);
                        ConstraintsDyn::lemma_wf(&entry.0);
                    }
                    if entry.0.is_solved() {
                        let sq = LatinSquareDyn::from_filled(entry.0.partial_sq());
                        let ghost l0 = sq.square();
                        proof {
                            lemma_completes_extends(l0, entry.0.partial(), init, n);
                            use_type_invariant(&sq);
                            LatinSquareDyn::lemma_latin(&sq);
                            assert(is_completion(l0, init, n));
                            assert(entry_covers_dyn(full[0], l0, n));
                            assert(stack_covers_dyn(full, l0, n));
                            assert(!em.contains(l0));
                            assert forall|l: Seq<Seq<u8>>| #[trigger] is_completion(l, init, n)
                                implies (em.insert(l0).contains(l) <==> !stack_covers_dyn(stack@, l, n)) by {
                                if !em.contains(l) {
                                    assert(stack_covers_dyn(full, l, n));
                                    let d = choose|d: int| 0 <= d < full.len() && #[trigger] entry_covers_dyn(full[d], l, n);
                                    assert(d == 0);
                                    lemma_filled_unique(l, entry.0.partial(), n);
                                    lemma_filled_unique(l0, entry.0.partial(), n);
                                }
                            }
                            assert forall|l: Seq<Seq<u8>>| #[trigger] em.insert(l0).contains(l) implies is_completion(l, init, n) by {
                                if l != l0 {
                                    assert(em.contains(l));
                                }
                            }
                        }
                        *self = LatinSquareGeneratorDyn { stack, n: Ghost(n), initial: Ghost(init), emitted: Ghost(em.insert(l0)) };
                        return Some(sq);
                    }
                    proof {
                        assert(false);
                    }
                    *self = LatinSquareGeneratorDyn { stack, n: Ghost(n), initial: Ghost(init), emitted: Ghost(em) };
                    return None;
                },
                None => {
                    proof {
                        assert(false);
                    }
                    *self = LatinSquareGeneratorDyn { stack, n: Ghost(n), initial: Ghost(init), emitted: Ghost(em) };
                    return None;
                },
            }
        }
        proof {
            assert(entry_ok_dyn(stack@[0], init, n, 0));
            assert(cells_empty_dyn(stack@, n));
        }
        while stack.len() > 0
            invariant
                n <= 16,
                stack@.len() <= n * n,
                forall|d: int| 0 <= d < stack@.len() ==> #[trigger] entry_ok_dyn(stack@[d], init, n, d),
                search_chain_dyn(stack@, n),
                cells_empty_dyn(stack@, n),
                search_complete_dyn(stack@, em, init, n),
                self.initial@ == init,
                old(self).initial() == init,
                old(self).order() == n,
                old(self).handed_out() == em,
                old(self).remaining() == m0,
                positional(search_digits_dyn(stack@), 18, (n * n + 1) as nat) <= m0,
            decreases positional(search_digits_dyn(stack@), 18, (n * n + 1) as nat),
        {
            let top = stack.len() - 1;
            let constraints = stack[top].0.clone();
            let i = stack[top].1;
            let j = stack[top].2;
            let start = stack[top].3;
            let ghost s0 = stack@;
            proof {
                use_type_invariant(&constraints);
                ConstraintsDyn::lemma_wf(&constraints);
                assert(entry_ok_dyn(stack@[top as int], init, n, top as int));
                assert(stack@[top as int].0.partial()[i as int][j as int] is None);
            }
            let ghost digits = search_digits_dyn(stack@);
            let values = constraints.get_possibilities(i, j);
            let mut it = values.iter();
            let mut advanced = false;
            proof {
                values.lemma_view();
            }
            loop
                invariant_except_break
                    stack@ == s0,
                    stack@.len() == top + 1,
                    stack@[top as int].0.partial() == constraints.partial(),
                    stack@[top as int].0.order() == constraints.order(),
                    stack@[top as int].1 == i,
                    stack@[top as int].2 == j,
                    stack@[top as int].3 == start,
                    !advanced,
                    digits == search_digits_dyn(stack@),
                    forall|v: int| values@.contains(v) && !it@.contains(v) ==> v < start,
                invariant
                    n <= 16,
                    forall|d: int| 0 <= d < stack@.len() ==> #[trigger] entry_ok_dyn(stack@[d], init, n, d),
                    s0.len() == top + 1,
                    s0[top as int].0.partial() == constraints.partial(),
                    s0[top as int].1 == i,
                    s0[top as int].2 == j,
                    s0[top as int].3 == start,
                    search_chain_dyn(s0, n),
                    cells_empty_dyn(s0, n),
                    search_complete_dyn(s0, em, init, n),
                    forall|d: int| 0 <= d < s0.len() ==> #[trigger] entry_ok_dyn(s0[d], init, n, d),
                    self.initial@ == init,
                    old(self).initial() == init,
                    old(self).order() == n,
                    old(self).handed_out() == em,
                    old(self).remaining() == m0,
                    positional(digits, 18, (n * n + 1) as nat) <= m0,
                    it@.subset_of(values@),
                    it@.finite(),
                    constraints.order() == n,
                    values@ == candidates(constraints.partial(), n, i as int, j as int),
                    i < n && j < n,
                    constraints.partial()[i as int][j as int] is None,
                    start <= 16,
                    extends(constraints.partial(), init, n),
                    empty_cells(constraints.partial(), n).len() + top <= n * n,
                    is_grid_of(constraints.partial(), n),
                    entries_below(constraints.partial(), n),
                    is_partial_latin(constraints.partial(), n),
                    digits.len() == top + 1,
                    top + 1 <= n * n,
                    digits[top as int] == 17 - start,
                ensures
                    !advanced ==> stack@ == s0 && digits == search_digits_dyn(stack@),
                    !advanced ==> forall|v: int| values@.contains(v) ==> v < start,
                    advanced ==> stack@.len() <= n * n && positional(search_digits_dyn(stack@), 18, (n * n + 1) as nat) < positional(digits, 18, (n * n + 1) as nat),
                    advanced ==> search_chain_dyn(stack@, n) && cells_empty_dyn(stack@, n) && search_complete_dyn(stack@, em, init, n),
                    forall|d: int| 0 <= d < stack@.len() ==> #[trigger] entry_ok_dyn(stack@[d], init, n, d),
                    self.initial@ == init,
                decreases it@.len(),
            {
                let ghost before_it = it@;
                let next_value = it.next();
                match next_value {
                    None => {
                        proof {
                            assert forall|v: int| values@.contains(v) implies v < start by {
                                assert(!before_it.contains(v));
                            }
                        }
                        break;
                    },
                    Some(value) => {
                        proof {
                            assert(before_it.contains(value as int));
                            assert(values@.contains(value as int));
                            values.lemma_view();
                        }
                        if value >= start {
                            proof {
                                assert forall|v: int| #[trigger] candidates(constraints.partial(), n, i as int, j as int).contains(v)
                                    implies !(start <= v < value) by {
                                    if before_it.contains(v) {
                                        assert(value <= v);
                                    }
                                }
                            }
                            let ghost old_stack = stack@;
                            stack.set(top, (constraints.clone(), i, j, value + 1));
                            let mut new = constraints.clone();
                            proof {
                                lemma_place(constraints.partial(), n, i as int, j as int, value as int);
                                lemma_place_shrinks(constraints.partial(), n, i as int, j as int, value as int);
                            }
                            new.set(i, j, value);
                            let ghost after_set = new.partial();
                            new.find_singles();
                            let ghost q = new.partial();
                            let ghost s1 = stack@;
                            proof {
                                use_type_invariant(&new);
                                ConstraintsDyn::lemma_wf(&new);
                                lemma_extends_empty_cells(new.partial(), after_set, n);
                                lemma_extends_trans(new.partial(), after_set, constraints.partial(), n);
                                lemma_extends_trans(new.partial(), constraints.partial(), init, n);
                                assert(entry_ok_dyn(stack@[top as int], init, n, top as int));
                                assert forall|d: int| 0 <= d < stack@.len() implies #[trigger] entry_ok_dyn(stack@[d], init, n, d) by {
                                    if d != top {
                                        assert(stack@[d] == old_stack[d]);
                                    }
                                }
                                assert(search_digits_dyn(stack@) =~= digits.update(top as int, 17 - (value + 1)));
                                // the other entries and the links between them are those of s0
                                assert forall|d: int| 0 <= d < top implies #[trigger] s1[d] == s0[d] by {}
                                assert forall|d: int, e: int| 0 <= d < e < s1.len() implies #[trigger] chain_link_dyn(s1[d], s1[e], n) by {
                                    assert(chain_link_dyn(s0[d], s0[e], n));
                                }
                                assert(cells_empty_dyn(s1, n)) by {
                                    assert forall|d: int| 0 <= d < s1.len() implies (#[trigger] s1[d]).0.partial()[s1[d].1 as int][s1[d].2 as int] is None by {
                                        assert(s0[d].0.partial()[s0[d].1 as int][s0[d].2 as int] is None);
                                    }
                                }
                                // what the top entry had ahead is split between its new start and q
                                assert forall|l: Seq<Seq<u8>>| #[trigger] is_completion(l, init, n)
                                    implies entry_covers_dyn(s0[top as int], l, n) == (entry_covers_dyn(s1[top as int], l, n) || completes(l, q, n)) by {
                                    lemma_advance(constraints.partial(), i as int, j as int, start as int, value as int, q, l, n);
                                }
                                assert forall|l: Seq<Seq<u8>>| #[trigger] is_completion(l, init, n)
                                    implies stack_covers_dyn(s0, l, n) == (stack_covers_dyn(s1, l, n) || completes(l, q, n)) by {
                                    if stack_covers_dyn(s0, l, n) {
                                        let d = choose|d: int| 0 <= d < s0.len() && #[trigger] entry_covers_dyn(s0[d], l, n);
                                        if d < top {
                                            assert(entry_covers_dyn(s1[d], l, n));
                                        } else if entry_covers_dyn(s1[top as int], l, n) {
                                        }
                                    }
                                    if stack_covers_dyn(s1, l, n) {
                                        let d = choose|d: int| 0 <= d < s1.len() && #[trigger] entry_covers_dyn(s1[d], l, n);
                                        if d < top {
                                            assert(entry_covers_dyn(s0[d], l, n));
                                        } else {
                                            assert(entry_covers_dyn(s0[top as int], l, n));
                                        }
                                    }
                                    if completes(l, q, n) {
                                        assert(entry_covers_dyn(s0[top as int], l, n));
                                    }
                                }
                            }
                            if new.is_solved() {
                                let sq = LatinSquareDyn::from_filled(new.partial_sq());
                                let ghost l0 = sq.square();
                                proof {
                                    lemma_completes_extends(sq.square(), new.partial(), init, n);
                                    lemma_positional_step(digits, 17 - (value + 1), (n * n + 1) as nat, false);
                                    lemma_stack_nonneg(stack@, init, n);
                                    use_type_invariant(&sq);
                                    LatinSquareDyn::lemma_latin(&sq);
                                    assert(is_completion(l0, init, n));
                                    assert(stack_covers_dyn(s0, l0, n));
                                    assert(!em.contains(l0));
                                    assert(!stack_covers_dyn(s1, l0, n)) by {
                                        assert forall|d: int| 0 <= d < s1.len() implies !#[trigger] entry_covers_dyn(s1[d], l0, n) by {
                                            if d < top {
                                                assert(entry_ok_dyn(s0[d], init, n, d));
                                                lemma_chain_excludes(s1, l0, n, d);
                                            } else {
                                                assert(after_set[i as int][j as int] == Some(value as u8));
                                                assert(q[i as int][j as int] == Some(value as u8));
                                            }
                                        }
                                    }
                                    assert forall|l: Seq<Seq<u8>>| #[trigger] is_completion(l, init, n)
                                        implies (em.insert(l0).contains(l) <==> !stack_covers_dyn(s1, l, n)) by {
                                        if l != l0 && completes(l, q, n) {
                                            lemma_filled_unique(l, q, n);
                                        }
                                    }
                                    assert forall|l: Seq<Seq<u8>>| #[trigger] em.insert(l0).contains(l) implies is_completion(l, init, n) by {
                                        if l != l0 {
                                            assert(em.contains(l));
                                        }
                                    }
                                    assert(entry_ok_dyn(s1[0], init, n, 0));
                                    lemma_cells_rule(s1, n);
                                }
                                *self = LatinSquareGeneratorDyn { stack, n: Ghost(n), initial: Ghost(init), emitted: Ghost(em.insert(l0)) };
                                return Some(sq);
                            }
                            match new.first_empty() {
                                Some((a, b)) => {
                                    let ghost lowered = stack@;
                                    let solvable = new.is_solvable();
                                    proof {
                                        lemma_has_empty_cell(new.partial(), n, a as int, b as int);
                                    }
                                    if solvable {
                                        stack.push((new, a, b, 0));
                                        proof {
                                            let s2 = stack@;
                                            assert(search_digits_dyn(stack@) =~= search_digits_dyn(lowered).push(17));
                                            assert forall|d: int| 0 <= d < stack@.len() implies #[trigger] entry_ok_dyn(stack@[d], init, n, d) by {
                                                if d < top + 1 {
                                                    assert(stack@[d] == lowered[d]);
                                                }
                                            }
                                            assert forall|d: int, e: int| 0 <= d < e < s2.len() implies #[trigger] chain_link_dyn(s2[d], s2[e], n) by {
                                                if e < top + 1 {
                                                    assert(chain_link_dyn(s1[d], s1[e], n));
                                                } else if d < top {
                                                    assert(chain_link_dyn(s0[d], s0[top as int], n));
                                                    lemma_extends_trans(q, constraints.partial(), s0[d].0.partial(), n);
                                                    assert(s2[d] == s0[d]);
                                                    assert(entry_ok_dyn(s0[d], init, n, d));
                                                    assert(constraints.partial()[s0[d].1 as int][s0[d].2 as int] is Some);
                                                    assert(q[s0[d].1 as int][s0[d].2 as int] == constraints.partial()[s0[d].1 as int][s0[d].2 as int]);
                                                    assert(chain_link_dyn(s2[d], s2[e], n));
                                                } else {
                                                    assert(after_set[i as int][j as int] is Some);
                                                    assert(after_set[i as int][j as int] == Some(value as u8));
                                                    assert(q[i as int][j as int] == Some(value as u8));
                                                    assert(s2[d] == s1[top as int]);
                                                    assert(chain_link_dyn(s2[d], s2[e], n));
                                                }
                                            }
                                            assert(cells_empty_dyn(s2, n)) by {
                                                assert forall|d: int| 0 <= d < s2.len() implies (#[trigger] s2[d]).0.partial()[s2[d].1 as int][s2[d].2 as int] is None by {
                                                    if d < top + 1 {
                                                        assert(s2[d] == s1[d]);
                                                    }
                                                }
                                            }
                                            assert forall|l: Seq<Seq<u8>>| #[trigger] is_completion(l, init, n)
                                                implies (em.contains(l) <==> !stack_covers_dyn(s2, l, n)) by {
                                                if stack_covers_dyn(s1, l, n) {
                                                    let d = choose|d: int| 0 <= d < s1.len() && #[trigger] entry_covers_dyn(s1[d], l, n);
                                                    assert(entry_covers_dyn(s2[d], l, n));
                                                }
                                                if completes(l, q, n) {
                                                    assert(entry_covers_dyn(s2[top + 1], l, n));
                                                }
                                                if stack_covers_dyn(s2, l, n) {
                                                    let d = choose|d: int| 0 <= d < s2.len() && #[trigger] entry_covers_dyn(s2[d], l, n);
                                                    if d < top + 1 {
                                                        assert(entry_covers_dyn(s1[d], l, n));
                                                    }
                                                }
                                            }
                                        }
                                    } else {
                                        proof {
                                            assert forall|l: Seq<Seq<u8>>| #[trigger] is_completion(l, init, n)
                                                implies (em.contains(l) <==> !stack_covers_dyn(s1, l, n)) by {
                                                lemma_dead_end(q, l, n);
                                            }
                                        }
                                    }
                                    proof {
                                        lemma_positional_step(digits, 17 - (value + 1), (n * n + 1) as nat, solvable);
                                    }
                                    advanced = true;
                                    break;
                                },
                                None => {
                                    proof {
                                        assert(false);
                                    }
                                },
                            }
                        }
                    },
                }
            }
            if !advanced {
                let ghost full = stack@;
                stack.pop();
                proof {
                    assert(search_digits_dyn(stack@) =~= digits.drop_last());
                    assert(digits.last() == 17 - start);
                    lemma_positional_pop(digits, (n * n + 1) as nat);
                    assert forall|d: int| 0 <= d < stack@.len() implies #[trigger] entry_ok_dyn(stack@[d], init, n, d) by {
                        assert(stack@[d] == full[d]);
                    }
                    assert forall|d: int, e: int| 0 <= d < e < stack@.len() implies #[trigger] chain_link_dyn(stack@[d], stack@[e], n) by {
                        assert(chain_link_dyn(full[d], full[e], n));
                    }
                    assert(cells_empty_dyn(stack@, n)) by {
                        assert forall|d: int| 0 <= d < stack@.len() implies (#[trigger] stack@[d]).0.partial()[stack@[d].1 as int][stack@[d].2 as int] is None by {
                            assert(stack@[d] == full[d]);
                            assert(full[d].0.partial()[full[d].1 as int][full[d].2 as int] is None);
                        }
                    }
                    assert forall|l: Seq<Seq<u8>>| #[trigger] is_completion(l, init, n)
                        implies (em.contains(l) <==> !stack_covers_dyn(stack@, l, n)) by {
                        lemma_exhausted(constraints.partial(), i as int, j as int, start as int, l, n);
                        assert(!entry_covers_dyn(full[top as int], l, n));
                        if stack_covers_dyn(full, l, n) {
                            let d = choose|d: int| 0 <= d < full.len() && #[trigger] entry_covers_dyn(full[d], l, n);
                            assert(stack@[d] == full[d]);
                            assert(entry_covers_dyn(stack@[d], l, n));
                        }
                        if stack_covers_dyn(stack@, l, n) {
                            let d = choose|d: int| 0 <= d < stack@.len() && #[trigger] entry_covers_dyn(stack@[d], l, n);
                            assert(stack@[d] == full[d]);
                            assert(entry_covers_dyn(full[d], l, n));
                        }
                    }
                }
            }
            proof {
                assert forall|d: int| 0 <= d < search_digits_dyn(stack@).len() implies #[trigger] search_digits_dyn(stack@)[d] >= 0 by {
                    assert(entry_ok_dyn(stack@[d], init, n, d));
                }
                lemma_positional_nonneg(search_digits_dyn(stack@), 18, (n * n + 1) as nat);
            }
        }
        *self = LatinSquareGeneratorDyn { stack, n: Ghost(n), initial: Ghost(init), emitted: Ghost(em) };
        None
    }
}

/// All the Latin squares that complete `sq`, in the order of the search: each of them
/// once, and nothing else.
pub fn completions(sq: &PartialLatinSquareDyn) -> (r: Vec<LatinSquareDyn>)
    requires
        1 <= sq.order() <= 16,
        is_partial_latin(sq.grid(), sq.order()),
        entries_below(sq.grid(), sq.order()),
    ensures
        forall|k: int| 0 <= k < r@.len() ==> (#[trigger] r@[k]).order() == sq.order()
            && is_completion(r@[k].square(), sq.grid(), sq.order()),
        forall|a: int, b: int| 0 <= a < b < r@.len() ==> (#[trigger] r@[a]).square() != (#[trigger] r@[b]).square(),
        forall|l: Seq<Seq<u8>>| #[trigger] is_completion(l, sq.grid(), sq.order())
            ==> exists|k: int| 0 <= k < r@.len() && (#[trigger] r@[k]).square() == l,
{
    let ghost g = sq.grid();
    let ghost n = sq.order();
    let mut generator = LatinSquareGeneratorDyn::from_partial_sq(sq);
    let mut out: Vec<LatinSquareDyn> = Vec::new();
    loop
        invariant
            generator.initial() == g,
            generator.order() == n,
            generator.remaining() >= 0,
            forall|k: int| 0 <= k < out@.len() ==> (#[trigger] out@[k]).order() == n && is_completion(out@[k].square(), g, n),
            forall|a: int, b: int| 0 <= a < b < out@.len() ==> (#[trigger] out@[a]).square() != (#[trigger] out@[b]).square(),
            forall|l: Seq<Seq<u8>>| #[trigger] generator.handed_out().contains(l)
                <==> exists|k: int| 0 <= k < out@.len() && (#[trigger] out@[k]).square() == l,
        ensures
            forall|k: int| 0 <= k < out@.len() ==> (#[trigger] out@[k]).order() == n && is_completion(out@[k].square(), g, n),
            forall|a: int, b: int| 0 <= a < b < out@.len() ==> (#[trigger] out@[a]).square() != (#[trigger] out@[b]).square(),
            forall|l: Seq<Seq<u8>>| #[trigger] is_completion(l, g, n)
                ==> exists|k: int| 0 <= k < out@.len() && (#[trigger] out@[k]).square() == l,
        decreases generator.remaining(),
    {
        let ghost handed = generator.handed_out();
        match generator.next() {
            None => {
                proof {
                    assert forall|l: Seq<Seq<u8>>| #[trigger] is_completion(l, g, n)
                        implies exists|k: int| 0 <= k < out@.len() && (#[trigger] out@[k]).square() == l by {
                        assert(handed.contains(l));
                    }
                }
                break;
            },
            Some(l) => {
                let ghost before = out@;
                let ghost lsq = l.square();
                proof {
                    use_type_invariant(&l);
                    LatinSquareDyn::lemma_latin(&l);
                }
                out.push(l);
                proof {
                    assert forall|a: int, b: int| 0 <= a < b < out@.len() implies (#[trigger] out@[a]).square() != (#[trigger] out@[b]).square() by {
                        if b == before.len() {
                            assert(out@[a] == before[a]);
                            if before[a].square() == out@[b].square() {
                                assert(handed.contains(before[a].square()));
                            }
                        } else {
                            assert(out@[a] == before[a] && out@[b] == before[b]);
                        }
                    }
                    assert forall|k: int| 0 <= k < out@.len() implies (#[trigger] out@[k]).order() == n && is_completion(out@[k].square(), g, n) by {
                        if k < before.len() {
                            assert(out@[k] == before[k]);
                        }
                    }
                    assert forall|m: Seq<Seq<u8>>| #[trigger] generator.handed_out().contains(m)
                        <==> exists|k: int| 0 <= k < out@.len() && (#[trigger] out@[k]).square() == m by {
                        if handed.contains(m) {
                            let k = choose|k: int| 0 <= k < before.len() && (#[trigger] before[k]).square() == m;
                            assert(out@[k] == before[k]);
                        }
                        if m == lsq {
                            assert(out@[before.len() as int].square() == m);
                        }
                        if exists|k: int| 0 <= k < out@.len() && (#[trigger] out@[k]).square() == m {
                            let k = choose|k: int| 0 <= k < out@.len() && (#[trigger] out@[k]).square() == m;
                            if k < before.len() {
                                assert(out@[k] == before[k]);
                            }
                        }
                    }
                }
            },
        }
    }
    out
}

} // verus!
