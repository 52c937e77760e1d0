//! Latin squares drawn by a seeded random search.
use vstd::prelude::*;
use crate::bitset::BitSet16;
use crate::completion::{candidates, row_holds, col_holds};
use crate::constraints::ConstraintsDyn;
use crate::latin_square_dyn::LatinSquareDyn;
use crate::set_util::set_min;

verus! {

/// `x` rotated left by `k` bits (0 < k < 64).
pub open spec fn rotl(x: u64, k: u64) -> u64 {
    (x << k) | (x >> (64 - k) as u64)
}

/// The number that the xoshiro256** generator hands out in state `s`.
pub open spec fn xoshiro_output(s: Seq<u64>) -> u64 {
    rotl(s[1].wrapping_mul(5), 7).wrapping_mul(9)
}

/// The state that follows `s`, as this generator steps it.
pub open spec fn xoshiro_next(s: Seq<u64>) -> Seq<u64> {
    seq![
        s[0] ^ s[1] ^ s[3],
        s[0] ^ s[1] ^ s[2],
        s[2] ^ s[0] ^ (s[1] << 17u64),
        rotl(s[3] ^ s[1], 45),
    ]
}

/// The state after k steps of the generator.
pub open spec fn xoshiro_steps(s: Seq<u64>, k: nat) -> Seq<u64>
    decreases k,
{
    if k == 0 {
        s
    } else {
        xoshiro_next(xoshiro_steps(s, (k - 1) as nat))
    }
}

/// The k-th smallest element of `s`, counting from 0.
pub open spec fn nth_smallest(s: Set<int>, k: nat) -> int
    decreases k,
{
    if k == 0 {
        set_min(s)
    } else {
        nth_smallest(s.remove(set_min(s)), (k - 1) as nat)
    }
}

/// `x` rotated left by `k` bits.
fn rotate_left(x: u64, k: u32) -> (r: u64)
    requires
        0 < k < 64,
    ensures
        r == rotl(x, k as u64),
{
    let back: u32 = 64 - k;
    let r = (x << k) | (x >> back);
    assert(r == rotl(x, k as u64)) by (bit_vector)
        requires
            r == (x << k) | (x >> back),
            back == 64 - k,
            0 < k < 64,
    ;
    r
}

/// The k-th smallest element of the set.
fn nth_element(set: BitSet16, k: usize) -> (r: usize)
    requires
        k < set@.len(),
    ensures
        r as int == nth_smallest(set@, k as nat),
        set@.contains(r as int),
{
    proof {
        set.lemma_view();
    }
    let mut it = set.iter();
    let mut step: usize = 0;
    while step < k
        invariant
            step <= k < set@.len(),
            set@.finite(),
            it@.finite(),
            it@.len() == set@.len() - step,
            it@.subset_of(set@),
            nth_smallest(set@, k as nat) == nth_smallest(it@, (k - step) as nat),
        decreases k - step,
    {
        proof {
            if it@ == Set::<int>::empty() {
                assert(it@.len() == 0);
            }
        }
        let _ = it.next();
        step += 1;
    }
    proof {
        if it@ == Set::<int>::empty() {
            assert(it@.len() == 0);
        }
    }
    let ghost rest = it@;
    match it.next() {
        Some(e) => e,
        None => {
            assert(false);
            0
        },
    }
}

/// Draws Latin squares of order n by a random search seeded by a number.
pub struct RandomLatinSquareGeneratorDyn {
    n: usize,
    random_state: [u64; 4],
}

impl RandomLatinSquareGeneratorDyn {
    /// The order of the squares.
    pub closed spec fn order(&self) -> nat {
        self.n as nat
    }

    /// The state of the random number generator.
    pub closed spec fn state(&self) -> Seq<u64> {
        self.random_state@
    }

    /// A generator of squares of order n whose random numbers start from `seed`.
    pub fn new(n: usize, seed: u64) -> (r: Self)
        ensures
            r.order() == n,
            r.state() == seq![seed, 1u64, 2u64, 3u64],
    {
        let r = RandomLatinSquareGeneratorDyn { n, random_state: [seed, 1, 2, 3] };
        assert(r.random_state@ =~= seq![seed, 1u64, 2u64, 3u64]);
        r
    }

    /// One step of xoshiro256**: the number handed out and the next state.
    fn xoshiro(state: [u64; 4]) -> (r: (u64, [u64; 4]))
        ensures
            r.0 == xoshiro_output(state@),
            r.1@ == xoshiro_next(state@),
    {
        let result = rotate_left(state[1].wrapping_mul(5), 7).wrapping_mul(9);
        let new_state = [
            state[0] ^ state[1] ^ state[3],
            state[0] ^ state[1] ^ state[2],
            state[2] ^ state[0] ^ (state[1] << 17),
            rotate_left(state[3] ^ state[1], 45),
        ];
        assert(new_state@ =~= xoshiro_next(state@));
        (result, new_state)
    }

    /// The next random number.
    fn next_random(&mut self) -> (r: u64)
        ensures
            final(self).order() == old(self).order(),
            r == xoshiro_output(old(self).state()),
            final(self).state() == xoshiro_next(old(self).state()),
    {
        let (result, next_state) = Self::xoshiro(self.random_state);
        self.random_state = next_state;
        result
    }

    /// A random index below the order.
    fn random_index(&mut self) -> (r: usize)
        requires
            old(self).order() >= 1,
        ensures
            final(self).order() == old(self).order(),
            final(self).state() == xoshiro_next(old(self).state()),
            r == (xoshiro_output(old(self).state()) as usize) % (old(self).order() as usize),
            r < old(self).order(),
    {
        (#[verifier::truncate] (self.next_random() as usize)) % self.n
    }

    /// The next square: cells are filled one at a time with a random candidate at a random
    /// empty cell, the forced entries are filled after each step, and the search starts
    /// over when a cell is left without candidates. `None` only when u64::MAX steps
    /// have gone by without a square, each of which drew at least one random number.
    pub fn next(&mut self) -> (r: Option<LatinSquareDyn>)
        requires
            1 <= old(self).order() <= 16,
        ensures
            final(self).order() == old(self).order(),
            r matches Some(sq) ==> sq.order() == old(self).order(),
            exists|k: nat| k >= 2 && final(self).state() == #[trigger] xoshiro_steps(old(self).state(), k)
                && (r is None ==> k >= u64::MAX),
    {
        let n = self.n;
        let ghost s0 = self.state();
        let first = self.random_index();
        let second = self.random_index();
        let ghost mut steps: nat = 2;
        proof {
            reveal_with_fuel(xoshiro_steps, 3);
        }
        let start = ConstraintsDyn::new(n);
        proof {
            let g = start.partial();
            assert(!row_holds(g, n as nat, first as int, 0));
            assert(!col_holds(g, n as nat, second as int, 0));
            assert(candidates(g, n as nat, first as int, second as int).contains(0));
        }
        let mut stack: Vec<(ConstraintsDyn, usize, usize)> = Vec::new();
        stack.push((start, first, second));
        let mut budget: u64 = u64::MAX;
        while budget > 0
            invariant
                1 <= n <= 16,
                self.order() == n,
                n == old(self).order(),
                stack@.len() >= 1,
                stack@.last().0.order() == n,
                stack@.last().1 < n,
                stack@.last().2 < n,
                stack@.last().0.partial()[stack@.last().1 as int][stack@.last().2 as int] is None,
                !candidates(stack@.last().0.partial(), n as nat, stack@.last().1 as int, stack@.last().2 as int).is_empty(),
                old(self).state() == s0,
                steps >= 2,
                self.state() == xoshiro_steps(s0, steps),
                u64::MAX - budget <= steps,
            decreases budget,
        {
            budget -= 1;
            let top = stack.len() - 1;
            let constraints = stack[top].0.clone();
            let i = stack[top].1;
            let j = stack[top].2;
            let values = constraints.get_possibilities(i, j);
            proof {
                values.lemma_view();
                let v = values@.choose();
                assert(values@.contains(v));
                assert(values@.len() > 0);
            }
            let draw = (#[verifier::truncate] (self.next_random() as usize)) % values.len();
            proof {
                steps = steps + 1;
            }
            let value = nth_element(values, draw);
            let mut new = constraints.clone();
            proof {
                use_type_invariant(&new);
                ConstraintsDyn::lemma_wf(&new);
            }
            new.set(i, j, value);
            new.find_singles();
            if new.is_solved() {
                proof {
                    use_type_invariant(&new);
                    ConstraintsDyn::lemma_wf(&new);
                }
                assert(self.state() == xoshiro_steps(old(self).state(), steps));
                return Some(LatinSquareDyn::from_filled(new.partial_sq()));
            }
            if new.is_solvable() {
                let mut ci = self.random_index();
                let mut cj = self.random_index();
                proof {
                    steps = steps + 2;
                    assert(xoshiro_steps(s0, (steps - 1) as nat) == xoshiro_next(xoshiro_steps(s0, (steps - 2) as nat)));
                }
                let ghost before = budget;
                while new.is_set(ci, cj) && budget > 0
                    invariant
                        budget <= before,
                        1 <= n <= 16,
                        self.order() == n,
                        new.order() == n,
                        ci < n,
                        cj < n,
                        old(self).state() == s0,
                        steps >= 2,
                        self.state() == xoshiro_steps(s0, steps),
                        u64::MAX - budget <= steps,
                    decreases budget,
                {
                    budget -= 1;
                    ci = self.random_index();
                    cj = self.random_index();
                    proof {
                        steps = steps + 2;
                        assert(xoshiro_steps(s0, (steps - 1) as nat) == xoshiro_next(xoshiro_steps(s0, (steps - 2) as nat)));
                    }
                }
                if new.is_set(ci, cj) {
                    assert(self.state() == xoshiro_steps(old(self).state(), steps));
                    return None;
                }
                stack.push((new, ci, cj));
                continue;
            }
            stack.clear();
            let fresh = ConstraintsDyn::new(n);
            let a = self.random_index();
            let b = self.random_index();
            proof {
                steps = steps + 2;
                assert(xoshiro_steps(s0, (steps - 1) as nat) == xoshiro_next(xoshiro_steps(s0, (steps - 2) as nat)));
                let g = fresh.partial();
                assert(!row_holds(g, n as nat, a as int, 0));
                assert(!col_holds(g, n as nat, b as int, 0));
                assert(candidates(g, n as nat, a as int, b as int).contains(0));
            }
            stack.push((fresh, a, b));
        }
        assert(self.state() == xoshiro_steps(old(self).state(), steps));
        None
    }
}

} // verus!
