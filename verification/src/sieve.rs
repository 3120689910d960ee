//! The Sieve of Eratosthenes over a bit-packed store, scanning odd numbers only.

use crate::bit_array::BitArray;
use crate::primes::{
    is_prime,
    lemma_between_multiples,
    lemma_even_is_composite,
    lemma_primes_below_contains,
    lemma_primes_below_increasing,
    lemma_primes_below_len,
    lemma_struck_below,
    lemma_struck_is_composite,
    lemma_struck_prime,
    lemma_struck_skip,
    lemma_unstruck_is_prime,
    prime_factor,
    primes_below,
    struck,
};
use vstd::arithmetic::div_mod::{lemma_mod_multiples_basic, lemma_small_mod};
use vstd::prelude::*;

verus! {

/// The number below which a finished sieve over `bound` numbers has found
/// every prime: the bound itself, but at least 3, since the prime 2 is counted
/// from the start whatever the bound.
pub open spec fn reach(bound: nat) -> nat {
    if bound < 3 {
        3
    } else {
        bound
    }
}

/// Sets the flag of every positive multiple of `step` that the store has a
/// flag for, and of nothing else.
fn mark_multiples(bits: &mut BitArray, step: usize)
    requires
        old(bits).wf(),
        step > 0,
    ensures
        final(bits).wf(),
        final(bits)@.len() == old(bits)@.len(),
        forall|i: int|
            0 <= i < old(bits)@.len() ==> #[trigger] final(bits)@[i] == (old(bits)@[i] || (i > 0
                && i % (step as int) == 0)),
{
    let size: usize = bits.len();
    let mut range: usize = step;
    let ghost mut k: nat = 1;
    proof {
        assert forall|i: int| 0 <= i < size implies #[trigger] bits@[i] == (bits@[i] || (0 < i
            < step && i % (step as int) == 0)) by {
            if 0 < i < step {
                lemma_small_mod(i as nat, step as nat);
            }
        }
    }
    while range < size
        invariant
            bits.wf(),
            bits@.len() == size,
            old(bits)@.len() == size,
            step > 0,
            k >= 1,
            range >= step,
            range >= size || range == k * step,
            forall|i: int|
                0 <= i < size ==> #[trigger] bits@[i] == (old(bits)@[i] || (0 < i < range && i % (
                step as int) == 0)),
        decreases (if range < size { size - range } else { 0 }),
    {
        let ghost before = bits@;
        bits.set(range);
        let next: usize = range.saturating_add(step);
        proof {
            lemma_mod_multiples_basic(k as int, step as int);
            assert((k + 1) * step == k * step + step) by (nonlinear_arith);
            assert forall|i: int| 0 <= i < size implies #[trigger] bits@[i] == (old(bits)@[i] || (0
                < i < next && i % (step as int) == 0)) by {
                assert(before[i] == (old(bits)@[i] || (0 < i < range && i % (step as int) == 0)));
                if range < i < next {
                    lemma_between_multiples(k, step as nat, i as nat);
                }
            }
            k = k + 1;
        }
        range = next;
    }
}

/// A sieve over the numbers below a bound.  The store flags the numbers
/// struck so far, the cursor is the odd number to be looked at next, and the
/// primes below the cursor have been found and counted.
pub struct Sieve {
    bit_array: BitArray,
    index: usize,
    primes: Vec<usize>,
    num_primes: usize,
}

impl Sieve {
    /// The bound: the sieve looks for the primes below it.
    pub closed spec fn bound(&self) -> nat {
        self.bit_array@.len()
    }

    /// The scan cursor.
    pub closed spec fn cursor(&self) -> nat {
        self.index as nat
    }

    /// The number of primes counted so far.
    pub closed spec fn count(&self) -> nat {
        self.num_primes as nat
    }

    /// The primes found so far, in the order in which they were found.
    pub closed spec fn found(&self) -> Seq<nat> {
        self.primes@.map_values(|p: usize| p as nat)
    }

    /// The flags of the store: `marks()[i]` says that `i` has been struck.
    pub closed spec fn marks(&self) -> Seq<bool> {
        self.bit_array@
    }

    /// The store itself is sound.
    pub closed spec fn store_wf(&self) -> bool {
        self.bit_array.wf()
    }

    /// What holds of a sieve between any two calls: the cursor is odd and has
    /// run at most one step past the bound; a number is struck exactly if it
    /// is a positive multiple of a prime below the cursor; and the primes
    /// found and counted are exactly those below the cursor.
    pub open spec fn wf(&self) -> bool {
        &&& self.store_wf()
        &&& self.marks().len() == self.bound()
        &&& self.cursor() >= 3
        &&& self.cursor() % 2 == 1
        &&& self.cursor() <= reach(self.bound()) + 1
        &&& forall|i: int|
            0 <= i < self.bound() ==> #[trigger] self.marks()[i] == struck(i as nat, self.cursor())
        &&& self.found() == primes_below(self.cursor())
        &&& self.count() == self.found().len()
    }

    /// A sieve over the numbers below `size`, with every even number from 2 on
    /// struck, the cursor at 3 and the prime 2 counted.
    pub fn new(size: usize) -> (sieve: Self)
        ensures
            sieve.wf(),
            sieve.bound() == size,
            sieve.cursor() == 3,
            sieve.count() == 1,
            sieve.found() == seq![2nat],
            forall|i: int|
                0 <= i < size ==> #[trigger] sieve.marks()[i] == (i >= 2 && i % 2 == 0),
    {
        let mut this = Self {
            bit_array: BitArray::new(size),
            index: 3,
            primes: vec![2],
            num_primes: 1,
        };
        mark_multiples(&mut this.bit_array, 2);
        proof {
            assert(is_prime(2));
            assert forall|i: int| 0 <= i < size implies #[trigger] this.marks()[i] == struck(
                i as nat,
                3,
            ) by {
                if i > 0 && i % 2 == 0 {
                    assert(prime_factor(2, i as nat));
                }
                if struck(i as nat, 3) {
                    let q = choose|q: nat| q < 3 && #[trigger] prime_factor(q, i as nat);
                    assert(q == 2);
                }
            }
            reveal_with_fuel(primes_below, 4);
            assert(primes_below(3) =~= seq![2nat]);
            assert(this.found() =~= seq![2nat]);
        }
        this
    }

    /// The bound.
    pub fn size(&self) -> (n: usize)
        ensures
            n == self.bound(),
    {
        self.bit_array.len()
    }

    /// The scan cursor.
    pub fn index(&self) -> (n: usize)
        ensures
            n == self.cursor(),
    {
        self.index
    }

    /// The number of primes counted so far.
    pub fn num_primes(&self) -> (n: usize)
        ensures
            n == self.count(),
    {
        self.num_primes
    }

    /// The primes found so far, in increasing order.
    pub fn primes(&self) -> (list: &Vec<usize>)
        ensures
            list@.map_values(|p: usize| p as nat) == self.found(),
    {
        &self.primes
    }

    /// Moves the cursor, two at a time, over the odd numbers below the bound
    /// that are struck, and returns where it stops: at the next prime, or at
    /// or past the bound when no prime is left.
    pub fn next_step(&mut self) -> (next: usize)
        requires
            old(self).wf(),
        ensures
            final(self).wf(),
            final(self).bound() == old(self).bound(),
            final(self).marks() == old(self).marks(),
            final(self).found() == old(self).found(),
            final(self).count() == old(self).count(),
            next == final(self).cursor(),
            next >= old(self).cursor(),
            next < final(self).bound() ==> !final(self).marks()[next as int] && is_prime(
                next as nat,
            ),
            forall|k: nat| old(self).cursor() <= k < next ==> !#[trigger] is_prime(k),
            forall|k: int|
                old(self).cursor() <= k < next && k % 2 == 1 ==> k < old(self).bound()
                    && #[trigger] old(self).marks()[k],
    {
        let size: usize = self.bit_array.len();
        while self.index < size && self.bit_array.get(self.index)
            invariant
                self.wf(),
                size == self.bound(),
                self.bit_array == old(self).bit_array,
                self.primes == old(self).primes,
                self.num_primes == old(self).num_primes,
                self.index >= old(self).index,
                forall|k: nat| old(self).cursor() <= k < self.index ==> !#[trigger] is_prime(k),
                forall|k: int|
                    old(self).cursor() <= k < self.index && k % 2 == 1 ==> k < size
                        && #[trigger] old(self).marks()[k],
            decreases (if self.index < size { size - self.index } else { 0 }),
        {
            proof {
                let at = self.index as nat;
                assert(self.marks()[at as int] == struck(at, at));
                lemma_struck_is_composite(at, at);
                lemma_even_is_composite(at + 1);
                assert forall|i: int| 0 <= i < size implies #[trigger] self.marks()[i] == struck(
                    i as nat,
                    at + 2,
                ) by {
                    lemma_struck_skip(i as nat, at);
                    lemma_struck_skip(i as nat, at + 1);
                }
                reveal_with_fuel(primes_below, 3);
                assert(primes_below(at + 2) == primes_below(at));
            }
            self.index += 2;
        }
        proof {
            let at = self.index as nat;
            if at < size {
                assert(self.marks()[at as int] == struck(at, at));
                lemma_unstruck_is_prime(at);
            }
        }
        self.index
    }

    /// Runs the sieve to its end: finds each prime from the cursor on, counts
    /// it and strikes its multiples.  Afterwards the primes found are exactly
    /// those below the bound (with the prime 2 counted in any case), and
    /// every number from 2 on is struck.
    pub fn evaluate(&mut self)
        requires
            old(self).wf(),
        ensures
            final(self).wf(),
            final(self).bound() == old(self).bound(),
            final(self).cursor() >= final(self).bound(),
            final(self).cursor() >= old(self).cursor(),
            final(self).count() >= old(self).count(),
            final(self).found() == primes_below(reach(final(self).bound())),
            final(self).count() == primes_below(reach(final(self).bound())).len(),
            forall|i: int|
                0 <= i < final(self).bound() ==> #[trigger] final(self).marks()[i] == (i >= 2),
    {
        let size: usize = self.bit_array.len();
        let mut next_prime: usize = self.next_step();
        while self.index < size
            invariant
                self.wf(),
                size == self.bound(),
                self.bound() == old(self).bound(),
                next_prime == self.index,
                next_prime < size ==> !self.marks()[next_prime as int] && is_prime(
                    next_prime as nat,
                ),
                self.index >= old(self).index,
                self.num_primes >= old(self).num_primes,
            decreases (if self.index < size { size - self.index } else { 0 }),
        {
            let ghost at = next_prime as nat;
            let ghost marked = self.marks();
            let ghost listed = self.found();
            proof {
                lemma_primes_below_len(at);
            }
            self.primes.push(next_prime);
            self.num_primes += 1;
            mark_multiples(&mut self.bit_array, next_prime);
            self.index += 2;
            proof {
                lemma_even_is_composite(at + 1);
                assert forall|i: int| 0 <= i < size implies #[trigger] self.marks()[i] == struck(
                    i as nat,
                    at + 2,
                ) by {
                    assert(marked[i] == struck(i as nat, at));
                    lemma_struck_prime(i as nat, at);
                    lemma_struck_skip(i as nat, at + 1);
                }
                reveal_with_fuel(primes_below, 3);
                assert(primes_below(at + 2) == listed.push(at));
                assert(self.found() =~= listed.push(at));
            }
            next_prime = self.next_step();
        }
        proof {
            let at = self.index as nat;
            if at == size + 1 && size > 2 {
                lemma_even_is_composite(size as nat);
                reveal_with_fuel(primes_below, 2);
            }
            assert(primes_below(at) == primes_below(reach(size as nat)));
            assert forall|i: int| 0 <= i < size implies #[trigger] self.marks()[i] == (i >= 2) by {
                lemma_struck_below(i as nat, at);
            }
        }
    }
}

/// From the bound 3 on, a finished sieve has counted exactly the primes below
/// its bound, as trial division finds them: a number is among those found
/// exactly if it is below the bound and nothing from 2 up to itself divides it.
pub proof fn lemma_count_matches_trial_division(sieve: Sieve, p: nat)
    requires
        sieve.bound() >= 3,
        sieve.found() == primes_below(reach(sieve.bound())),
        sieve.count() == primes_below(reach(sieve.bound())).len(),
    ensures
        sieve.count() == primes_below(sieve.bound()).len(),
        sieve.found().contains(p) <==> (p < sieve.bound() && is_prime(p)),
{
    lemma_primes_below_contains(sieve.bound(), p);
}

/// At any time the primes found stand in strictly increasing order, each of
/// them is a prime below the cursor, and there are as many as were counted.
pub proof fn lemma_found_in_order(sieve: Sieve, i: int, j: int)
    requires
        sieve.wf(),
        0 <= i < j < sieve.found().len(),
    ensures
        sieve.found()[i] < sieve.found()[j],
        is_prime(sieve.found()[j]),
        sieve.found()[j] < sieve.cursor(),
        j < sieve.count(),
{
    lemma_primes_below_increasing(sieve.cursor(), i, j);
    assert(sieve.found().contains(sieve.found()[j]));
    lemma_primes_below_contains(sieve.cursor(), sieve.found()[j]);
}

} // verus!
