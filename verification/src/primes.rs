//! Primality by trial division, and the facts about it that a sieve rests on.

use vstd::arithmetic::div_mod::{
    lemma_fundamental_div_mod,
    lemma_mod_multiples_basic,
    lemma_mod_multiples_vanish,
    lemma_small_mod,
};
use vstd::prelude::*;

verus! {

/// `n` is prime: at least 2, and no number from 2 up to `n - 1` divides it.
pub open spec fn is_prime(n: nat) -> bool {
    n >= 2 && forall|d: nat| 2 <= d < n ==> #[trigger] (n % d) != 0
}

/// The primes below `n`, in increasing order.
pub open spec fn primes_below(n: nat) -> Seq<nat>
    decreases n,
{
    if n == 0 {
        Seq::empty()
    } else if is_prime((n - 1) as nat) {
        primes_below((n - 1) as nat).push((n - 1) as nat)
    } else {
        primes_below((n - 1) as nat)
    }
}

/// `q` is a prime that divides `i`.
pub open spec fn prime_factor(q: nat, i: nat) -> bool {
    is_prime(q) && i % q == 0
}

/// `i` is a positive multiple of some prime below `k`: what a sieve has
/// marked once it has dealt with every prime below `k`.
pub open spec fn struck(i: nat, k: nat) -> bool {
    i > 0 && exists|q: nat| q < k && #[trigger] prime_factor(q, i)
}

/// Divisibility is transitive.
pub proof fn lemma_divides_transitive(q: nat, d: nat, n: nat)
    requires
        q > 0,
        d > 0,
        d % q == 0,
        n % d == 0,
    ensures
        n % q == 0,
{
    lemma_fundamental_div_mod(d as int, q as int);
    lemma_fundamental_div_mod(n as int, d as int);
    let a = d as int / q as int;
    let b = n as int / d as int;
    assert(n == (a * b) * q) by (nonlinear_arith)
        requires
            d == q * a,
            n == d * b,
    ;
    lemma_mod_multiples_basic(a * b, q as int);
}

/// Every number from 2 on has a prime factor, which is at most the number.
pub proof fn lemma_has_prime_factor(n: nat) -> (q: nat)
    requires
        n >= 2,
    ensures
        q <= n,
        prime_factor(q, n),
    decreases n,
{
    if is_prime(n) {
        assert(n % n == 0) by (nonlinear_arith)
            requires
                n > 0,
        ;
        n
    } else {
        let d = choose|d: nat| 2 <= d < n && #[trigger] (n % d) == 0;
        let q = lemma_has_prime_factor(d);
        lemma_divides_transitive(q, d, n);
        q
    }
}

/// A number from 2 on that is no multiple of a smaller prime is prime.
pub proof fn lemma_unstruck_is_prime(p: nat)
    requires
        p >= 2,
        !struck(p, p),
    ensures
        is_prime(p),
{
    if !is_prime(p) {
        let d = choose|d: nat| 2 <= d < p && #[trigger] (p % d) == 0;
        let q = lemma_has_prime_factor(d);
        lemma_divides_transitive(q, d, p);
        assert(q < p && prime_factor(q, p));
    }
}

/// A multiple of a prime below `k` that is itself at least `k` is not prime.
pub proof fn lemma_struck_is_composite(n: nat, k: nat)
    requires
        struck(n, k),
        k <= n,
    ensures
        !is_prime(n),
{
    let q = choose|q: nat| q < k && #[trigger] prime_factor(q, n);
    assert(n % q == 0);
}

/// An even number above 2 is not prime.
pub proof fn lemma_even_is_composite(n: nat)
    requires
        n > 2,
        n % 2 == 0,
    ensures
        !is_prime(n),
{
}

/// Every number from 2 on, below `k`, is a multiple of a prime below `k`;
/// 0 and 1 are multiples of none.
pub proof fn lemma_struck_below(i: nat, k: nat)
    requires
        i < k,
    ensures
        struck(i, k) == (i >= 2),
{
    if i >= 2 {
        let q = lemma_has_prime_factor(i);
        assert(q < k && prime_factor(q, i));
    } else if i == 1 {
        if struck(i, k) {
            let q = choose|q: nat| q < k && #[trigger] prime_factor(q, i);
            lemma_small_mod(1, q);
        }
    }
}

/// Passing a number that is not prime strikes nothing new.
pub proof fn lemma_struck_skip(i: nat, k: nat)
    requires
        !is_prime(k),
    ensures
        struck(i, k + 1) == struck(i, k),
{
    if struck(i, k + 1) {
        let q = choose|q: nat| q < k + 1 && #[trigger] prime_factor(q, i);
        assert(q < k && prime_factor(q, i));
    }
    if struck(i, k) {
        let q = choose|q: nat| q < k && #[trigger] prime_factor(q, i);
        assert(q < k + 1 && prime_factor(q, i));
    }
}

/// Passing a prime strikes its positive multiples, and nothing else.
pub proof fn lemma_struck_prime(i: nat, p: nat)
    requires
        is_prime(p),
    ensures
        struck(i, p + 1) == (struck(i, p) || (i > 0 && i % p == 0)),
{
    if struck(i, p + 1) {
        let q = choose|q: nat| q < p + 1 && #[trigger] prime_factor(q, i);
        if q < p {
            assert(q < p && prime_factor(q, i));
        }
    }
    if struck(i, p) {
        let q = choose|q: nat| q < p && #[trigger] prime_factor(q, i);
        assert(q < p + 1 && prime_factor(q, i));
    }
    if i > 0 && i % p == 0 {
        assert(p < p + 1 && prime_factor(p, i));
    }
}

/// Strictly between two neighbouring multiples of `step` lies no multiple of it.
pub proof fn lemma_between_multiples(k: nat, step: nat, i: nat)
    requires
        step > 0,
        k * step < i < k * step + step,
    ensures
        i % step != 0,
{
    let rest = i - k * step;
    assert(step * k == k * step) by (nonlinear_arith);
    lemma_mod_multiples_vanish(k as int, rest, step as int);
    lemma_small_mod(rest as nat, step);
}

/// There are at most `n` primes below `n`.
pub proof fn lemma_primes_below_len(n: nat)
    ensures
        primes_below(n).len() <= n,
    decreases n,
{
    if n > 0 {
        lemma_primes_below_len((n - 1) as nat);
    }
}

/// `primes_below(n)` holds each prime below `n`, and nothing else.
pub proof fn lemma_primes_below_contains(n: nat, p: nat)
    ensures
        primes_below(n).contains(p) <==> (p < n && is_prime(p)),
    decreases n,
{
    if n > 0 {
        let m = (n - 1) as nat;
        lemma_primes_below_contains(m, p);
        if is_prime(m) {
            let shorter = primes_below(m);
            assert(shorter.push(m)[shorter.len() as int] == m);
            if shorter.contains(p) {
                let j = choose|j: int| 0 <= j < shorter.len() && shorter[j] == p;
                assert(shorter.push(m)[j] == p);
            }
        }
    }
}

/// `primes_below(n)` is strictly increasing, so it holds no prime twice.
pub proof fn lemma_primes_below_increasing(n: nat, i: int, j: int)
    requires
        0 <= i < j < primes_below(n).len(),
    ensures
        primes_below(n)[i] < primes_below(n)[j],
    decreases n,
{
    let m = (n - 1) as nat;
    let shorter = primes_below(m);
    if j < shorter.len() {
        lemma_primes_below_increasing(m, i, j);
    } else {
        assert(shorter.contains(shorter[i]));
        lemma_primes_below_contains(m, shorter[i]);
    }
}

} // verus!
