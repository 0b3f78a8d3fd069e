//! The mathematical notion of primality, and the facts about divisors that
//! justify trial division up to a square root.

use vstd::prelude::*;
use vstd::arithmetic::div_mod::{
    lemma_fundamental_div_mod, lemma_mod_multiples_basic, lemma_mod_self_0, lemma_small_mod,
};

verus! {

/// `n` is prime: at least 2, with no divisor strictly between 1 and itself.
pub open spec fn prime(n: nat) -> bool {
    n >= 2 && forall|d: nat| 2 <= d < n ==> #[trigger] (n % d) != 0
}

/// Divisibility carries along a chain: a divisor of a divisor of `n` divides `n`.
pub proof fn lemma_divides_transitive(p: nat, d: nat, n: nat)
    requires
        p >= 1,
        d >= 1,
        d % p == 0,
        n % d == 0,
    ensures
        n % p == 0,
{
    let a = d / p;
    let b = n / d;
    lemma_fundamental_div_mod(d as int, p as int);
    lemma_fundamental_div_mod(n as int, d as int);
    assert(n == (a * b) * p) by (nonlinear_arith)
        requires
            d == p * a,
            n == d * b,
    ;
    lemma_mod_multiples_basic((a * b) as int, p as int);
}

/// Every integer at least 2 has a prime factor.
pub proof fn lemma_prime_factor(n: nat) -> (p: nat)
    requires
        n >= 2,
    ensures
        prime(p),
        n % p == 0,
        2 <= p <= n,
    decreases n,
{
    if prime(n) {
        lemma_mod_self_0(n as int);
        n
    } else {
        let d = choose|d: nat| 2 <= d < n && #[trigger] (n % d) == 0;
        let p = lemma_prime_factor(d);
        lemma_divides_transitive(p, d, n);
        p
    }
}

/// A divisor of a positive integer is no larger than it.
pub proof fn lemma_divisor_le(d: nat, n: nat)
    requires
        n >= 1,
        d >= 1,
        n % d == 0,
    ensures
        d <= n,
{
    if d > n {
        lemma_small_mod(n, d);
    }
}

/// A composite number has a prime factor whose square does not exceed it.
pub proof fn lemma_composite_small_factor(n: nat) -> (p: nat)
    requires
        n >= 2,
        !prime(n),
    ensures
        prime(p),
        n % p == 0,
        p * p <= n,
{
    let d = choose|d: nat| 2 <= d < n && #[trigger] (n % d) == 0;
    let m = n / d;
    lemma_fundamental_div_mod(n as int, d as int);
    assert(n == d * m);
    assert(m >= 2) by (nonlinear_arith)
        requires
            n == d * m,
            2 <= d < n,
    ;
    let k = if d <= m { d } else { m };
    assert(k * k <= n) by (nonlinear_arith)
        requires
            n == d * m,
            k == if d <= m { d } else { m },
            d >= 0,
            m >= 0,
    ;
    if k == m {
        assert(n == m * d) by (nonlinear_arith)
            requires
                n == d * m,
        ;
        lemma_mod_multiples_basic(d as int, m as int);
    }
    assert(n % k == 0);
    let p = lemma_prime_factor(k);
    lemma_divides_transitive(p, k, n);
    assert(p * p <= k * k) by (nonlinear_arith)
        requires
            p <= k,
            p >= 0,
    ;
    p
}

/// Trial division: a number at least 2 with no prime factor up to its square
/// root is prime.
pub proof fn lemma_no_small_prime_factor_is_prime(n: nat)
    requires
        n >= 2,
        forall|q: nat| prime(q) && q * q <= n ==> #[trigger] (n % q) != 0,
    ensures
        prime(n),
{
    if !prime(n) {
        let p = lemma_composite_small_factor(n);
        assert(n % p != 0);
    }
}

/// The only even prime is 2.
pub proof fn lemma_even_prime_is_two(q: nat)
    requires
        prime(q),
        q % 2 == 0,
    ensures
        q == 2,
{
    if q > 2 {
        assert(q % 2 != 0);
    }
}

/// For an odd number, trial division by the odd primes alone suffices.
pub proof fn lemma_odd_trial_division(n: nat)
    requires
        n >= 3,
        n % 2 == 1,
        forall|q: nat| prime(q) && q % 2 == 1 && q * q <= n ==> #[trigger] (n % q) != 0,
    ensures
        prime(n),
{
    assert forall|q: nat| prime(q) && q * q <= n implies #[trigger] (n % q) != 0 by {
        if q % 2 == 0 {
            lemma_even_prime_is_two(q);
            assert(n % 2 == 1);
        }
    }
    lemma_no_small_prime_factor_is_prime(n);
}

/// The number of primes up to `n` inclusive.
pub open spec fn prime_count(n: nat) -> nat
    decreases n,
{
    if n < 2 {
        0
    } else {
        prime_count((n - 1) as nat) + (if prime(n) {
            1nat
        } else {
            0nat
        })
    }
}

/// The prime count is constant across a range free of primes.
pub proof fn lemma_prime_count_flat(a: nat, c: nat)
    requires
        a <= c,
        forall|q: nat| a < q <= c ==> !prime(q),
    ensures
        prime_count(c) == prime_count(a),
    decreases c,
{
    if c > a {
        assert(!prime(c));
        lemma_prime_count_flat(a, (c - 1) as nat);
    }
}

/// Stepping from one value to the next prime above it raises the prime
/// count by exactly one.
pub proof fn lemma_prime_count_step(a: nat, b: nat)
    requires
        a < b,
        prime(b),
        forall|q: nat| a < q < b ==> !prime(q),
    ensures
        prime_count(b) == prime_count(a) + 1,
{
    lemma_prime_count_flat(a, (b - 1) as nat);
}

/// 2 is prime.
pub proof fn lemma_prime_2()
    ensures
        prime(2),
{
    assert forall|d: nat| 2 <= d < 2 implies #[trigger] (2nat % d) != 0 by {}
}

/// 3 is prime.
pub proof fn lemma_prime_3()
    ensures
        prime(3),
{
    assert forall|d: nat| 2 <= d < 3 implies #[trigger] (3nat % d) != 0 by {
        assert(d == 2);
        assert(3nat % 2nat == 1);
    }
}

} // verus!
