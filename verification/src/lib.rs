//! Primes and prime factorizations from a segmented sieve of Eratosthenes.
//!
//! The sieve keeps a fixed-size window of odd candidates and slides it
//! forward, so producing all primes up to `n` stores only the primes up to
//! the square root of `n`. Primes are pulled one at a time from a stream, or
//! drained into a vector; factorizations come as (prime, exponent) pairs in
//! ascending order of prime.

pub mod factor;
pub mod primality;
mod sieve;
pub mod stream;

pub use crate::factor::Divisors;
pub use crate::stream::Primes;

use vstd::prelude::*;
use crate::primality::{lemma_divisor_le, lemma_prime_count_flat, lemma_prime_count_step, prime,
    prime_count};
use crate::stream::first_limit;

verus! {

/// A stream of the first `n` primes. Draining it yields at most `n` values:
/// primes in ascending order with none skipped, every one within the
/// analytic ceiling `first_limit(n)`; fewer than `n` come out only if that
/// ceiling holds fewer than `n` primes.
pub fn first(n: u64) -> (r: Primes)
    ensures
        r.wf(),
        r.last_value() == 1,
        r.value_limit() == first_limit(n),
        r.quota() == Some(n),
{
    Primes::first(n)
}

/// A stream of the primes up to `n` inclusive. Draining it yields exactly
/// the primes `p <= n`, in ascending order.
pub fn below(n: u64) -> (r: Primes)
    ensures
        r.wf(),
        r.last_value() == 1,
        r.value_limit() == n,
        r.quota() == None::<u64>,
{
    Primes::below(n)
}

/// The `n`th prime, counting from `nth(1) == Some(2)`; `None` for `n == 0`.
/// A returned value is prime and has exactly `n` primes at or below it,
/// unless the analytic ceiling holds fewer than `n` primes, in which case
/// the last prime within that ceiling comes back.
pub fn nth(n: u64) -> (r: Option<u64>)
    ensures
        (n == 0 ==> r == None::<u64>),
        (match r {
            Some(v) => {
                &&& prime(v as nat)
                &&& v <= first_limit(n)
                &&& prime_count(v as nat) <= n
                &&& (prime_count(v as nat) == n || (forall|q: nat|
                    (v as nat) < q && q <= (first_limit(n) as nat) ==> !prime(q)))
            },
            None => n == 0 || (forall|q: nat|
                1 < q && q <= (first_limit(n) as nat) ==> !prime(q)),
        }),
{
    let mut s = Primes::first(n);
    let mut last: Option<u64> = None;
    loop
        invariant_except_break
            (match last {
                Some(v) => {
                    &&& prime(v as nat)
                    &&& v <= first_limit(n)
                    &&& s.last_value() == v
                    &&& (exists|k: u64|
                        s.quota() == Some(k) && k <= n && prime_count(v as nat) == n - k)
                },
                None => s.quota() == Some(n) && s.last_value() == 1,
            }),
        invariant
            s.wf(),
            s.value_limit() == first_limit(n),
            (n == 0 ==> s.quota() == Some(0u64) && last == None::<u64>),
        ensures
            (match last {
                Some(v) => {
                    &&& prime(v as nat)
                    &&& v <= first_limit(n)
                    &&& prime_count(v as nat) <= n
                    &&& (prime_count(v as nat) == n || (forall|q: nat|
                        (v as nat) < q && q <= (first_limit(n) as nat) ==> !prime(q)))
                },
                None => n == 0 || (forall|q: nat|
                    1 < q && q <= (first_limit(n) as nat) ==> !prime(q)),
            }),
        decreases s.fuel(),
    {
        let ghost s0 = s;
        let ghost last0 = last;
        match s.next() {
            Some(v) => {
                last = Some(v);
                proof {
                    lemma_prime_count_step(s0.last_value() as nat, v as nat);
                    match last0 {
                        Some(v0) => {
                            let k0 = choose|k0: u64|
                                s0.quota() == Some(k0) && k0 <= n && prime_count(v0 as nat) == n
                                    - k0;
                            assert(s.quota() == Some((k0 - 1) as u64));
                            assert(prime_count(v as nat) == n - (k0 - 1));
                        },
                        None => {
                            assert(prime_count(1) == 0);
                            assert(prime_count(v as nat) == 1);
                            assert(s.quota() == Some((n - 1) as u64));
                        },
                    }
                }
            },
            None => {
                proof {
                    match last0 {
                        Some(v0) => {
                            let k0 = choose|k0: u64|
                                s0.quota() == Some(k0) && k0 <= n && prime_count(v0 as nat) == n
                                    - k0;
                            if s0.quota() == Some(0u64) {
                                assert(prime_count(v0 as nat) == n);
                            }
                        },
                        None => {},
                    }
                }
                break;
            },
        }
    }
    last
}

/// The prime factorization of `n` as a pull-based stream. Draining it
/// yields (prime, exponent) pairs in strictly ascending order of prime,
/// whose product of prime powers is `n`; the yield is empty exactly when
/// `n <= 1`.
pub fn divisors(n: u64) -> (r: Divisors)
    ensures
        r.wf(),
        r.remaining() == n,
        r.original() == n as nat,
        r.emitted_product() == 1,
        r.last_prime() == 1,
{
    Divisors::new(n)
}

/// Whether `n` is prime: exactly when the factorization's first pair is
/// `n` itself.
pub fn is_prime(n: u64) -> (r: bool)
    ensures
        r == prime(n as nat),
{
    let mut d = divisors(n);
    match d.next() {
        None => {
            proof {
                assert(n <= 1);
            }
            false
        },
        Some(pe) => {
            let r = pe.0 == n;
            proof {
                let p0 = pe.0;
                if p0 == n {
                    assert(prime(n as nat));
                } else if prime(n as nat) {
                    // the first factor divides n, and a prime has no
                    // divisor but itself above 1
                    reveal(vstd::arithmetic::power::pow);
                    vstd::arithmetic::power::lemma_pow_positive(p0 as int, (pe.1 - 1) as nat);
                    assert(n as nat == (d.remaining() as nat) * ((p0 as int) * vstd::arithmetic::power::pow(
                        p0 as int,
                        (pe.1 - 1) as nat,
                    )) as nat);
                    assert((n as nat) % (p0 as nat) == 0) by {
                        let t = (d.remaining() as int) * vstd::arithmetic::power::pow(
                            p0 as int,
                            (pe.1 - 1) as nat,
                        );
                        assert(n as int == t * (p0 as int)) by (nonlinear_arith)
                            requires
                                n as int == (d.remaining() as int) * ((p0 as int)
                                    * vstd::arithmetic::power::pow(p0 as int, (pe.1 - 1) as nat)),
                                t == (d.remaining() as int) * vstd::arithmetic::power::pow(
                                    p0 as int,
                                    (pe.1 - 1) as nat,
                                ),
                        ;
                        vstd::arithmetic::div_mod::lemma_mod_multiples_basic(t, p0 as int);
                    }
                    lemma_divisor_le(p0 as nat, n as nat);
                    assert(2 <= p0 as nat <= n as nat);
                    assert((n as nat) % (p0 as nat) != 0);
                    assert(false);
                }
            }
            r
        },
    }
}

/// Consistency of the producers: two ascending runs of primes that each
/// contain every prime up to their own entries agree position by position on
/// their common length. In particular the primes up to a bound are an exact
/// prefix of the first-n-primes sequence.
pub proof fn lemma_prime_runs_agree(s: Seq<u64>, t: Seq<u64>)
    requires
        forall|i: int| 0 <= i < s.len() ==> prime(#[trigger] s[i] as nat),
        forall|i: int, j: int| 0 <= i < j < s.len() ==> s[i] < s[j],
        forall|q: u64, i: int|
            #![trigger s[i], prime(q as nat)]
            prime(q as nat) && 1 < q && 0 <= i < s.len() && q <= s[i] ==> s.contains(q),
        forall|i: int| 0 <= i < t.len() ==> prime(#[trigger] t[i] as nat),
        forall|i: int, j: int| 0 <= i < j < t.len() ==> t[i] < t[j],
        forall|q: u64, i: int|
            #![trigger t[i], prime(q as nat)]
            prime(q as nat) && 1 < q && 0 <= i < t.len() && q <= t[i] ==> t.contains(q),
    ensures
        forall|k: int| 0 <= k < s.len() && k < t.len() ==> s[k] == t[k],
{
    let n = if s.len() <= t.len() {
        s.len() as int
    } else {
        t.len() as int
    };
    lemma_prime_runs_agree_upto(s, t, n);
}

proof fn lemma_prime_runs_agree_upto(s: Seq<u64>, t: Seq<u64>, n: int)
    requires
        forall|i: int| 0 <= i < s.len() ==> prime(#[trigger] s[i] as nat),
        forall|i: int, j: int| 0 <= i < j < s.len() ==> s[i] < s[j],
        forall|q: u64, i: int|
            #![trigger s[i], prime(q as nat)]
            prime(q as nat) && 1 < q && 0 <= i < s.len() && q <= s[i] ==> s.contains(q),
        forall|i: int| 0 <= i < t.len() ==> prime(#[trigger] t[i] as nat),
        forall|i: int, j: int| 0 <= i < j < t.len() ==> t[i] < t[j],
        forall|q: u64, i: int|
            #![trigger t[i], prime(q as nat)]
            prime(q as nat) && 1 < q && 0 <= i < t.len() && q <= t[i] ==> t.contains(q),
        0 <= n <= s.len(),
        n <= t.len(),
    ensures
        forall|k: int| 0 <= k < n ==> s[k] == t[k],
    decreases n,
{
    if n > 0 {
        lemma_prime_runs_agree_upto(s, t, n - 1);
        let k = n - 1;
        if s[k] < t[k] {
            assert(1 < s[k]);
            assert(t.contains(s[k]));
            let j = choose|j: int| 0 <= j < t.len() && t[j] == s[k];
            assert(j < k);
            assert(s[j] == t[j]);
            assert(false);
        }
        if t[k] < s[k] {
            assert(1 < t[k]);
            assert(s.contains(t[k]));
            let j = choose|j: int| 0 <= j < s.len() && s[j] == t[k];
            assert(j < k);
            assert(s[j] == t[j]);
            assert(false);
        }
    }
}

/// An ascending run that lists exactly the primes up to a bound has one
/// entry per prime: its length is the prime-counting function at the bound.
pub proof fn lemma_prime_run_length(s: Seq<u64>, limit: u64)
    requires
        forall|i: int| 0 <= i < s.len() ==> prime(#[trigger] s[i] as nat) && s[i] <= limit,
        forall|i: int, j: int| 0 <= i < j < s.len() ==> s[i] < s[j],
        forall|q: u64| prime(q as nat) && 1 < q && q <= limit ==> #[trigger] s.contains(q),
    ensures
        s.len() == prime_count(limit as nat),
    decreases s.len(),
{
    if s.len() == 0 {
        if limit >= 1 {
            assert forall|q: nat| 1 < q && q <= limit as nat implies !prime(q) by {
                if prime(q) {
                    assert(q <= u64::MAX as nat);
                    assert(s.contains(q as u64));
                }
            }
            lemma_prime_count_flat(1, limit as nat);
        }
    } else {
        let v = s.last();
        let dl = s.drop_last();
        // no prime sits strictly between the largest entry and the bound
        assert forall|q: nat| (v as nat) < q && q <= limit as nat implies !prime(q) by {
            if prime(q) {
                assert(q <= u64::MAX as nat);
                assert(s.contains(q as u64));
                let j = choose|j: int| 0 <= j < s.len() && s[j] == q as u64;
                assert(s[j] <= v);
            }
        }
        lemma_prime_count_flat(v as nat, limit as nat);
        // the rest of the run lists exactly the primes below the largest entry
        assert forall|q: u64|
            prime(q as nat) && 1 < q && q <= (v - 1) as u64 implies #[trigger] dl.contains(q) by {
            assert(s.contains(q));
            let j = choose|j: int| 0 <= j < s.len() && s[j] == q;
            assert(j != s.len() - 1);
            assert(dl[j] == q);
        }
        assert forall|i: int| 0 <= i < dl.len() implies prime(#[trigger] dl[i] as nat) && dl[i] <= (
        v - 1) as u64 by {
            assert(dl[i] == s[i]);
            assert(s[i] < v);
        }
        lemma_prime_run_length(dl, (v - 1) as u64);
        lemma_prime_count_step((v - 1) as nat, v as nat);
    }
}

/// Determinism of the value-bounded producer: two ascending runs that each
/// list exactly the primes up to the same bound are the same sequence.
pub proof fn lemma_prime_runs_equal(s: Seq<u64>, t: Seq<u64>, limit: u64)
    requires
        forall|i: int| 0 <= i < s.len() ==> prime(#[trigger] s[i] as nat) && s[i] <= limit,
        forall|i: int, j: int| 0 <= i < j < s.len() ==> s[i] < s[j],
        forall|q: u64| prime(q as nat) && 1 < q && q <= limit ==> #[trigger] s.contains(q),
        forall|i: int| 0 <= i < t.len() ==> prime(#[trigger] t[i] as nat) && t[i] <= limit,
        forall|i: int, j: int| 0 <= i < j < t.len() ==> t[i] < t[j],
        forall|q: u64| prime(q as nat) && 1 < q && q <= limit ==> #[trigger] t.contains(q),
    ensures
        s == t,
{
    lemma_prime_run_len_le(s, t, limit);
    lemma_prime_run_len_le(t, s, limit);
    assert(s.len() == t.len());
    assert forall|q: u64, i: int|
        #![trigger s[i], prime(q as nat)]
        prime(q as nat) && 1 < q && 0 <= i < s.len() && q <= s[i] implies s.contains(q) by {
        assert(s[i] <= limit);
    }
    assert forall|q: u64, i: int|
        #![trigger t[i], prime(q as nat)]
        prime(q as nat) && 1 < q && 0 <= i < t.len() && q <= t[i] implies t.contains(q) by {
        assert(t[i] <= limit);
    }
    lemma_prime_runs_agree_upto(s, t, s.len() as int);
    assert(s =~= t);
}

proof fn lemma_prime_run_len_le(s: Seq<u64>, t: Seq<u64>, limit: u64)
    requires
        forall|i: int| 0 <= i < s.len() ==> prime(#[trigger] s[i] as nat) && s[i] <= limit,
        forall|i: int, j: int| 0 <= i < j < s.len() ==> s[i] < s[j],
        forall|q: u64| prime(q as nat) && 1 < q && q <= limit ==> #[trigger] s.contains(q),
        forall|i: int| 0 <= i < t.len() ==> prime(#[trigger] t[i] as nat) && t[i] <= limit,
        forall|i: int, j: int| 0 <= i < j < t.len() ==> t[i] < t[j],
        forall|q: u64| prime(q as nat) && 1 < q && q <= limit ==> #[trigger] t.contains(q),
    ensures
        s.len() <= t.len(),
{
    if s.len() > t.len() {
        // each sequence contains every prime up to the bound, so the longer
        // one would hold an entry the shorter one misses
        assert forall|q: u64, i: int|
            #![trigger s[i], prime(q as nat)]
            prime(q as nat) && 1 < q && 0 <= i < s.len() && q <= s[i] implies s.contains(q) by {
            assert(s[i] <= limit);
        }
        assert forall|q: u64, i: int|
            #![trigger t[i], prime(q as nat)]
            prime(q as nat) && 1 < q && 0 <= i < t.len() && q <= t[i] implies t.contains(q) by {
            assert(t[i] <= limit);
        }
        lemma_prime_runs_agree_upto(s, t, t.len() as int);
        let x = s[t.len() as int];
        assert(prime(x as nat) && 1 < x && x <= limit);
        assert(t.contains(x));
        let j = choose|j: int| 0 <= j < t.len() && t[j] == x;
        assert(s[j] == t[j]);
        assert(s[j] < s[t.len() as int]);
        assert(false);
    }
}

} // verus!

