//! The factorization stream.
//!
//! A `Divisors` value drives a value-bounded prime stream over the candidates
//! up to the square root of `n`, dividing each prime out of the remainder and
//! yielding (prime, exponent) pairs in strictly ascending order of prime. The
//! product of the yielded prime powers times the remainder is always `n`.

use vstd::prelude::*;
use vstd::arithmetic::div_mod::{lemma_fundamental_div_mod, lemma_mod_multiples_basic,
    lemma_mod_self_0};
use vstd::arithmetic::power::{lemma_pow_increases, lemma_pow_positive, lemma_pow0, lemma_pow1,
    pow};
use crate::primality::{lemma_composite_small_factor, lemma_divisor_le, prime};
use crate::stream::Primes;

verus! {

/// Product of the prime powers in a sequence of (prime, exponent) pairs.
pub open spec fn pairs_product(s: Seq<(u64, u64)>) -> nat
    decreases s.len(),
{
    if s.len() == 0 {
        1
    } else {
        pairs_product(s.drop_last()) * (pow(s.last().0 as int, s.last().1 as nat) as nat)
    }
}

/// A multiple of a multiple of `q` is a multiple of `q`.
proof fn lemma_divides_through_mul(a: nat, b: nat, q: nat)
    requires
        q >= 1,
        a % q == 0,
    ensures
        (a * b) % q == 0,
{
    lemma_fundamental_div_mod(a as int, q as int);
    assert(a * b == ((a as int / q as int) * b) * q) by (nonlinear_arith)
        requires
            a as int == (q as int) * (a as int / q as int),
    ;
    lemma_mod_multiples_basic((a as int / q as int) * (b as int), q as int);
}

/// Integer square root: the greatest value whose square is at most `n`.
pub fn isqrt(n: u64) -> (r: u64)
    ensures
        (r as int) * (r as int) <= n as int,
        ((r as int) + 1) * ((r as int) + 1) > n as int,
{
    let mut lo: u64 = 0;
    let mut hi: u64 = 0xFFFF_FFFF;
    proof {
        assert((0x1_0000_0000int) * (0x1_0000_0000int) > u64::MAX as int) by (nonlinear_arith);
    }
    while lo < hi
        invariant
            lo <= hi <= 0xFFFF_FFFF,
            (lo as int) * (lo as int) <= n as int,
            ((hi as int) + 1) * ((hi as int) + 1) > n as int,
        decreases hi - lo,
    {
        let mid = lo + (hi - lo + 1) / 2;
        proof {
            assert((mid as int) * (mid as int) < 0x1_0000_0000_0000_0000_0000_0000_0000_0000) by (
            nonlinear_arith)
                requires
                    0 <= (mid as int) < 0x1_0000_0000_0000_0000,
            ;
        }
        if (mid as u128) * (mid as u128) <= n as u128 {
            lo = mid;
        } else {
            hi = mid - 1;
        }
    }
    lo
}

pub struct Divisors {
    /// What remains of the original value after the yielded prime powers
    /// were divided out.
    n: u64,
    /// Candidate primes up to the square root of the original value.
    primes: Primes,
    /// The original value.
    orig: Ghost<nat>,
    /// Product of the prime powers yielded so far.
    acc: Ghost<nat>,
    /// The last prime yielded (1 before any).
    lastp: Ghost<nat>,
}

impl Divisors {
    pub closed spec fn remaining(&self) -> u64 {
        self.n
    }

    pub closed spec fn original(&self) -> nat {
        self.orig@
    }

    pub closed spec fn emitted_product(&self) -> nat {
        self.acc@
    }

    pub closed spec fn last_prime(&self) -> nat {
        self.lastp@
    }

    pub closed spec fn wf(&self) -> bool {
        let s = self.primes.value_limit();
        &&& self.primes.wf()
        &&& self.primes.quota() == None::<u64>
        &&& self.acc@ >= 1
        &&& self.acc@ * (self.n as nat) == self.orig@
        &&& (self.n >= 2 ==> forall|q: nat|
            prime(q) && q <= self.primes.last_value() as nat ==> #[trigger] ((self.n as nat) % q)
                != 0)
        &&& (s as int) * (s as int) <= self.orig@ as int
        &&& ((s as int) + 1) * ((s as int) + 1) > self.orig@ as int
        &&& self.lastp@ >= 1
        &&& (self.n >= 2 ==> self.lastp@ <= self.primes.last_value() as nat)
    }

    /// The product of the yielded prime powers times the remainder always
    /// reconstructs the original value.
    pub proof fn lemma_wf_product(&self)
        requires
            self.wf(),
        ensures
            self.emitted_product() * (self.remaining() as nat) == self.original(),
            self.emitted_product() >= 1,
    {
    }

    /// A factorization stream for `n`, its candidate primes bounded by the
    /// square root of `n`.
    pub fn new(n: u64) -> (d: Divisors)
        ensures
            d.wf(),
            d.remaining() == n,
            d.original() == n as nat,
            d.emitted_product() == 1,
            d.last_prime() == 1,
    {
        let s = isqrt(n);
        let d = Divisors {
            n,
            primes: Primes::below(s),
            orig: Ghost(n as nat),
            acc: Ghost(1),
            lastp: Ghost(1),
        };
        proof {
            assert(d.acc@ * (d.n as nat) == d.orig@) by (nonlinear_arith)
                requires
                    d.acc@ == 1,
                    d.orig@ == d.n as nat,
            ;
        }
        d
    }

    /// Yield the next (prime, exponent) pair, or report the factorization
    /// finished. Pairs come in strictly ascending order of prime; each pair
    /// divides the remainder out exactly, so the product of everything
    /// yielded times the final remainder reconstructs the original value.
    pub fn next(&mut self) -> (r: Option<(u64, u64)>)
        requires
            old(self).wf(),
        ensures
            final(self).wf(),
            final(self).original() == old(self).original(),
            match r {
                Some(pe) => {
                    &&& prime(pe.0 as nat)
                    &&& pe.1 >= 1
                    &&& old(self).last_prime() < pe.0 as nat
                    &&& final(self).last_prime() == pe.0 as nat
                    &&& final(self).emitted_product() == old(self).emitted_product() * (pow(
                        pe.0 as int,
                        pe.1 as nat,
                    ) as nat)
                    &&& old(self).remaining() as nat == (final(self).remaining() as nat) * (pow(
                        pe.0 as int,
                        pe.1 as nat,
                    ) as nat)
                    &&& 1 <= final(self).remaining() < old(self).remaining()
                },
                None => {
                    &&& old(self).remaining() <= 1
                    &&& final(self).remaining() == old(self).remaining()
                    &&& final(self).emitted_product() == old(self).emitted_product()
                    &&& final(self).last_prime() == old(self).last_prime()
                },
            },
    {
        if self.n <= 1 {
            return None;
        }
        loop
            invariant
                self.wf(),
                self.n >= 2,
                self.n == old(self).n,
                self.orig == old(self).orig,
                self.acc == old(self).acc,
                self.lastp == old(self).lastp,
            decreases self.primes.fuel(),
        {
            let ghost pre = *self;
            match self.primes.next() {
                Some(p) => {
                    proof {
                        assert((p as int) * (p as int)
                            < 0x1_0000_0000_0000_0000_0000_0000_0000_0000) by (nonlinear_arith)
                            requires
                                0 <= (p as int) < 0x1_0000_0000_0000_0000,
                        ;
                    }
                    if (p as u128) * (p as u128) > self.n as u128 {
                        // no candidate divides the remainder below its square
                        // root, so the remainder itself is prime
                        proof {
                            lemma_remainder_prime_small(pre, *self, p);
                        }
                        let out = self.n;
                        self.n = 1;
                        proof {
                            self.lastp@ = out as nat;
                            self.acc@ = pre.acc@ * (out as nat);
                            lemma_emit_remainder(pre, *self, out);
                        }
                        return Some((out, 1));
                    }
                    // divide p out of the remainder, counting the exponent
                    let ghost n0 = self.n;
                    let ghost sp = self.primes;
                    let mut e: u64 = 0;
                    proof {
                        lemma_pow0(p as int);
                        lemma_pow0(2);
                    }
                    while self.n % p == 0
                        invariant
                            p >= 2,
                            self.n >= 1,
                            n0 as int == (self.n as int) * pow(p as int, e as nat),
                            pow(2, e as nat) * (self.n as int) <= n0 as int,
                            e <= 63,
                            self.primes == sp,
                            self.orig == pre.orig,
                            self.acc == pre.acc,
                            self.lastp == pre.lastp,
                        decreases self.n,
                    {
                        let ghost nb = self.n;
                        proof {
                            lemma_fundamental_div_mod(nb as int, p as int);
                            lemma_divisor_le(p as nat, nb as nat);
                        }
                        self.n = self.n / p;
                        e = e + 1;
                        proof {
                            reveal(pow);
                            lemma_pow_positive(p as int, (e - 1) as nat);
                            lemma_pow_positive(2, (e - 1) as nat);
                            assert(pow(p as int, e as nat) == (p as int) * pow(
                                p as int,
                                (e - 1) as nat,
                            ));
                            assert(n0 as int == (self.n as int) * pow(p as int, e as nat)) by (
                            nonlinear_arith)
                                requires
                                    n0 as int == (nb as int) * pow(p as int, (e - 1) as nat),
                                    nb as int == (p as int) * (self.n as int),
                                    pow(p as int, e as nat) == (p as int) * pow(
                                        p as int,
                                        (e - 1) as nat,
                                    ),
                            ;
                            assert(pow(2, e as nat) == 2 * pow(2, (e - 1) as nat));
                            assert(pow(2, e as nat) * (self.n as int) <= n0 as int) by (
                            nonlinear_arith)
                                requires
                                    pow(2, (e - 1) as nat) * (nb as int) <= n0 as int,
                                    nb as int == (p as int) * (self.n as int),
                                    p >= 2,
                                    self.n >= 0,
                                    pow(2, e as nat) == 2 * pow(2, (e - 1) as nat),
                                    pow(2, (e - 1) as nat) >= 1,
                            ;
                            assert(self.n >= 1) by (nonlinear_arith)
                                requires
                                    nb as int == (p as int) * (self.n as int),
                                    nb >= 2,
                                    p >= 2,
                            ;
                            if e > 63 {
                                lemma_pow_increases(2, 64, e as nat);
                                vstd::arithmetic::power2::lemma2_to64();
                                vstd::arithmetic::power2::lemma_pow2(64);
                                assert(pow(2, e as nat) * (self.n as int) >= pow(2, 64)) by (
                                nonlinear_arith)
                                    requires
                                        self.n >= 1,
                                        pow(2, e as nat) >= pow(2, 64),
                                        pow(2, 64) >= 0,
                                ;
                                assert(false);
                            }
                            assert(self.n < nb) by (nonlinear_arith)
                                requires
                                    nb as int == (p as int) * (self.n as int),
                                    p >= 2,
                                    self.n >= 1,
                            ;
                        }
                    }
                    if e > 0 {
                        proof {
                            self.lastp@ = p as nat;
                            self.acc@ = pre.acc@ * (pow(p as int, e as nat) as nat);
                            lemma_emit_stream_prime(pre, *self, p, e, n0);
                        }
                        return Some((p, e));
                    }
                    proof {
                        lemma_skip_stream_prime(pre, *self, p);
                    }
                },
                None => {
                    // candidates exhausted: every prime up to the square
                    // root of the original value has been divided out
                    proof {
                        lemma_remainder_prime_exhausted(pre, *self);
                    }
                    let out = self.n;
                    self.n = 1;
                    proof {
                        self.lastp@ = out as nat;
                        self.acc@ = pre.acc@ * (out as nat);
                        lemma_emit_remainder(pre, *self, out);
                    }
                    return Some((out, 1));
                },
            }
        }
    }
}

impl Divisors {
    /// Drain the factorization into a vector of (prime, exponent) pairs:
    /// strictly ascending by prime, each exponent positive, and the product
    /// of the prime powers times what was already divided out reconstructs
    /// the original value. On a fresh stream over `n >= 1` the product is
    /// therefore exactly `n`, and the result is empty only for `n <= 1`.
    pub fn collect_vec(self) -> (r: Vec<(u64, u64)>)
        requires
            self.wf(),
        ensures
            forall|i: int|
                0 <= i < r@.len() ==> prime(#[trigger] r@[i].0 as nat) && r@[i].1 >= 1 && (
                self.last_prime()) < r@[i].0 as nat,
            forall|i: int, j: int| 0 <= i < j < r@.len() ==> r@[i].0 < r@[j].0,
            (self.remaining() >= 1 ==> self.emitted_product() * pairs_product(r@)
                == self.original()),
            (r@.len() == 0 <==> self.remaining() <= 1),
    {
        let mut d = self;
        let mut out: Vec<(u64, u64)> = Vec::new();
        let ghost base = self.last_prime();
        let ghost orig = self.original();
        let ghost acc0 = self.emitted_product();
        let ghost n0 = self.remaining();
        proof {
            assert(pairs_product(out@) == 1);
        }
        loop
            invariant
                d.wf(),
                d.original() == orig,
                acc0 * pairs_product(out@) == d.emitted_product(),
                forall|i: int|
                    0 <= i < out@.len() ==> prime(#[trigger] out@[i].0 as nat) && out@[i].1 >= 1
                        && base < out@[i].0 as nat && (out@[i].0 as nat) <= d.last_prime(),
                forall|i: int, j: int| 0 <= i < j < out@.len() ==> out@[i].0 < out@[j].0,
                (out@.len() == 0 ==> d.remaining() == n0 && d.emitted_product() == acc0
                    && d.last_prime() == base),
                (out@.len() > 0 ==> d.remaining() >= 1 && n0 >= 2),
            ensures
                d.wf(),
                d.original() == orig,
                d.remaining() <= 1,
                acc0 * pairs_product(out@) == d.emitted_product(),
                forall|i: int|
                    0 <= i < out@.len() ==> prime(#[trigger] out@[i].0 as nat) && out@[i].1 >= 1
                        && base < out@[i].0 as nat,
                forall|i: int, j: int| 0 <= i < j < out@.len() ==> out@[i].0 < out@[j].0,
                (out@.len() == 0 ==> d.remaining() == n0),
                (out@.len() > 0 ==> d.remaining() >= 1 && n0 >= 2),
            decreases d.remaining(),
        {
            let ghost d0 = d;
            let ghost out0 = out@;
            match d.next() {
                Some(pe) => {
                    out.push(pe);
                    proof {
                        assert(out@.drop_last() =~= out0);
                        assert(out@.last() == pe);
                        assert(acc0 * pairs_product(out@) == d.emitted_product()) by (
                        nonlinear_arith)
                            requires
                                pairs_product(out@) == pairs_product(out0) * (pow(
                                    pe.0 as int,
                                    pe.1 as nat,
                                ) as nat),
                                acc0 * pairs_product(out0) == d0.emitted_product(),
                                d.emitted_product() == d0.emitted_product() * (pow(
                                    pe.0 as int,
                                    pe.1 as nat,
                                ) as nat),
                        ;
                        assert forall|i: int|
                            0 <= i < out@.len() implies prime(#[trigger] out@[i].0 as nat)
                            && out@[i].1 >= 1 && base < out@[i].0 as nat && (out@[i].0 as nat)
                            <= d.last_prime() by {
                            if i < out0.len() {
                                assert(out@[i] == out0[i]);
                                assert((out0[i].0 as nat) <= d0.last_prime());
                            } else {
                                assert(out@[i] == pe);
                                if out0.len() == 0 {
                                    assert(d0.last_prime() == base);
                                } else {
                                    assert(base < out0[0].0 as nat);
                                    assert((out0[0].0 as nat) <= d0.last_prime());
                                }
                            }
                        }
                        assert forall|i: int, j: int|
                            0 <= i < j < out@.len() implies out@[i].0 < out@[j].0 by {
                            if j == out@.len() - 1 {
                                assert(out@[i] == out0[i]);
                                assert((out0[i].0 as nat) <= d0.last_prime());
                            }
                        }
                    }
                },
                None => {
                    break;
                },
            }
        }
        proof {
            d.lemma_wf_product();
            if d.remaining() == 1 {
                assert(acc0 * pairs_product(out@) * 1 == orig);
            }
            if out@.len() == 0 {
                assert(d.remaining() == n0);
                assert(n0 <= 1);
            }
        }
        out
    }
}

/// After the stream yields a candidate whose square exceeds the remainder,
/// the remainder is prime: any smaller prime factor would have been divided
/// out already.
proof fn lemma_remainder_prime_small(pre: Divisors, cur: Divisors, p: u64)
    requires
        pre.wf(),
        pre.n >= 2,
        cur.n == pre.n,
        prime(p as nat),
        (pre.primes.last_value() as nat) < p as nat,
        forall|q: nat| (pre.primes.last_value() as nat) < q && q < p as nat ==> !prime(q),
        (p as int) * (p as int) > pre.n as int,
    ensures
        prime(pre.n as nat),
{
    if !prime(pre.n as nat) {
        let q = lemma_composite_small_factor(pre.n as nat);
        assert(q < p as nat) by (nonlinear_arith)
            requires
                q * q <= pre.n as nat,
                (p as int) * (p as int) > pre.n as int,
                q >= 0,
                p >= 2,
        ;
        assert(q <= pre.primes.last_value() as nat);
        assert((pre.n as nat) % q != 0);
    }
}

/// After the stream runs out of candidates, the remainder is prime: its
/// square root is within the exhausted candidate range.
proof fn lemma_remainder_prime_exhausted(pre: Divisors, cur: Divisors)
    requires
        pre.wf(),
        pre.n >= 2,
        cur.n == pre.n,
        forall|q: nat|
            (pre.primes.last_value() as nat) < q && q <= (pre.primes.value_limit() as nat)
                ==> !prime(q),
    ensures
        prime(pre.n as nat),
{
    let s = pre.primes.value_limit();
    if !prime(pre.n as nat) {
        let q = lemma_composite_small_factor(pre.n as nat);
        assert(pre.n as nat <= pre.orig@) by (nonlinear_arith)
            requires
                pre.acc@ * (pre.n as nat) == pre.orig@,
                pre.acc@ >= 1,
                pre.n >= 0,
        ;
        assert(q <= s as nat) by (nonlinear_arith)
            requires
                q * q <= pre.n as nat,
                pre.n as nat <= pre.orig@,
                ((s as int) + 1) * ((s as int) + 1) > pre.orig@ as int,
                q >= 0,
                s >= 0,
        ;
        assert(q <= pre.primes.last_value() as nat);
        assert((pre.n as nat) % q != 0);
    }
}

/// Re-establish the invariant when the prime remainder itself is yielded.
proof fn lemma_emit_remainder(pre: Divisors, post: Divisors, out: u64)
    requires
        pre.wf(),
        pre.n >= 2,
        out == pre.n,
        prime(out as nat),
        post.n == 1,
        post.orig@ == pre.orig@,
        post.acc@ == pre.acc@ * (out as nat),
        post.lastp@ == out as nat,
        post.primes.wf(),
        post.primes.quota() == None::<u64>,
        post.primes.value_limit() == pre.primes.value_limit(),
    ensures
        post.wf(),
        pre.lastp@ < out as nat,
        post.acc@ == pre.acc@ * (pow(out as int, 1) as nat),
        pre.n as nat == (post.n as nat) * (pow(out as int, 1) as nat),
{
    lemma_pow1(out as int);
    assert(post.acc@ * (post.n as nat) == post.orig@) by (nonlinear_arith)
        requires
            post.acc@ == pre.acc@ * (out as nat),
            pre.acc@ * (pre.n as nat) == pre.orig@,
            out == pre.n,
            post.n == 1,
            post.orig@ == pre.orig@,
    ;
    assert(post.acc@ >= 1) by (nonlinear_arith)
        requires
            post.acc@ == pre.acc@ * (out as nat),
            pre.acc@ >= 1,
            out >= 2,
    ;
    // the remainder exceeds every candidate tried, in particular the last
    // prime yielded
    if out as nat <= pre.primes.last_value() as nat {
        lemma_mod_self_0(out as int);
        assert((pre.n as nat) % (out as nat) != 0);
    }
    assert(pre.lastp@ < out as nat);
}

/// Re-establish the invariant when a stream prime is divided out with a
/// positive exponent and yielded.
proof fn lemma_emit_stream_prime(pre: Divisors, post: Divisors, p: u64, e: u64, n0: u64)
    requires
        pre.wf(),
        pre.n >= 2,
        n0 == pre.n,
        prime(p as nat),
        e >= 1,
        n0 as int == (post.n as int) * pow(p as int, e as nat),
        post.n >= 1,
        (post.n as nat) % (p as nat) != 0,
        post.orig@ == pre.orig@,
        post.acc@ == pre.acc@ * (pow(p as int, e as nat) as nat),
        post.lastp@ == p as nat,
        post.primes.wf(),
        post.primes.quota() == None::<u64>,
        post.primes.value_limit() == pre.primes.value_limit(),
        post.primes.last_value() == p,
        (pre.primes.last_value() as nat) < p as nat,
        forall|q: nat| (pre.primes.last_value() as nat) < q && q < p as nat ==> !prime(q),
    ensures
        post.wf(),
        pre.lastp@ < p as nat,
        1 <= post.n < pre.n,
        pre.n as nat == (post.n as nat) * (pow(p as int, e as nat) as nat),
{
    lemma_pow_positive(p as int, e as nat);
    assert(pre.n as nat == (post.n as nat) * (pow(p as int, e as nat) as nat)) by (nonlinear_arith)
        requires
            pre.n as int == (post.n as int) * pow(p as int, e as nat),
            post.n >= 0,
            pow(p as int, e as nat) >= 1,
    ;
    assert(pow(p as int, e as nat) >= p as int) by {
        lemma_pow1(p as int);
        lemma_pow_increases(p as nat, 1, e as nat);
    }
    assert(post.acc@ * (post.n as nat) == post.orig@) by (nonlinear_arith)
        requires
            post.acc@ == pre.acc@ * (pow(p as int, e as nat) as nat),
            pre.acc@ * (pre.n as nat) == pre.orig@,
            pre.n as int == (post.n as int) * pow(p as int, e as nat),
            post.orig@ == pre.orig@,
            post.n >= 0,
            pow(p as int, e as nat) >= 1,
    ;
    assert(post.acc@ >= 1) by (nonlinear_arith)
        requires
            post.acc@ == pre.acc@ * (pow(p as int, e as nat) as nat),
            pre.acc@ >= 1,
            pow(p as int, e as nat) >= 1,
    ;
    assert(post.n < pre.n) by (nonlinear_arith)
        requires
            pre.n as int == (post.n as int) * pow(p as int, e as nat),
            pow(p as int, e as nat) >= p as int,
            p >= 2,
            post.n >= 1,
            pre.n >= 2,
    ;
    // remaining factors exceed p: smaller primes were already absent, and p
    // itself no longer divides the remainder
    assert(post.n >= 2 ==> forall|q: nat|
        prime(q) && q <= post.primes.last_value() as nat ==> #[trigger] ((post.n as nat) % q)
            != 0) by {
        if post.n >= 2 {
            assert forall|q: nat|
                prime(q) && q <= post.primes.last_value() as nat implies #[trigger] ((
            post.n as nat) % q) != 0 by {
                if q < p as nat {
                    assert(q <= pre.primes.last_value() as nat);
                    assert((pre.n as nat) % q != 0);
                    if (post.n as nat) % q == 0 {
                        lemma_divides_through_mul(post.n as nat, pow(p as int, e as nat) as nat, q);
                        assert((post.n as nat) * (pow(p as int, e as nat) as nat)
                            == pre.n as nat) by (nonlinear_arith)
                            requires
                                pre.n as int == (post.n as int) * pow(p as int, e as nat),
                                post.n >= 0,
                                pow(p as int, e as nat) >= 1,
                        ;
                    }
                } else {
                    assert(q == p as nat);
                }
            }
        }
    }
    assert(pre.lastp@ <= pre.primes.last_value() as nat);
}

/// The invariant survives trying a stream prime that does not divide the
/// remainder.
proof fn lemma_skip_stream_prime(pre: Divisors, post: Divisors, p: u64)
    requires
        pre.wf(),
        pre.n >= 2,
        post.n == pre.n,
        post.orig@ == pre.orig@,
        post.acc@ == pre.acc@,
        post.lastp@ == pre.lastp@,
        (post.n as nat) % (p as nat) != 0,
        prime(p as nat),
        post.primes.wf(),
        post.primes.quota() == None::<u64>,
        post.primes.value_limit() == pre.primes.value_limit(),
        post.primes.last_value() == p,
        (pre.primes.last_value() as nat) < p as nat,
        forall|q: nat| (pre.primes.last_value() as nat) < q && q < p as nat ==> !prime(q),
    ensures
        post.wf(),
{
    assert forall|q: nat|
        prime(q) && q <= post.primes.last_value() as nat implies #[trigger] ((post.n as nat) % q)
        != 0 by {
        if q < p as nat {
            assert(q <= pre.primes.last_value() as nat);
            assert((pre.n as nat) % q != 0);
        } else {
            assert(q == p as nat);
        }
    }
}

} // verus!
