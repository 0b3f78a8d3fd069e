//! The pull-based prime producer.
//!
//! A `Primes` value owns one sieve window plus the list of retained primes
//! (those whose square is within the value ceiling), and yields primes one at
//! a time, in order and without gaps. It is bounded either by a value ceiling
//! alone, or additionally by a count of values still to yield.

use vstd::prelude::*;
use vstd::arithmetic::div_mod::lemma_fundamental_div_mod;
use crate::primality::{lemma_even_prime_is_two, lemma_odd_trial_division, lemma_prime_2,
    lemma_prime_3, prime};
use crate::sieve::{Sieve, SIZE};

verus! {

/// Floor of the base-two logarithm; 0 below 2.
pub open spec fn log2(n: nat) -> nat
    decreases n,
{
    if n < 2 {
        0
    } else {
        (1 + log2(n / 2)) as nat
    }
}

/// The logarithm stays strictly below its positive argument.
proof fn lemma_log2_lt(n: nat)
    requires
        n >= 1,
    ensures
        log2(n) < n,
    decreases n,
{
    if n >= 2 {
        lemma_log2_lt(n / 2);
    }
}

/// The logarithm is bounded by any exponent whose power exceeds the argument.
proof fn lemma_log2_bound(n: nat, k: nat)
    requires
        n < vstd::arithmetic::power2::pow2(k),
    ensures
        log2(n) <= k,
    decreases k,
{
    if n < 2 {
    } else {
        vstd::arithmetic::power2::lemma2_to64();
        assert(k >= 1);
        vstd::arithmetic::power2::lemma_pow2_unfold(k);
        assert(n / 2 < vstd::arithmetic::power2::pow2((k - 1) as nat));
        lemma_log2_bound(n / 2, (k - 1) as nat);
    }
}

/// The ceiling used by the count-bounded mode: an integer over-estimate of
/// the value of the `n`th prime, `n * (log2(n) + log2(log2(n)) + 1)`
/// saturated at the 64-bit maximum, with a fixed constant for tiny `n`.
pub open spec fn first_limit(n: u64) -> u64 {
    if n <= 5 {
        11
    } else {
        let f = log2(n as nat) + log2(log2(n as nat)) + 1;
        if (n as nat) * f <= u64::MAX as nat {
            ((n as nat) * f) as u64
        } else {
            u64::MAX
        }
    }
}

/// Floor of the base-two logarithm of `x`.
fn log2_floor(x: u64) -> (r: u64)
    ensures
        r as nat == log2(x as nat),
{
    let mut v = x;
    let mut r: u64 = 0;
    proof {
        if x >= 1 {
            lemma_log2_lt(x as nat);
        }
    }
    while v >= 2
        invariant
            log2(x as nat) == r + log2(v as nat),
            log2(x as nat) < x as nat || x == 0,
        decreases v,
    {
        v = v / 2;
        r += 1;
    }
    r
}

/// The ceiling used by the count-bounded mode, computed exactly as
/// `first_limit` states it.
fn first_limit_exec(n: u64) -> (r: u64)
    ensures
        r == first_limit(n),
{
    if n <= 5 {
        11
    } else {
        let l = log2_floor(n);
        proof {
            vstd::arithmetic::power2::lemma2_to64();
            lemma_log2_bound(n as nat, 64);
            lemma_log2_bound(l as nat, 7);
        }
        let m = log2_floor(l);
        let f = l + m + 1;
        let ghost fi: int = f as int;
        proof {
            lemma_fundamental_div_mod(u64::MAX as int, fi);
        }
        if n <= u64::MAX / f {
            proof {
                assert((n as int) * fi <= u64::MAX as int) by (nonlinear_arith)
                    requires
                        n as int <= (u64::MAX as int) / fi,
                        fi >= 1,
                        u64::MAX as int == fi * ((u64::MAX as int) / fi) + (u64::MAX as int) % fi,
                        (u64::MAX as int) % fi >= 0,
                ;
            }
            n * f
        } else {
            proof {
                assert((n as int) * fi > u64::MAX as int) by (nonlinear_arith)
                    requires
                        n as int >= (u64::MAX as int) / fi + 1,
                        fi >= 1,
                        u64::MAX as int == fi * ((u64::MAX as int) / fi) + (u64::MAX as int) % fi,
                        (u64::MAX as int) % fi < fi,
                ;
            }
            u64::MAX
        }
    }
}

pub struct Primes {
    /// Retained primes: the odd primes found so far whose square is within
    /// the value ceiling, ascending; seeded with 3.
    primes: Vec<u64>,
    sieve: Sieve,
    /// Last value yielded; 1 before any, and pinned to `limit` once done.
    p: u64,
    /// Values still to yield in the count-bounded mode; `None` means bounded
    /// by value alone.
    count: Option<u64>,
    /// Inclusive ceiling on yielded values.
    limit: u64,
}

impl Primes {
    /// Last value yielded (1 before any).
    pub closed spec fn last_value(&self) -> u64 {
        self.p
    }

    /// Inclusive ceiling on yielded values.
    pub closed spec fn value_limit(&self) -> u64 {
        self.limit
    }

    /// Values still owed in the count-bounded mode.
    pub closed spec fn quota(&self) -> Option<u64> {
        self.count
    }

    /// An upper bound on how many more times `next` can yield a value.
    pub closed spec fn fuel(&self) -> int {
        match self.count {
            Some(k) => k as int,
            None => self.limit as int + 1 - self.p as int,
        }
    }

    pub closed spec fn wf(&self) -> bool {
        let sv = self.sieve;
        &&& sv.wf()
        &&& 1 <= self.p
        &&& (self.p == 1 || self.p <= self.limit)
        &&& (self.p < 3 ==> sv.start == 3 && sv.cursor == 1 && sv.applied@ =~= Set::<nat>::empty()
            && self.primes@ =~= seq![3u64])
        &&& (forall|k: int|
            0 <= k < self.primes@.len() ==> prime(#[trigger] self.primes@[k] as nat)
                && self.primes@[k] % 2 == 1 && self.primes@[k] >= 3)
        &&& (forall|k1: int, k2: int|
            0 <= k1 < k2 < self.primes@.len() ==> self.primes@[k1] < self.primes@[k2])
        &&& (self.p >= 3 ==> forall|k: int|
            0 <= k < self.primes@.len() ==> #[trigger] self.primes@[k] <= self.p)
        &&& (forall|q: u64|
            prime(q as nat) && q % 2 == 1 && q <= self.p && (q as int) * (q as int)
                <= self.limit as int ==> #[trigger] self.primes@.contains(q))
        &&& (self.p >= 2 ==> forall|q: nat|
            #[trigger] prime(q) && q < sv.start as nat ==> q <= self.p as nat)
        &&& (self.p >= 3 ==> forall|j: int|
            0 <= j < sv.cursor && #[trigger] sv.marks@[j] ==> (sv.value_at(j) <= self.p as int
                || sv.value_at(j) > self.limit as int))
        &&& (sv.start == 3 ==> forall|q: nat|
            prime(q) && q % 2 == 1 && q <= self.p as nat && (q * q) as int <= sv.end as int
                ==> #[trigger] sv.applied@.contains(q))
        &&& (sv.start > 3 ==> (sv.start as int) * (sv.start as int) > sv.end as int && self.p >= 3
            && (forall|q: nat|
            prime(q) && q % 2 == 1 && q <= self.p as nat && (q * q) as int <= sv.end as int && (q
                * q) as int <= self.limit as int ==> #[trigger] sv.applied@.contains(q)))
        &&& (self.p >= 3 ==> ((sv.cursor >= 1 && self.p as int <= sv.value_at(
            sv.cursor as int - 1,
        )) || (self.p as int) < sv.start as int || self.p == self.limit))
    }

    /// A stream of every prime up to `n`, in order.
    pub fn below(n: u64) -> (s: Primes)
        ensures
            s.wf(),
            s.last_value() == 1,
            s.value_limit() == n,
            s.quota() == None::<u64>,
    {
        let mut primes: Vec<u64> = Vec::new();
        primes.push(3);
        proof {
            lemma_prime_3();
        }
        let s = Primes { primes, sieve: Sieve::new(), p: 1, count: None, limit: n };
        proof {
            assert(s.primes@ =~= seq![3u64]);
            assert(s.wf()) by {
                assert forall|q: u64|
                    prime(q as nat) && q % 2 == 1 && q <= s.p && (q as int) * (q as int)
                        <= s.limit as int implies #[trigger] s.primes@.contains(q) by {
                    assert(q >= 2);
                    assert(false);
                }
            }
        }
        s
    }

    /// A stream of the first `n` primes: count-bounded, with the value
    /// ceiling set to the analytic over-estimate of the `n`th prime.
    pub fn first(n: u64) -> (s: Primes)
        ensures
            s.wf(),
            s.last_value() == 1,
            s.value_limit() == first_limit(n),
            s.quota() == Some(n),
    {
        let limit = first_limit_exec(n);
        let mut primes: Vec<u64> = Vec::new();
        primes.push(3);
        proof {
            lemma_prime_3();
        }
        let s = Primes { primes, sieve: Sieve::new(), p: 1, count: Some(n), limit };
        proof {
            assert(s.primes@ =~= seq![3u64]);
            assert(s.wf()) by {
                assert forall|q: u64|
                    prime(q as nat) && q % 2 == 1 && q <= s.p && (q as int) * (q as int)
                        <= s.limit as int implies #[trigger] s.primes@.contains(q) by {
                    assert(q >= 2);
                    assert(false);
                }
            }
        }
        s
    }
}

/// No prime fits strictly between the last yield and a freshly scanned slot:
/// below the old cursor everything unmarked was already yielded, and between
/// the old cursor and `hi` every slot is marked composite.
proof fn lemma_gap_has_no_prime(sv: Sieve, oldcur: int, hi: int, p: u64, limit: u64, q: nat)
    requires
        sv.wf(),
        0 <= oldcur <= hi <= SIZE as int,
        forall|j: int| oldcur <= j < hi ==> !sv.marks@[j],
        p >= 3,
        forall|qq: nat| #[trigger] prime(qq) && qq < sv.start as nat ==> qq <= p as nat,
        forall|j: int|
            0 <= j < oldcur && #[trigger] sv.marks@[j] ==> (sv.value_at(j) <= p as int
                || sv.value_at(j) > limit as int),
        (p as nat) < q,
        q <= limit as nat,
        (q as int) < sv.value_at(hi),
    ensures
        !prime(q),
{
    if prime(q) {
        if q % 2 == 0 {
            lemma_even_prime_is_two(q);
        } else {
            if q < sv.start as nat {
                assert(q <= p as nat);
            } else {
                let jq = (q as int - sv.start as int) / 2;
                crate::sieve::lemma_odd_diff_pub(q as int, sv.start as int);
                assert(q as int == sv.start as int + 2 * jq);
                assert(0 <= jq < hi);
                assert(sv.value_at(jq) == q as int);
                sv.lemma_prime_unmarked(jq);
                if jq < oldcur {
                    assert(sv.value_at(jq) <= p as int || sv.value_at(jq) > limit as int);
                }
                assert(false);
            }
        }
    }
}

/// A freshly scanned, still-candidate slot holds a prime, provided its value
/// is within the ceiling: every prime that could witness it composite has
/// been applied to the window.
proof fn lemma_found_value_is_prime(sv: Sieve, oldcur: int, j: int, p: u64, limit: u64)
    requires
        sv.wf(),
        0 <= oldcur <= j < SIZE as int,
        sv.marks@[j],
        forall|jj: int| oldcur <= jj < j ==> !sv.marks@[jj],
        p >= 3,
        forall|qq: nat| #[trigger] prime(qq) && qq < sv.start as nat ==> qq <= p as nat,
        forall|jj: int|
            0 <= jj < oldcur && #[trigger] sv.marks@[jj] ==> (sv.value_at(jj) <= p as int
                || sv.value_at(jj) > limit as int),
        sv.value_at(j) <= limit as int,
        (sv.start == 3 ==> forall|q: nat|
            prime(q) && q % 2 == 1 && q <= p as nat && (q * q) as int <= sv.end as int
                ==> #[trigger] sv.applied@.contains(q)),
        (sv.start > 3 ==> (sv.start as int) * (sv.start as int) > sv.end as int && (forall|q: nat|
            prime(q) && q % 2 == 1 && q <= p as nat && (q * q) as int <= sv.end as int && (q
                * q) as int <= limit as int ==> #[trigger] sv.applied@.contains(q))),
    ensures
        prime(sv.value_at(j) as nat),
        sv.value_at(j) % 2 == 1,
{
    let v = sv.value_at(j);
    assert(v % 2 == 1) by {
        lemma_fundamental_div_mod(sv.start as int, 2);
        vstd::arithmetic::div_mod::lemma_fundamental_div_mod_converse(
            v,
            2,
            sv.start as int / 2 + j,
            1,
        );
    }
    assert(v >= 3);
    assert(v <= sv.end as int);
    assert forall|q: nat|
        prime(q) && q % 2 == 1 && q * q <= v as nat implies #[trigger] ((v as nat) % q)
        != 0 by {
        // q is applied to the window
        assert(q < v as nat) by (nonlinear_arith)
            requires
                q >= 2,
                q * q <= v as nat,
        ;
        if sv.start == 3 {
            if q > p as nat {
                // q sits unmarked at or past the scan, so v <= q, which is
                // impossible for q*q <= v
                let jq = (q as int - sv.start as int) / 2;
                crate::sieve::lemma_odd_diff_pub(q as int, sv.start as int);
                assert(q as int == sv.start as int + 2 * jq);
                assert(0 <= jq < SIZE as int);
                sv.lemma_prime_unmarked(jq);
                assert(v as nat <= limit as nat);
                assert(q <= limit as nat) by (nonlinear_arith)
                    requires
                        q >= 1,
                        q * q <= limit as nat,
                ;
                if jq < oldcur {
                    assert(false);
                } else {
                    assert(jq >= j);
                    assert(q as int >= v);
                    assert(false) by (nonlinear_arith)
                        requires
                            q * q <= v as nat,
                            q as int >= v,
                            q >= 2,
                            v >= 3,
                    ;
                }
            }
            assert(sv.applied@.contains(q));
        } else {
            assert(q < sv.start as nat) by (nonlinear_arith)
                requires
                    (q * q) as int <= v,
                    v <= sv.end as int,
                    (sv.start as int) * (sv.start as int) > sv.end as int,
                    q >= 0,
                    sv.start >= 3,
            ;
            assert(q <= p as nat);
            assert(sv.applied@.contains(q));
        }
        // and an applied prime cannot divide the still-candidate v
        assert(!sv.slot_composite(j));
        assert(!sv.slot_hit(j, q));
        assert(v % (q as int) != 0);
    }
    lemma_odd_trial_division(v as nat);
}

impl Primes {
    /// Yield the next prime, or report the stream finished. A yielded value
    /// is prime, lies within the ceiling, and no prime between the previous
    /// yield and it has been skipped; the stream only finishes once the count
    /// is used up or no prime remains within the ceiling.
    pub fn next(&mut self) -> (r: Option<u64>)
        requires
            old(self).wf(),
        ensures
            final(self).wf(),
            final(self).value_limit() == old(self).value_limit(),
            final(self).fuel() >= 0,
            match r {
                Some(v) => {
                    &&& prime(v as nat)
                    &&& old(self).last_value() < v
                    &&& v <= old(self).value_limit()
                    &&& (forall|q: nat|
                        (old(self).last_value() as nat) < q && q < v as nat ==> !prime(q))
                    &&& final(self).last_value() == v
                    &&& final(self).fuel() < old(self).fuel()
                    &&& (match old(self).quota() {
                        Some(k) => k >= 1 && final(self).quota() == Some((k - 1) as u64),
                        None => final(self).quota() == None::<u64>,
                    })
                },
                None => {
                    &&& ((old(self).quota() == Some(0u64) && final(self).last_value() == old(
                        self,
                    ).last_value()) || (forall|q: nat|
                        (old(self).last_value() as nat) < q && q <= (old(self).value_limit() as nat)
                            ==> !prime(q)))
                    &&& final(self).quota() == old(self).quota()
                    &&& final(self).last_value() >= old(self).last_value()
                },
            },
    {
        if let Some(k) = self.count {
            if k == 0 {
                return None;
            }
        }
        if self.p >= self.limit {
            return None;
        }
        if self.p < 3 {
            // the primes 2 and 3 are yielded directly; the window only ever
            // holds odd integers from 3 up, scanned from slot 1
            self.p = self.p + 1;
            if self.p == 2 {
                proof {
                    lemma_prime_2();
                    assert forall|q: nat| 1nat < q && q < 2nat implies !prime(q) by {}
                }
            } else {
                proof {
                    lemma_prime_3();
                }
                self.sieve.sieve(3);
                proof {
                    assert(self.wf()) by {
                        assert(self.sieve.cursor == 1);
                        assert(self.sieve.value_at(0) == 3);
                        assert(self.primes@ =~= seq![3u64]);
                        assert(self.primes@[0] == 3);
                        assert forall|q: u64|
                            prime(q as nat) && q % 2 == 1 && q <= self.p && (q as int) * (q as int)
                                <= self.limit as int implies #[trigger] self.primes@.contains(
                            q,
                        ) by {
                            assert(q == 3);
                            assert(self.primes@[0] == q);
                        }
                        assert forall|q: nat|
                            prime(q) && q % 2 == 1 && q <= self.p as nat && (q * q) as int
                                <= self.sieve.end as int implies #[trigger] self.sieve.applied@.contains(
                            q,
                        ) by {
                            assert(q == 3);
                        }
                    }
                }
            }
            if let Some(k) = self.count {
                self.count = Some(k - 1);
            }
            return Some(self.p);
        }
        // sieve-backed production
        loop
            invariant
                self.wf(),
                3 <= self.p < self.limit,
                self.p == old(self).p,
                self.limit == old(self).limit,
                self.count == old(self).count,
                self.count != Some(0u64),
            decreases (if self.sieve.start as int <= self.limit as int + 1 {
                self.limit as int + 2 - self.sieve.start as int
            } else {
                0int
            }),
        {
            let ghost pre = *self;
            let found = self.sieve.next_prime();
            match found {
                Some(v_wide) => {
                    let ghost j = self.sieve.cursor as int - 1;
                    if v_wide > self.limit as u128 {
                        // the next candidate lies beyond the ceiling: finish,
                        // and pin the stream at its ceiling
                        proof {
                            assert forall|q: nat|
                                (pre.p as nat) < q && q <= (pre.limit as nat) implies !prime(
                                q,
                            ) by {
                                if prime(q) {
                                    lemma_gap_has_no_prime(
                                        self.sieve,
                                        pre.sieve.cursor as int,
                                        j,
                                        pre.p,
                                        pre.limit,
                                        q,
                                    );
                                }
                            }
                        }
                        self.p = self.limit;
                        proof {
                            assert forall|jj: int|
                                pre.sieve.cursor <= jj < self.sieve.cursor implies (!self.sieve.marks@[jj]
                                || self.sieve.value_at(jj) > self.limit as int) by {
                                if jj == j {
                                    assert(self.sieve.value_at(j) == v_wide as int);
                                }
                            }
                            lemma_after_finish(pre, *self);
                        }
                        return None;
                    }
                    let v = v_wide as u64;
                    proof {
                        lemma_found_value_is_prime(
                            self.sieve,
                            pre.sieve.cursor as int,
                            j,
                            pre.p,
                            pre.limit,
                        );
                        assert forall|q: nat| (pre.p as nat) < q && q < v as nat implies !prime(
                            q,
                        ) by {
                            if prime(q) {
                                lemma_gap_has_no_prime(
                                    self.sieve,
                                    pre.sieve.cursor as int,
                                    j,
                                    pre.p,
                                    pre.limit,
                                    q,
                                );
                            }
                        }
                        // the new value lies past the previous yield
                        assert(pre.p < v);
                        assert((v as int) * (v as int)
                            < 0x1_0000_0000_0000_0000_0000_0000_0000_0000) by (nonlinear_arith)
                            requires
                                0 <= (v as int) < 0x1_0000_0000_0000_0000,
                        ;
                    }
                    if (v as u128) * (v as u128) <= self.limit as u128 {
                        self.primes.push(v);
                    }
                    if self.sieve.start == 3 {
                        if (v as u128) * (v as u128) <= self.sieve.end {
                            let ghost scan = self.sieve;
                            self.sieve.sieve(v);
                            proof {
                                let svn = self.sieve;
                                // marking v's multiples from v*v leaves the
                                // slot of v itself a candidate
                                assert(svn.marks@[j]) by {
                                    if !svn.marks@[j] {
                                        let q = choose|q: nat| svn.slot_hit(j, q);
                                        if q == v as nat {
                                            assert((q * q) as int <= v as int);
                                            assert(false) by (nonlinear_arith)
                                                requires
                                                    q >= 2,
                                                    (q * q) as int <= q as int,
                                            ;
                                        } else {
                                            assert(scan.slot_hit(j, q));
                                            assert(!scan.marks@[j]);
                                        }
                                    }
                                }
                                // already-cleared slots stay cleared
                                assert forall|jj: int|
                                    pre.sieve.cursor <= jj < j implies !svn.marks@[jj] by {
                                    assert(!scan.marks@[jj]);
                                    let q = choose|q: nat| scan.slot_hit(jj, q);
                                    assert(svn.slot_hit(jj, q));
                                }
                                // slots that survive the marking were
                                // candidates before it
                                assert forall|jj: int|
                                    0 <= jj < pre.sieve.cursor && #[trigger] svn.marks@[jj] implies (
                                svn.value_at(jj) <= pre.p as int || svn.value_at(jj)
                                    > pre.limit as int) by {
                                    if !scan.marks@[jj] {
                                        let q = choose|q: nat| scan.slot_hit(jj, q);
                                        assert(svn.slot_hit(jj, q));
                                        assert(!svn.marks@[jj]);
                                    }
                                    assert(pre.sieve.marks@[jj]);
                                }
                            }
                        }
                    }
                    if let Some(k) = self.count {
                        self.count = Some(k - 1);
                    }
                    let ghost mid = *self;
                    self.p = v;
                    proof {
                        lemma_after_emit(pre, mid, *self, v, j);
                    }
                    return Some(v);
                },
                None => {
                    if self.sieve.end + 1 >= self.limit as u128 {
                        // window exhausted and the ceiling reached: finish
                        proof {
                            assert forall|q: nat|
                                (pre.p as nat) < q && q <= (pre.limit as nat) implies !prime(
                                q,
                            ) by {
                                if prime(q) {
                                    assert((q as int) < self.sieve.value_at(SIZE as int));
                                    lemma_gap_has_no_prime(
                                        self.sieve,
                                        pre.sieve.cursor as int,
                                        SIZE as int,
                                        pre.p,
                                        pre.limit,
                                        q,
                                    );
                                }
                            }
                        }
                        self.p = self.limit;
                        proof {
                            lemma_after_finish(pre, *self);
                        }
                        return None;
                    }
                    // slide the window and re-mark it with every retained
                    // prime whose square is within the new end
                    proof {
                        // all primes below the next window were already yielded
                        assert forall|q: nat|
                            #[trigger] prime(q) && q < (self.sieve.start as nat) + 2 * (
                            SIZE as nat) implies q <= pre.p as nat by {
                            if q > pre.p as nat {
                                assert(q <= pre.limit as nat) by {
                                    assert(q as int <= self.sieve.end as int + 1);
                                }
                                lemma_gap_has_no_prime(
                                    self.sieve,
                                    pre.sieve.cursor as int,
                                    SIZE as int,
                                    pre.p,
                                    pre.limit,
                                    q,
                                );
                            }
                        }
                    }
                    self.sieve.slide();
                    let ghost slid = *self;
                    let mut k: usize = 0;
                    let mut done = false;
                    while !done
                        invariant
                            self.sieve.wf(),
                            self.sieve.cursor == 0,
                            self.sieve.start == slid.sieve.start,
                            self.sieve.end == slid.sieve.end,
                            self.primes@ == slid.primes@,
                            self.p == slid.p,
                            self.limit == slid.limit,
                            self.count == slid.count,
                            k <= self.primes.len(),
                            forall|kk1: int, kk2: int|
                                0 <= kk1 < kk2 < self.primes@.len() ==> self.primes@[kk1]
                                    < self.primes@[kk2],
                            forall|kk: int|
                                0 <= kk < self.primes@.len() ==> prime(
                                    #[trigger] self.primes@[kk] as nat,
                                ) && self.primes@[kk] % 2 == 1 && self.primes@[kk] >= 3,
                            forall|q: nat|
                                #[trigger] self.sieve.applied@.contains(q) <==> (exists|t: int|
                                    0 <= t < k && self.primes@[t] as nat == q && (q * q) as int
                                        <= self.sieve.end as int),
                            (done ==> k == self.primes.len() || (self.primes@[k as int] as int) * (
                            self.primes@[k as int] as int) > self.sieve.end as int),
                        decreases self.primes.len() - k + (if done {
                            0int
                        } else {
                            1int
                        }),
                    {
                        if k == self.primes.len() {
                            done = true;
                        } else {
                            let pk = self.primes[k];
                            proof {
                                assert((pk as int) * (pk as int)
                                    < 0x1_0000_0000_0000_0000_0000_0000_0000_0000) by (
                                nonlinear_arith)
                                    requires
                                        0 <= (pk as int) < 0x1_0000_0000_0000_0000,
                                ;
                            }
                            if (pk as u128) * (pk as u128) > self.sieve.end {
                                done = true;
                            } else {
                                let ghost ap0 = self.sieve.applied@;
                                self.sieve.sieve(pk);
                                proof {
                                    assert forall|q: nat|
                                        #[trigger] self.sieve.applied@.contains(q) implies (exists|
                                            t: int,
                                        |
                                            0 <= t < k + 1 && self.primes@[t] as nat == q && (q
                                                * q) as int <= self.sieve.end as int) by {
                                        if q == pk as nat {
                                            assert(self.primes@[k as int] as nat == q && (q
                                                * q) as int <= self.sieve.end as int);
                                        } else {
                                            assert(ap0.contains(q));
                                            let t = choose|t: int|
                                                0 <= t < k && self.primes@[t] as nat == q && (q
                                                    * q) as int <= self.sieve.end as int;
                                            assert(0 <= t < k + 1 && self.primes@[t] as nat == q);
                                        }
                                    }
                                    assert forall|q: nat|
                                        (exists|t: int|
                                            0 <= t < k + 1 && self.primes@[t] as nat == q && (q
                                                * q) as int
                                                <= self.sieve.end as int) implies #[trigger] self.sieve.applied@.contains(
                                        q,
                                    ) by {
                                        let t = choose|t: int|
                                            0 <= t < k + 1 && self.primes@[t] as nat == q && (q
                                                * q) as int <= self.sieve.end as int;
                                        if t < k {
                                            assert(ap0.contains(q));
                                        } else {
                                            assert(q == pk as nat);
                                        }
                                    }
                                }
                                k += 1;
                            }
                        }
                    }
                    proof {
                        lemma_after_slide(pre, slid, *self, k as int);
                    }
                },
            }
        }
    }
}

impl Primes {
    /// Drain the stream into a vector. The result lists primes in strictly
    /// ascending order, all above the last yield and within the ceiling,
    /// skipping none; a value-bounded stream exhausts its whole range, and a
    /// count-bounded one stops early only at its quota.
    pub fn collect_vec(self) -> (r: Vec<u64>)
        requires
            self.wf(),
        ensures
            forall|i: int|
                0 <= i < r@.len() ==> prime(#[trigger] r@[i] as nat) && self.last_value() < r@[i]
                    && r@[i] <= self.value_limit(),
            forall|i: int, k: int| 0 <= i < k < r@.len() ==> r@[i] < r@[k],
            forall|q: u64, i: int|
                #![trigger r@[i], prime(q as nat)]
                prime(q as nat) && self.last_value() < q && 0 <= i < r@.len() && q <= r@[i]
                    ==> r@.contains(q),
            (self.quota() == None::<u64> ==> forall|q: u64|
                prime(q as nat) && self.last_value() < q && q <= self.value_limit()
                    ==> #[trigger] r@.contains(q)),
            (forall|k0: u64|
                self.quota() == Some(k0) ==> r@.len() <= k0 && (r@.len() < k0 ==> forall|q: u64|
                    prime(q as nat) && self.last_value() < q && q <= self.value_limit()
                        ==> #[trigger] r@.contains(q))),
    {
        let mut s = self;
        let mut out: Vec<u64> = Vec::new();
        let ghost base_p = self.last_value();
        let ghost base_q = self.quota();
        let ghost lim = self.value_limit();
        loop
            invariant_except_break
                forall|i: int| 0 <= i < out@.len() ==> #[trigger] out@[i] <= s.last_value(),
                forall|q: u64|
                    prime(q as nat) && base_p < q && q as nat <= s.last_value() as nat
                        ==> #[trigger] out@.contains(q),
            invariant
                s.wf(),
                s.value_limit() == lim,
                s.last_value() >= base_p,
                (match base_q {
                    Some(k0) => out@.len() <= k0 && s.quota() == Some((k0 - out@.len()) as u64),
                    None => s.quota() == None::<u64>,
                }),
                forall|i: int|
                    0 <= i < out@.len() ==> prime(#[trigger] out@[i] as nat) && base_p < out@[i]
                        && out@[i] <= lim,
                forall|i: int, k: int| 0 <= i < k < out@.len() ==> out@[i] < out@[k],
            ensures
                (forall|q: u64|
                    prime(q as nat) && base_p < q && q <= lim ==> #[trigger] out@.contains(q)) || (
                s.quota() == Some(0u64) && (forall|i: int|
                    0 <= i < out@.len() ==> #[trigger] out@[i] <= s.last_value()) && (forall|
                    q: u64,
                |
                    prime(q as nat) && base_p < q && q <= s.last_value()
                        ==> #[trigger] out@.contains(q))),
            decreases s.fuel(),
        {
            let ghost s0 = s;
            let ghost out0 = out@;
            match s.next() {
                Some(v) => {
                    out.push(v);
                    proof {
                        assert forall|i: int|
                            0 <= i < out@.len() implies prime(#[trigger] out@[i] as nat) && base_p
                            < out@[i] && out@[i] <= s.last_value() && out@[i] <= lim by {
                            if i < out0.len() {
                                assert(out@[i] == out0[i]);
                                assert(out0[i] <= s0.last_value());
                            } else {
                                assert(out@[i] == v);
                            }
                        }
                        assert forall|i: int, k: int|
                            0 <= i < k < out@.len() implies out@[i] < out@[k] by {
                            if k == out0.len() {
                                assert(out@[i] == out0[i]);
                                assert(out0[i] <= s0.last_value());
                            }
                        }
                        assert forall|q: u64|
                            prime(q as nat) && base_p < q && q as nat
                                <= s.last_value() as nat implies #[trigger] out@.contains(q) by {
                            if q as nat <= s0.last_value() as nat {
                                assert(out0.contains(q));
                                let t = choose|t: int| 0 <= t < out0.len() && out0[t] == q;
                                assert(out@[t] == q);
                            } else if (q as nat) < v as nat {
                                assert(!prime(q as nat));
                            } else {
                                assert(q == v);
                                assert(out@[out@.len() - 1] == v);
                            }
                        }
                    }
                },
                None => {
                    proof {
                        if !(s.quota() == Some(0u64) && s.last_value() == s0.last_value()) {
                            assert forall|q: u64|
                                prime(q as nat) && base_p < q && q
                                    <= lim implies #[trigger] out@.contains(q) by {
                                if q as nat > s0.last_value() as nat {
                                    assert(!prime(q as nat));
                                }
                            }
                        }
                    }
                    break;
                },
            }
        }
        proof {
            let full = forall|q: u64|
                prime(q as nat) && base_p < q && q <= lim ==> #[trigger] out@.contains(q);
            assert forall|q: u64, i: int|
                #![trigger out@[i], prime(q as nat)]
                prime(q as nat) && base_p < q && 0 <= i < out@.len() && q
                    <= out@[i] implies out@.contains(q) by {
                if !full {
                    assert(out@[i] <= s.last_value());
                } else {
                    assert(out@[i] <= lim);
                }
            }
            if base_q is None {
                assert(s.quota() == None::<u64>);
                assert(full);
            }
            assert forall|k0: u64| base_q == Some(k0) implies out@.len() <= k0 && (out@.len() < k0
                ==> forall|q: u64|
                prime(q as nat) && base_p < q && q <= lim ==> #[trigger] out@.contains(q)) by {
                if out@.len() < k0 {
                    assert(s.quota() == Some((k0 - out@.len()) as u64));
                    assert(s.quota() != Some(0u64));
                    assert(full);
                }
            }
        }
        out
    }
}

/// Re-establish the stream invariant when the stream finishes by pinning the
/// last value to the ceiling, given that no prime is left below it.
proof fn lemma_after_finish(pre: Primes, post: Primes)
    requires
        pre.wf(),
        3 <= pre.p < pre.limit,
        post.limit == pre.limit,
        post.count == pre.count,
        post.primes@ == pre.primes@,
        post.p == pre.limit,
        post.sieve.wf(),
        post.sieve.start == pre.sieve.start,
        post.sieve.end == pre.sieve.end,
        post.sieve.marks@ == pre.sieve.marks@,
        post.sieve.applied@ == pre.sieve.applied@,
        post.sieve.cursor >= pre.sieve.cursor,
        forall|j: int|
            pre.sieve.cursor <= j < post.sieve.cursor ==> (!post.sieve.marks@[j]
                || post.sieve.value_at(j) > post.limit as int),
        forall|q: nat| (pre.p as nat) < q && q <= (pre.limit as nat) ==> !prime(q),
    ensures
        post.wf(),
{
    let sv = post.sieve;
    assert forall|q: u64|
        prime(q as nat) && q % 2 == 1 && q <= post.p && (q as int) * (q as int)
            <= post.limit as int implies #[trigger] post.primes@.contains(q) by {
        if q <= pre.p {
            assert(pre.primes@.contains(q));
        } else {
            assert(!prime(q as nat));
        }
    }
    assert(post.p >= 2 ==> forall|q: nat|
        #[trigger] prime(q) && q < sv.start as nat ==> q <= post.p as nat);
    assert forall|j: int|
        0 <= j < sv.cursor && #[trigger] sv.marks@[j] implies (sv.value_at(j) <= post.p as int
            || sv.value_at(j) > post.limit as int) by {
        if j < pre.sieve.cursor {
            assert(sv.value_at(j) <= pre.p as int || sv.value_at(j) > pre.limit as int);
        } else {
            assert(!sv.marks@[j] || sv.value_at(j) > post.limit as int);
        }
    }
    assert(sv.start == 3 ==> forall|q: nat|
        prime(q) && q % 2 == 1 && q <= post.p as nat && (q * q) as int <= sv.end as int
            ==> #[trigger] sv.applied@.contains(q)) by {
        if sv.start == 3 {
            assert forall|q: nat|
                prime(q) && q % 2 == 1 && q <= post.p as nat && (q * q) as int
                    <= sv.end as int implies #[trigger] sv.applied@.contains(q) by {
                if q > pre.p as nat {
                    assert(!prime(q));
                }
            }
        }
    }
    assert(sv.start > 3 ==> (sv.start as int) * (sv.start as int) > sv.end as int && post.p >= 3
        && (forall|q: nat|
        prime(q) && q % 2 == 1 && q <= post.p as nat && (q * q) as int <= sv.end as int && (q
            * q) as int <= post.limit as int ==> #[trigger] sv.applied@.contains(q))) by {
        if sv.start > 3 {
            assert forall|q: nat|
                prime(q) && q % 2 == 1 && q <= post.p as nat && (q * q) as int <= sv.end as int
                    && (q * q) as int <= post.limit as int implies #[trigger] sv.applied@.contains(
                q,
            ) by {
                if q > pre.p as nat {
                    assert(!prime(q));
                }
            }
        }
    }
}

/// Re-establish the stream invariant after yielding the freshly found prime
/// `v`: it was pushed onto the retained list when its square is within the
/// ceiling, applied to a first window when its square is within the window,
/// and recorded as the last yield.
proof fn lemma_after_emit(pre: Primes, mid: Primes, post: Primes, v: u64, j: int)
    requires
        pre.wf(),
        3 <= pre.p < pre.limit,
        prime(v as nat),
        v % 2 == 1,
        pre.p < v <= pre.limit,
        forall|q: nat| (pre.p as nat) < q && q < v as nat ==> !prime(q),
        // the sieve after the scan (and, in a first window, after marking v)
        mid.sieve.wf(),
        mid.sieve.start == pre.sieve.start,
        mid.sieve.end == pre.sieve.end,
        mid.limit == pre.limit,
        pre.sieve.cursor as int <= j < SIZE as int,
        mid.sieve.cursor as int == j + 1,
        v as int == mid.sieve.value_at(j),
        mid.sieve.marks@[j],
        forall|jj: int| pre.sieve.cursor <= jj < j ==> !mid.sieve.marks@[jj],
        forall|jj: int|
            0 <= jj < pre.sieve.cursor && #[trigger] mid.sieve.marks@[jj] ==> (mid.sieve.value_at(
                jj,
            ) <= pre.p as int || mid.sieve.value_at(jj) > pre.limit as int),
        (pre.sieve.start == 3 && (v as int) * (v as int) <= pre.sieve.end as int
            ==> mid.sieve.applied@ =~= pre.sieve.applied@.insert(v as nat)),
        (!(pre.sieve.start == 3 && (v as int) * (v as int) <= pre.sieve.end as int)
            ==> mid.sieve.applied@ == pre.sieve.applied@),
        ((v as int) * (v as int) <= pre.limit as int ==> mid.primes@ == pre.primes@.push(v)),
        ((v as int) * (v as int) > pre.limit as int ==> mid.primes@ == pre.primes@),
        post.p == v,
        post.sieve == mid.sieve,
        post.primes@ == mid.primes@,
        post.limit == mid.limit,
        post.count == mid.count,
    ensures
        post.wf(),
{
    let sv = post.sieve;
    // ordered, odd, prime retained list
    assert forall|k1: int, k2: int|
        0 <= k1 < k2 < post.primes@.len() implies post.primes@[k1] < post.primes@[k2] by {
        if k2 < pre.primes@.len() {
        } else {
            assert(post.primes@[k2] == v);
            assert(pre.primes@[k1] <= pre.p);
        }
    }
    assert forall|k: int|
        0 <= k < post.primes@.len() implies prime(#[trigger] post.primes@[k] as nat)
            && post.primes@[k] % 2 == 1 && post.primes@[k] >= 3 by {
        if k < pre.primes@.len() {
        } else {
            assert(post.primes@[k] == v);
        }
    }
    assert forall|k: int| 0 <= k < post.primes@.len() implies #[trigger] post.primes@[k]
        <= post.p by {
        if k < pre.primes@.len() {
            assert(pre.primes@[k] <= pre.p);
        } else {
            assert(post.primes@[k] == v);
        }
    }
    // retained completeness
    assert forall|q: u64|
        prime(q as nat) && q % 2 == 1 && q <= post.p && (q as int) * (q as int)
            <= post.limit as int implies #[trigger] post.primes@.contains(q) by {
        if q <= pre.p {
            assert(pre.primes@.contains(q));
            let t = choose|t: int| 0 <= t < pre.primes@.len() && pre.primes@[t] == q;
            assert(post.primes@[t] == q);
        } else if q < v {
            assert(!prime(q as nat));
        } else {
            assert(q == v);
            assert(post.primes@[post.primes@.len() - 1] == v);
        }
    }
    // every prime below the window start is at most the last yield
    assert forall|q: nat| #[trigger] prime(q) && q < sv.start as nat implies q
        <= post.p as nat by {
        assert(q <= pre.p as nat);
    }
    // scanned slots hold yielded or out-of-ceiling values
    assert forall|jj: int|
        0 <= jj < sv.cursor && #[trigger] sv.marks@[jj] implies (sv.value_at(jj) <= post.p as int
            || sv.value_at(jj) > post.limit as int) by {
        if jj < pre.sieve.cursor {
            assert(sv.value_at(jj) <= pre.p as int || sv.value_at(jj) > pre.limit as int);
        } else if jj < j {
            assert(!sv.marks@[jj]);
        } else {
            assert(jj == j);
            assert(sv.value_at(j) == v as int);
        }
    }
    // applied completeness for the first window
    assert(sv.start == 3 ==> forall|q: nat|
        prime(q) && q % 2 == 1 && q <= post.p as nat && (q * q) as int <= sv.end as int
            ==> #[trigger] sv.applied@.contains(q)) by {
        if sv.start == 3 {
            assert forall|q: nat|
                prime(q) && q % 2 == 1 && q <= post.p as nat && (q * q) as int
                    <= sv.end as int implies #[trigger] sv.applied@.contains(q) by {
                if q <= pre.p as nat {
                    assert(pre.sieve.applied@.contains(q));
                } else if q < v as nat {
                    assert(!prime(q));
                } else {
                    assert(q == v as nat);
                }
            }
        }
    }
    // applied completeness for later windows; a yielded value's square always
    // exceeds such a window's end
    assert(sv.start > 3 ==> (sv.start as int) * (sv.start as int) > sv.end as int && post.p >= 3
        && (forall|q: nat|
        prime(q) && q % 2 == 1 && q <= post.p as nat && (q * q) as int <= sv.end as int && (q
            * q) as int <= post.limit as int ==> #[trigger] sv.applied@.contains(q))) by {
        if sv.start > 3 {
            assert forall|q: nat|
                prime(q) && q % 2 == 1 && q <= post.p as nat && (q * q) as int <= sv.end as int
                    && (q * q) as int <= post.limit as int implies #[trigger] sv.applied@.contains(
                q,
            ) by {
                if q <= pre.p as nat {
                    assert(pre.sieve.applied@.contains(q));
                } else if q < v as nat {
                    assert(!prime(q));
                } else {
                    assert(q == v as nat);
                    assert(v as int >= sv.start as int);
                    assert(false) by (nonlinear_arith)
                        requires
                            (q * q) as int <= sv.end as int,
                            (sv.start as int) * (sv.start as int) > sv.end as int,
                            q as int >= sv.start as int,
                            q >= 0,
                            sv.start >= 3,
                    ;
                }
            }
        }
    }
    assert(sv.cursor >= 1 && post.p as int <= sv.value_at(sv.cursor as int - 1));
}

/// Re-establish the stream invariant after sliding the window forward and
/// re-marking it with the retained primes whose square is within the new end.
proof fn lemma_after_slide(pre: Primes, slid: Primes, post: Primes, k: int)
    requires
        pre.wf(),
        3 <= pre.p < pre.limit,
        // every prime below the new window start was already yielded
        forall|q: nat|
            #[trigger] prime(q) && q < (slid.sieve.start as nat) ==> q <= pre.p as nat,
        slid.sieve.start as int == pre.sieve.start as int + 2 * SIZE as int,
        slid.sieve.end as int == pre.sieve.end as int + 2 * SIZE as int,
        slid.p == pre.p,
        slid.limit == pre.limit,
        slid.count == pre.count,
        slid.primes@ == pre.primes@,
        post.sieve.wf(),
        post.sieve.cursor == 0,
        post.sieve.start == slid.sieve.start,
        post.sieve.end == slid.sieve.end,
        post.primes@ == slid.primes@,
        post.p == slid.p,
        post.limit == slid.limit,
        post.count == slid.count,
        0 <= k <= post.primes@.len(),
        forall|q: nat|
            #[trigger] post.sieve.applied@.contains(q) <==> (exists|t: int|
                0 <= t < k && post.primes@[t] as nat == q && (q * q) as int
                    <= post.sieve.end as int),
        (k < post.primes@.len() ==> (post.primes@[k] as int) * (post.primes@[k] as int)
            > post.sieve.end as int),
    ensures
        post.wf(),
{
    let sv = post.sieve;
    assert(sv.start > 3);
    // the new window start exceeds its own square root
    assert((sv.start as int) * (sv.start as int) > sv.end as int) by (nonlinear_arith)
        requires
            sv.start as int >= 2 * SIZE as int + 3,
            sv.end as int == sv.start as int + 2 * (SIZE as int - 1),
            SIZE >= 2,
    ;
    // applied completeness: every prime that matters is retained at an index
    // the re-marking walk covered
    assert forall|q: nat|
        prime(q) && q % 2 == 1 && q <= post.p as nat && (q * q) as int <= sv.end as int && (q
            * q) as int <= post.limit as int implies #[trigger] sv.applied@.contains(q) by {
        let qu = q as u64;
        assert(q <= pre.p as nat);
        assert((qu as int) * (qu as int) <= pre.limit as int);
        assert(pre.primes@.contains(qu));
        let t = choose|t: int| 0 <= t < pre.primes@.len() && pre.primes@[t] == qu;
        if t >= k {
            assert(k < post.primes@.len());
            assert(post.primes@[k] <= post.primes@[t] || k == t);
            assert(false) by (nonlinear_arith)
                requires
                    post.primes@[k] as int <= qu as int,
                    (qu as int) * (qu as int) <= sv.end as int,
                    (post.primes@[k] as int) * (post.primes@[k] as int) > sv.end as int,
                    qu >= 0,
                    post.primes@[k] >= 0,
            ;
        }
        assert(0 <= t < k && post.primes@[t] as nat == q && (q * q) as int <= sv.end as int);
    }
    assert((post.p as int) < sv.start as int);
}

} // verus!
