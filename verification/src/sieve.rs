//! A fixed-size window over consecutive odd integers, with one mark per slot.
//!
//! Slot `i` stands for the odd integer `start + 2*i`. A slot is unmarked
//! (`true`) while still a candidate prime; marking with a prime `p` clears
//! every slot holding an odd multiple of `p` that is at least `p*p`. The
//! ghost set `applied` records which primes have been marked so far, and the
//! window invariant ties each mark exactly to that set.

use vstd::prelude::*;
use vstd::arithmetic::div_mod::{
    lemma_fundamental_div_mod, lemma_fundamental_div_mod_converse, lemma_mod_add_multiples_vanish,
    lemma_mod_multiples_basic,
};
use vstd::arithmetic::mul::lemma_mul_is_commutative;
use crate::primality::prime;

verus! {

/// Number of slots in the window.
pub const SIZE: usize = 64000;

/// The product of two odd integers is odd.
proof fn lemma_odd_times_odd(a: int, b: int)
    requires
        a % 2 == 1,
        b % 2 == 1,
    ensures
        (a * b) % 2 == 1,
{
    let i = a / 2;
    let j = b / 2;
    lemma_fundamental_div_mod(a, 2);
    lemma_fundamental_div_mod(b, 2);
    assert(a * b == (2 * i * j + i + j) * 2 + 1) by (nonlinear_arith)
        requires
            a == 2 * i + 1,
            b == 2 * j + 1,
    ;
    lemma_fundamental_div_mod_converse(a * b, 2, 2 * i * j + i + j, 1);
}

/// The product of an even integer with anything is even.
proof fn lemma_even_times(a: int, b: int)
    requires
        a % 2 == 0,
    ensures
        (a * b) % 2 == 0,
{
    let i = a / 2;
    lemma_fundamental_div_mod(a, 2);
    assert(a * b == (i * b) * 2) by (nonlinear_arith)
        requires
            a == 2 * i,
    ;
    lemma_fundamental_div_mod_converse(a * b, 2, i * b, 0);
}

/// An integer is a multiple of `p` exactly when it equals `p` times its own
/// quotient by `p`.
proof fn lemma_multiple_form(x: int, p: int)
    requires
        p >= 1,
        x % p == 0,
    ensures
        x == p * (x / p),
{
    lemma_fundamental_div_mod(x, p);
}

/// The difference of two odd integers is even, and halving it inverts
/// doubling.
proof fn lemma_odd_diff(x: int, y: int)
    requires
        x % 2 == 1,
        y % 2 == 1,
    ensures
        (x - y) % 2 == 0,
        x == y + 2 * ((x - y) / 2),
{
    let a = x / 2;
    let b = y / 2;
    lemma_fundamental_div_mod(x, 2);
    lemma_fundamental_div_mod(y, 2);
    assert(x - y == (a - b) * 2 + 0) by (nonlinear_arith)
        requires
            x == 2 * a + 1,
            y == 2 * b + 1,
    ;
    lemma_fundamental_div_mod_converse(x - y, 2, a - b, 0);
}

/// The difference of two odd integers is even; exposed for reasoning about
/// slot indices of odd values elsewhere in the crate.
pub proof fn lemma_odd_diff_pub(x: int, y: int)
    requires
        x % 2 == 1,
        y % 2 == 1,
    ensures
        (x - y) % 2 == 0,
        x == y + 2 * ((x - y) / 2),
{
    lemma_odd_diff(x, y);
}

/// Half of an even multiple of an odd number is still a multiple of it.
proof fn lemma_halve_multiple(x: int, p: int)
    requires
        x >= 0,
        p >= 3,
        p % 2 == 1,
        x % 2 == 0,
        x % p == 0,
    ensures
        (x / 2) % p == 0,
{
    let k = x / p;
    lemma_multiple_form(x, p);
    if k % 2 != 0 {
        lemma_odd_times_odd(p, k);
        assert(x == k * p) by (nonlinear_arith)
            requires
                x == p * k,
        ;
        assert((p * k) % 2 == 1);
        assert(false);
    }
    let h = k / 2;
    lemma_multiple_form(k, 2);
    assert(x == (p * h) * 2 + 0) by (nonlinear_arith)
        requires
            x == p * k,
            k == 2 * h,
    ;
    lemma_fundamental_div_mod_converse(x, 2, p * h, 0);
    assert(x / 2 == h * p) by (nonlinear_arith)
        requires
            x / 2 == p * h,
    ;
    lemma_mod_multiples_basic(h, p);
}

/// The difference of two multiples of `p` is a multiple of `p`.
proof fn lemma_sub_multiples(x: int, y: int, p: int)
    requires
        p >= 1,
        x % p == 0,
        y % p == 0,
    ensures
        (x - y) % p == 0,
{
    lemma_multiple_form(x, p);
    lemma_multiple_form(y, p);
    assert(x - y == (x / p - y / p) * p) by (nonlinear_arith)
        requires
            x == p * (x / p),
            y == p * (y / p),
    ;
    lemma_mod_multiples_basic(x / p - y / p, p);
}

/// Adding an even number of `p`-strides to a multiple of `p` stays a
/// multiple of `p`.
proof fn lemma_add_multiple(x: int, t: int, p: int)
    requires
        p >= 1,
        x % p == 0,
    ensures
        (x + 2 * p * t) % p == 0,
{
    lemma_multiple_form(x, p);
    assert(x + 2 * p * t == (x / p + 2 * t) * p) by (nonlinear_arith)
        requires
            x == p * (x / p),
    ;
    lemma_mod_multiples_basic(x / p + 2 * t, p);
}

pub struct Sieve {
    /// One flag per slot; `true` means still a candidate prime.
    pub marks: Vec<bool>,
    /// Odd integer held by slot 0.
    pub start: u128,
    /// Odd integer held by the last slot: `start + 2*(SIZE-1)`.
    pub end: u128,
    /// Next slot the scan will look at.
    pub cursor: usize,
    /// The primes whose multiples have been marked in this window.
    pub applied: Ghost<Set<nat>>,
}

impl Sieve {
    /// The odd integer represented by slot `i`.
    pub open spec fn value_at(&self, i: int) -> int {
        self.start as int + 2 * i
    }

    /// Slot `i` holds a multiple (at least the square) of the applied prime `q`.
    pub open spec fn slot_hit(&self, i: int, q: nat) -> bool {
        &&& self.applied@.contains(q)
        &&& (q * q) as int <= self.value_at(i)
        &&& self.value_at(i) % (q as int) == 0
    }

    /// Slot `i` is witnessed composite by some applied prime.
    pub open spec fn slot_composite(&self, i: int) -> bool {
        exists|q: nat| self.slot_hit(i, q)
    }

    pub open spec fn wf(&self) -> bool {
        &&& self.marks.len() == SIZE
        &&& 3 <= self.start
        &&& self.start as int % 2 == 1
        &&& self.start <= 0x1_0000_0000_0000_0000u128
        &&& self.end as int == self.start as int + 2 * (SIZE as int - 1)
        &&& self.cursor <= SIZE
        &&& (forall|q: nat| self.applied@.contains(q) ==> prime(q) && q % 2 == 1)
        &&& (forall|i: int|
            0 <= i < SIZE as int ==> (#[trigger] self.marks@[i] <==> !self.slot_composite(i)))
    }

    /// Well-formedness only reads the window position, the marks and the
    /// applied set, so it survives a change of cursor.
    proof fn lemma_wf_same_window(a: Sieve, b: Sieve)
        requires
            a.wf(),
            b.marks.len() == SIZE,
            b.marks@ == a.marks@,
            b.start == a.start,
            b.end == a.end,
            b.applied@ == a.applied@,
            b.cursor <= SIZE,
        ensures
            b.wf(),
    {
        assert forall|i: int| 0 <= i < SIZE as int implies (b.marks@[i] <==> !b.slot_composite(
            i,
        )) by {
            assert(a.marks@[i] <==> !a.slot_composite(i));
            if b.slot_composite(i) {
                let q = choose|q: nat| b.slot_hit(i, q);
                assert(a.slot_hit(i, q));
            }
            if a.slot_composite(i) {
                let q = choose|q: nat| a.slot_hit(i, q);
                assert(b.slot_hit(i, q));
            }
        }
    }

    /// A prime value in the window is never marked composite.
    pub proof fn lemma_prime_unmarked(&self, i: int)
        requires
            self.wf(),
            0 <= i < SIZE as int,
            prime(self.value_at(i) as nat),
        ensures
            self.marks@[i],
    {
        let v = self.value_at(i);
        if !self.marks@[i] {
            let q = choose|q: nat| self.slot_hit(i, q);
            assert(prime(q));
            assert((q * q) as int <= v);
            assert(q < v) by (nonlinear_arith)
                requires
                    q >= 2,
                    (q * q) as int <= v,
            ;
            assert((v as nat) % q != 0);
            assert(false);
        }
    }

    /// A fresh window positioned at 3, every slot a candidate. The scan
    /// starts at slot 1 because slot 0 holds the seed prime 3, which the
    /// stream yields directly.
    pub fn new() -> (s: Sieve)
        ensures
            s.wf(),
            s.start == 3,
            s.cursor == 1,
            s.applied@ =~= Set::<nat>::empty(),
            forall|i: int| 0 <= i < SIZE as int ==> s.marks@[i],
    {
        let mut marks: Vec<bool> = Vec::new();
        let mut k: usize = 0;
        while k < SIZE
            invariant
                marks.len() == k,
                k <= SIZE,
                forall|i: int| 0 <= i < k ==> marks@[i],
            decreases SIZE - k,
        {
            marks.push(true);
            k += 1;
        }
        let s = Sieve {
            marks,
            start: 3,
            end: 3 + 2 * (SIZE as u128 - 1),
            cursor: 1,
            applied: Ghost(Set::empty()),
        };
        proof {
            assert forall|i: int| 0 <= i < SIZE as int implies (s.marks@[i] <==> !s.slot_composite(
                i,
            )) by {
                if s.slot_composite(i) {
                    let q = choose|q: nat| s.slot_hit(i, q);
                    assert(s.applied@.contains(q));
                    assert(false);
                }
            }
        }
        s
    }

    /// Discard the marks and move the window forward by its full width.
    /// Correctness of later scans rests on the caller re-marking every
    /// needed prime, which the empty `applied` set records.
    pub fn slide(&mut self)
        requires
            old(self).wf(),
            old(self).start as int + 2 * SIZE as int <= 0x1_0000_0000_0000_0000u128 as int,
        ensures
            final(self).wf(),
            final(self).start as int == old(self).start as int + 2 * SIZE as int,
            final(self).end as int == old(self).end as int + 2 * SIZE as int,
            final(self).cursor == 0,
            final(self).applied@ =~= Set::<nat>::empty(),
    {
        let mut k: usize = 0;
        while k < SIZE
            invariant
                self.marks.len() == SIZE,
                k <= SIZE,
                forall|i: int| 0 <= i < k ==> self.marks@[i],
                self.start == old(self).start,
                self.end == old(self).end,
                self.cursor == old(self).cursor,
            decreases SIZE - k,
        {
            self.marks.set(k, true);
            k += 1;
        }
        self.start = self.start + 2 * (SIZE as u128);
        self.end = self.end + 2 * (SIZE as u128);
        self.cursor = 0;
        self.applied = Ghost(Set::empty());
        proof {
            assert forall|i: int| 0 <= i < SIZE as int implies (self.marks@[i]
                <==> !self.slot_composite(i)) by {
                if self.slot_composite(i) {
                    let q = choose|q: nat| self.slot_hit(i, q);
                    assert(self.applied@.contains(q));
                    assert(false);
                }
            }
        }
    }

    /// Scan forward from the cursor; yield the first still-candidate slot as
    /// its odd integer, leaving the cursor just past it, or report the window
    /// exhausted.
    pub fn next_prime(&mut self) -> (r: Option<u128>)
        requires
            old(self).wf(),
        ensures
            final(self).wf(),
            final(self).start == old(self).start,
            final(self).end == old(self).end,
            final(self).marks@ == old(self).marks@,
            final(self).applied@ == old(self).applied@,
            match r {
                Some(v) => {
                    &&& old(self).cursor < final(self).cursor <= SIZE
                    &&& final(self).marks@[final(self).cursor - 1]
                    &&& v as int == final(self).value_at(final(self).cursor as int - 1)
                    &&& forall|j: int|
                        old(self).cursor <= j < final(self).cursor - 1 ==> !final(self).marks@[j]
                },
                None => {
                    &&& final(self).cursor == SIZE
                    &&& forall|j: int|
                        old(self).cursor <= j < SIZE as int ==> !final(self).marks@[j]
                },
            },
    {
        let mut i: usize = self.cursor;
        while i < SIZE
            invariant
                old(self).wf(),
                self.marks@ == old(self).marks@,
                self.marks.len() == SIZE,
                self.start == old(self).start,
                self.end == old(self).end,
                self.cursor == old(self).cursor,
                self.applied@ == old(self).applied@,
                old(self).cursor <= i <= SIZE,
                forall|j: int| old(self).cursor <= j < i ==> !self.marks@[j],
            decreases SIZE - i,
        {
            if self.marks[i] {
                let v = self.start + 2 * (i as u128);
                self.cursor = i + 1;
                proof {
                    Self::lemma_wf_same_window(*old(self), *self);
                }
                return Some(v);
            }
            i += 1;
        }
        self.cursor = SIZE;
        proof {
            Self::lemma_wf_same_window(*old(self), *self);
        }
        None
    }

    /// Mark every slot holding an odd multiple of `p` that is at least
    /// `p * p`, recording `p` as applied.
    pub fn sieve(&mut self, p: u64)
        requires
            old(self).wf(),
            prime(p as nat),
            p % 2 == 1,
            p >= 3,
            (p as int) * (p as int) <= old(self).end as int,
        ensures
            final(self).wf(),
            final(self).start == old(self).start,
            final(self).end == old(self).end,
            final(self).cursor == old(self).cursor,
            final(self).applied@ =~= old(self).applied@.insert(p as nat),
    {
        let ghost st: int = self.start as int;
        let ghost pp: int = p as int;
        proof {
            // p fits in 33 bits, since its square fits in the window bound
            assert(pp <= 0x2_0000_0000) by (nonlinear_arith)
                requires
                    pp * pp <= 0x1_0000_0000_0010_0000,
                    pp >= 0,
            ;
        }
        let sq: u128 = (p as u128) * (p as u128);
        proof {
            lemma_mod_multiples_basic(pp, pp);
            assert(sq as int == pp * pp);
            lemma_odd_times_odd(pp, pp);
        }
        let c: u128 = if sq >= self.start {
            sq
        } else {
            let q = self.start / (p as u128);
            proof {
                lemma_fundamental_div_mod(st, pp);
                lemma_mul_is_commutative(q as int, pp);
            }
            let m = q * (p as u128);
            if q % 2 == 0 {
                // `m` is an even multiple; the next one up is odd.
                proof {
                    lemma_even_times(q as int, pp);
                    assert(m as int + pp == (q as int + 1) * pp) by (nonlinear_arith)
                        requires
                            m as int == q as int * pp,
                    ;
                    lemma_odd_times_odd(q as int + 1, pp);
                    lemma_mod_multiples_basic(q as int + 1, pp);
                    lemma_mul_is_commutative(q as int + 1, pp);
                }
                m + (p as u128)
            } else if m == self.start {
                proof {
                    lemma_mod_multiples_basic(q as int, pp);
                    lemma_mul_is_commutative(q as int, pp);
                }
                m
            } else {
                // `m` is an odd multiple below `start`; `m + p` is even, so
                // the first odd multiple at or past `start` is `m + 2p`.
                proof {
                    lemma_odd_times_odd(q as int, pp);
                    assert(m as int + 2 * pp == (q as int + 2) * pp) by (nonlinear_arith)
                        requires
                            m as int == q as int * pp,
                    ;
                    lemma_odd_times_odd(q as int + 2, pp);
                    lemma_mod_multiples_basic(q as int + 2, pp);
                    lemma_mul_is_commutative(q as int + 2, pp);
                }
                m + 2 * (p as u128)
            }
        };
        let ghost ci: int = c as int;
        proof {
            // c is an odd multiple of p, at or past both start and p*p,
            // and within reach of a 64-bit slot index.
            assert(ci % pp == 0);
            assert(ci % 2 == 1);
            assert(ci >= st);
            assert(ci >= pp * pp);
            assert(ci <= st + 2 * pp || ci <= old(self).end as int);
            // Minimality: any odd multiple of p at or past both bounds is >= c.
            assert forall|v: int|
                v % 2 == 1 && #[trigger] (v % pp) == 0 && v >= st && v >= pp * pp implies v
                >= ci by {
                if sq as int >= st {
                } else {
                    let q = st / pp;
                    let k = v / pp;
                    lemma_multiple_form(v, pp);
                    lemma_fundamental_div_mod(st, pp);
                    assert(k >= q) by (nonlinear_arith)
                        requires
                            v == pp * k,
                            st == pp * q + st % pp,
                            0 <= st % pp < pp,
                            v >= st,
                            pp >= 1,
                    ;
                    if st % pp == 0 {
                        // the first multiple at or past start is start itself,
                        // and its quotient must be odd because start is odd
                        assert(st == pp * q);
                        if q % 2 == 0 {
                            lemma_even_times(q, pp);
                            lemma_mul_is_commutative(q, pp);
                            assert(false);
                        }
                        assert(ci == st);
                    } else {
                        assert(k > q) by (nonlinear_arith)
                            requires
                                v == pp * k,
                                st == pp * q + st % pp,
                                0 < st % pp < pp,
                                v >= st,
                                pp >= 1,
                        ;
                        if q % 2 == 0 {
                            assert(ci == q * pp + pp);
                            assert(v >= (q + 1) * pp) by (nonlinear_arith)
                                requires
                                    v == pp * k,
                                    k >= q + 1,
                                    pp >= 1,
                            ;
                        } else {
                            assert(ci == q * pp + 2 * pp);
                            if k == q + 1 {
                                lemma_fundamental_div_mod(q, 2);
                                lemma_fundamental_div_mod_converse(q + 1, 2, q / 2 + 1, 0);
                                lemma_even_times(k, pp);
                                assert(v == k * pp) by (nonlinear_arith)
                                    requires
                                        v == pp * k,
                                ;
                                assert(false);
                            }
                            assert(v >= (q + 2) * pp) by (nonlinear_arith)
                                requires
                                    v == pp * k,
                                    k >= q + 2,
                                    pp >= 1,
                            ;
                        }
                    }
                }
            }
        }
        // Slot index of c, and the marking walk in steps of p.
        let ghost marks0 = self.marks@;
        let ghost idx0: int = (ci - st) / 2;
        proof {
            lemma_odd_diff(ci, st);
            assert(ci == st + 2 * idx0);
            assert(idx0 <= SIZE as int + 0x2_0000_0000);
            lemma_mod_multiples_basic(0, pp);
            assert((0int) % pp == 0);
        }
        let idx_wide: u128 = (c - self.start) / 2;
        let mut idx: u64 = idx_wide as u64;
        proof {
            assert(idx_wide as int == idx0);
            assert(idx as int == idx0);
        }
        while idx < SIZE as u64
            invariant
                self.marks.len() == SIZE,
                self.start == old(self).start,
                self.end == old(self).end,
                self.cursor == old(self).cursor,
                self.applied@ == old(self).applied@,
                st == self.start as int,
                pp == p as int,
                3 <= pp <= 0x2_0000_0000,
                idx0 <= idx as int,
                (idx as int - idx0) % pp == 0,
                forall|j: int|
                    0 <= j < SIZE as int ==> #[trigger] self.marks@[j] == (marks0[j] && !(idx0 <= j
                        < idx as int && (j - idx0) % pp == 0)),
            decreases (if (idx as int) < SIZE as int {
                SIZE as int - idx as int
            } else {
                0int
            }),
        {
            self.marks.set(idx as usize, false);
            proof {
                lemma_mod_add_multiples_vanish(idx as int - idx0, pp);
                assert((idx as int + pp - idx0) % pp == 0);
                assert forall|j: int|
                    0 <= j < SIZE as int implies #[trigger] self.marks@[j] == (marks0[j] && !(idx0
                    <= j < idx as int + pp && (j - idx0) % pp == 0)) by {
                    if (idx as int) < j && j < (idx as int) + pp && (j - idx0) % pp == 0 {
                        // no other multiple strictly between idx and idx + p
                        lemma_sub_multiples(j - idx0, idx as int - idx0, pp);
                        let d = j - idx as int;
                        assert(d % pp == 0);
                        lemma_multiple_form(d, pp);
                        assert(false) by (nonlinear_arith)
                            requires
                                d == pp * (d / pp),
                                0 < d < pp,
                                pp >= 1,
                        ;
                    }
                }
            }
            idx = idx + p;
        }
        let ghost applied0 = self.applied@;
        self.applied = Ghost(applied0.insert(p as nat));
        proof {
            let s = *self;
            assert forall|i: int| 0 <= i < SIZE as int implies (s.marks@[i] <==> !s.slot_composite(
                i,
            )) by {
                let v = s.value_at(i);
                assert(v == st + 2 * i);
                assert(v % 2 == 1) by {
                    lemma_fundamental_div_mod(st, 2);
                    lemma_fundamental_div_mod_converse(v, 2, st / 2 + i, 1);
                }
                // the loop's hit set coincides with "odd multiple of p at
                // least p*p"
                let loophit = idx0 <= i && (i - idx0) % pp == 0;
                let phit = v % pp == 0 && pp * pp <= v;
                if loophit {
                    let t = (i - idx0) / pp;
                    lemma_multiple_form(i - idx0, pp);
                    assert(v == ci + 2 * pp * t) by (nonlinear_arith)
                        requires
                            v == st + 2 * i,
                            ci == st + 2 * idx0,
                            i - idx0 == pp * t,
                    ;
                    lemma_add_multiple(ci, t, pp);
                    assert(v >= ci) by (nonlinear_arith)
                        requires
                            v == ci + 2 * pp * t,
                            t >= 0,
                            pp >= 1,
                    ;
                    assert(phit);
                }
                if phit && !loophit {
                    assert(v >= ci);
                    assert(i >= idx0);
                    lemma_sub_multiples(v, ci, pp);
                    assert(v - ci == 2 * (i - idx0));
                    assert((2 * (i - idx0)) % 2 == 0 && (2 * (i - idx0)) / 2 == i - idx0) by {
                        assert(2 * (i - idx0) == (i - idx0) * 2 + 0);
                        lemma_fundamental_div_mod_converse(2 * (i - idx0), 2, i - idx0, 0);
                    }
                    lemma_halve_multiple(2 * (i - idx0), pp);
                    assert(false);
                }
                // now relate the mark to the new applied set
                if !s.marks@[i] {
                    if marks0[i] {
                        assert(loophit);
                        assert(s.slot_hit(i, p as nat));
                        assert(s.slot_composite(i));
                    } else {
                        assert(old(self).slot_composite(i));
                        let q = choose|q: nat| old(self).slot_hit(i, q);
                        assert(s.slot_hit(i, q));
                        assert(s.slot_composite(i));
                    }
                } else {
                    assert(marks0[i] && !loophit);
                    if s.slot_composite(i) {
                        let q = choose|q: nat| s.slot_hit(i, q);
                        if q == p as nat {
                            assert(phit);
                            assert(false);
                        } else {
                            assert(old(self).slot_hit(i, q));
                            assert(!old(self).marks@[i]);
                            assert(false);
                        }
                    }
                }
            }
        }
    }
}

} // verus!
