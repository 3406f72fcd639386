//! Mapping sequence numbers to ring slots.

use vstd::arithmetic::div_mod::*;
use vstd::prelude::*;

verus! {

/// The slot that sequence `seq` occupies in a ring of `capacity` slots.
pub open spec fn slot_of(seq: nat, capacity: nat) -> nat {
    seq % capacity
}

/// Precomputed constants for mapping sequence numbers to ring slots.
///
/// A power-of-two capacity needs one bitwise AND. Any other capacity uses a
/// reciprocal multiply with a single conditional correction, so no division
/// happens after construction.
#[derive(Clone, Copy)]
pub struct RingIndex {
    pub(crate) capacity: u64,
    /// `capacity - 1` when the capacity is a power of two, otherwise 0.
    pub(crate) mask: u64,
    /// `floor(2^64 / capacity)`.
    pub(crate) reciprocal: u64,
    pub(crate) is_pow2: bool,
}

/// Whether `n` has exactly one bit set.
pub open spec fn single_bit(n: u64) -> bool {
    n != 0 && n & (n - 1) as u64 == 0
}

impl RingIndex {
    /// Number of slots that are indexed.
    pub open(crate) spec fn slots(&self) -> nat {
        self.capacity as nat
    }

    /// The constants agree with the capacity.
    pub open(crate) spec fn wf(&self) -> bool {
        &&& 2 <= self.capacity <= usize::MAX
        &&& self.reciprocal as int == 0x1_0000_0000_0000_0000int / self.capacity as int
        &&& self.is_pow2 == single_bit(self.capacity)
        &&& self.is_pow2 ==> self.mask == self.capacity - 1
    }

    /// Index for a ring of `capacity` slots.
    pub fn new(capacity: usize) -> (index: RingIndex)
        requires
            capacity >= 2,
        ensures
            index.wf(),
            index.slots() == capacity,
    {
        let cap: u64 = capacity as u64;
        let is_pow2 = cap & (cap - 1) == 0;
        let mask: u64 = if is_pow2 { cap - 1 } else { 0 };
        let quotient: u128 = 0x1_0000_0000_0000_0000u128 / (cap as u128);
        assert(quotient <= 0x8000_0000_0000_0000) by (nonlinear_arith)
            requires
                quotient == 0x1_0000_0000_0000_0000u128 / (cap as u128),
                cap >= 2,
        ;
        let reciprocal: u64 = quotient as u64;
        RingIndex { capacity: cap, mask, reciprocal, is_pow2 }
    }

    /// Slot index of sequence `seq`.
    pub fn slot(&self, seq: u64) -> (slot: usize)
        requires
            self.wf(),
        ensures
            slot == slot_of(seq as nat, self.slots()),
            slot == seq as nat % self.slots(),
            slot < self.slots(),
    {
        let slot: u64 = if self.is_pow2 {
            proof {
                lemma_mask_is_mod(seq, self.capacity);
            }
            seq & self.mask
        } else {
            self.fastmod(seq)
        };
        proof {
            lemma_mod_bound(seq as int, self.capacity as int);
        }
        slot as usize
    }

    /// `n % capacity` without a division: approximate the quotient by the
    /// reciprocal, then correct the remainder at most once.
    pub fn fastmod(&self, n: u64) -> (r: u64)
        requires
            self.wf(),
        ensures
            r == n as nat % self.slots(),
    {
        assert(n * self.reciprocal <= 0xffff_ffff_ffff_ffff * 0xffff_ffff_ffff_ffff) by (nonlinear_arith)
            requires
                n <= 0xffff_ffff_ffff_ffff,
                self.reciprocal <= 0xffff_ffff_ffff_ffff,
        ;
        let product: u128 = (n as u128) * (self.reciprocal as u128);
        let high: u128 = product >> 64;
        assert(high == product / 0x1_0000_0000_0000_0000u128) by (bit_vector)
            requires
                high == product >> 64,
        ;
        assert(high <= 0xffff_ffff_ffff_ffff) by (bit_vector)
            requires
                high == product >> 64,
        ;
        let q: u64 = high as u64;
        proof {
            lemma_quotient_estimate(n as int, self.capacity as int, self.reciprocal as int, q as int);
        }
        let mut r: u64 = n - q * self.capacity;
        if r >= self.capacity {
            r = r - self.capacity;
        }
        r
    }
}

/// The reciprocal estimate `q` of `n / d` is exact or one too small.
proof fn lemma_quotient_estimate(n: int, d: int, m: int, q: int)
    requires
        0 <= n < 0x1_0000_0000_0000_0000,
        d >= 2,
        m == 0x1_0000_0000_0000_0000int / d,
        q == (n * m) / 0x1_0000_0000_0000_0000int,
    ensures
        0 <= q * d <= n,
        n - q * d < 2 * d,
        n - q * d < d ==> n % d == n - q * d,
        n - q * d >= d ==> n % d == n - q * d - d,
{
    let b = 0x1_0000_0000_0000_0000int;
    let e = b % d;
    lemma_fundamental_div_mod(b, d);
    lemma_mod_bound(b, d);
    let k = n / d;
    let r = n % d;
    lemma_fundamental_div_mod(n, d);
    lemma_mod_bound(n, d);
    let t = (n * m) % b;
    lemma_fundamental_div_mod(n * m, b);
    lemma_mod_bound(n * m, b);
    // b == d * m + e and n * m == b * q + t.
    assert(q >= 0) by (nonlinear_arith)
        requires
            n * m == b * q + t,
            0 <= t < b,
            b == 0x1_0000_0000_0000_0000int,
            n >= 0,
            m >= 0,
    ;
    assert(b * (q * d) <= b * n) by (nonlinear_arith)
        requires
            n * m == b * q + t,
            b == d * m + e,
            t >= 0,
            e >= 0,
            n >= 0,
            d >= 2,
    ;
    assert(q * d <= n) by (nonlinear_arith)
        requires
            b * (q * d) <= b * n,
            b == 0x1_0000_0000_0000_0000int,
    ;
    // b * (n - q * d) == n * e + t * d < b * d + b * d.
    assert(b * (n - q * d) == n * e + t * d) by (nonlinear_arith)
        requires
            n * m == b * q + t,
            b == d * m + e,
    ;
    assert(n * e < b * d) by (nonlinear_arith)
        requires
            0 <= n < b,
            0 <= e < d,
    ;
    assert(t * d < b * d) by (nonlinear_arith)
        requires
            0 <= t < b,
            d >= 2,
    ;
    assert(n - q * d < 2 * d) by (nonlinear_arith)
        requires
            b * (n - q * d) < b * d + b * d,
            b == 0x1_0000_0000_0000_0000int,
    ;
    assert(q * d >= 0) by (nonlinear_arith)
        requires
            q >= 0,
            d >= 2,
    ;
    if n - q * d < d {
        lemma_fundamental_div_mod_converse(n, d, q, n - q * d);
    } else {
        assert((q + 1) * d == q * d + d) by (nonlinear_arith);
        lemma_fundamental_div_mod_converse(n, d, q + 1, n - q * d - d);
    }
}

/// Masking with `n - 1` takes the remainder modulo a power of two `n`.
proof fn lemma_mask_is_mod(x: u64, n: u64)
    requires
        single_bit(n),
    ensures
        x & (n - 1) as u64 == x % n,
    decreases n,
{
    if n == 1 {
        assert(x & 0 == 0) by (bit_vector);
    } else {
        let m = (n - 1) as u64;
        let h = n / 2;
        let hm = (h - 1) as u64;
        assert(n % 2 == 0 && h != 0 && h & hm == 0 && x & m == 2 * ((x / 2) & hm) + x % 2)
            by (bit_vector)
            requires
                n & m == 0,
                n > 1,
                m == n - 1,
                h == n / 2,
                hm == h - 1,
        ;
        lemma_mask_is_mod(x / 2, h);
        lemma_mod_breakdown(x as int, 2, h as int);
    }
}

/// The slots are taken one after the other, over and over: sequence `seq` of lap `lap`
/// is in slot `seq`.
pub proof fn lemma_slots_in_order(seq: nat, lap: nat, capacity: nat)
    requires
        seq < capacity,
    ensures
        slot_of(seq, capacity) == seq,
        slot_of(lap * capacity + seq, capacity) == seq,
{
    lemma_small_mod(seq, capacity);
    lemma_mod_multiples_vanish(lap as int, seq as int, capacity as int);
    assert(capacity * lap == lap * capacity) by (nonlinear_arith);
}

/// Adding the capacity to a sequence keeps its slot.
pub proof fn lemma_slot_lap(seq: nat, capacity: nat)
    requires
        capacity > 0,
    ensures
        slot_of(seq + capacity, capacity) == slot_of(seq, capacity),
        slot_of(seq, capacity) < capacity,
{
    lemma_mod_add_multiples_vanish(seq as int, capacity as int);
    lemma_mod_bound(seq as int, capacity as int);
    assert(seq + capacity == capacity + seq);
}

/// Two sequences that share a slot are at least a full ring apart.
pub proof fn lemma_slot_apart(a: nat, b: nat, capacity: nat)
    requires
        capacity > 0,
        a < b,
        slot_of(a, capacity) == slot_of(b, capacity),
    ensures
        a + capacity <= b,
{
    let c = capacity as int;
    lemma_fundamental_div_mod(a as int, c);
    lemma_fundamental_div_mod(b as int, c);
    let qa = a as int / c;
    let qb = b as int / c;
    assert(b - a == c * (qb - qa)) by (nonlinear_arith)
        requires
            a == c * qa + a as int % c,
            b == c * qb + b as int % c,
            a as int % c == b as int % c,
    ;
    assert(qb - qa >= 1) by (nonlinear_arith)
        requires
            c * (qb - qa) > 0,
            c > 0,
    ;
    assert(c * (qb - qa) >= c) by (nonlinear_arith)
        requires
            qb - qa >= 1,
            c > 0,
    ;
}

} // verus!
