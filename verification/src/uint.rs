//! Unsigned 256-bit amounts, held as two 128-bit halves. Balances, rewards
//! and stakes on the ledger are integers of this width; the joiner sums them
//! and scales rewards down by a fixed-point divisor.

use vstd::arithmetic::div_mod::{
    lemma_fundamental_div_mod, lemma_fundamental_div_mod_converse, lemma_mod_bound,
};
use vstd::prelude::*;

verus! {

/// 2^64, the weight of one 64-bit limb.
pub open spec fn base64() -> int {
    0x1_0000_0000_0000_0000
}

/// 2^128, the weight of the high half of a [`U256`].
pub open spec fn base128() -> int {
    0x1_0000_0000_0000_0000_0000_0000_0000_0000int
}

/// 2^256, one past the largest representable amount.
pub open spec fn bound256() -> int {
    base128() * base128()
}

/// An unsigned 256-bit integer.
#[derive(Clone, Copy, PartialEq, Eq, Structural, Debug)]
pub struct U256 {
    pub hi: u128,
    pub lo: u128,
}

impl U256 {
    /// The mathematical value of the amount.
    pub open spec fn val(self) -> int {
        self.hi * base128() + self.lo
    }

    /// The amount zero.
    pub fn zero() -> (r: U256)
        ensures
            r.val() == 0,
    {
        U256 { hi: 0, lo: 0 }
    }

    /// An amount small enough for one machine word pair.
    pub fn from_u128(v: u128) -> (r: U256)
        ensures
            r.val() == v,
    {
        U256 { hi: 0, lo: v }
    }

    /// An amount from its two 128-bit halves.
    pub fn from_halves(hi: u128, lo: u128) -> (r: U256)
        ensures
            r.val() == hi * base128() + lo,
    {
        U256 { hi, lo }
    }

    /// Whether two amounts are the same value.
    pub fn same(self, other: U256) -> (r: bool)
        ensures
            r <==> self.val() == other.val(),
    {
        proof {
            if self.hi != other.hi || self.lo != other.lo {
                lemma_halves_determine(self, other);
            }
        }
        self.hi == other.hi && self.lo == other.lo
    }

    /// Addition; `None` exactly when the sum does not fit in 256 bits.
    pub fn checked_add(self, other: U256) -> (r: Option<U256>)
        ensures
            r is Some <==> self.val() + other.val() < bound256(),
            r is Some ==> r->Some_0.val() == self.val() + other.val(),
    {
        let max: u128 = u128::MAX;
        if self.lo <= max - other.lo {
            let lo = self.lo + other.lo;
            if self.hi <= max - other.hi {
                let hi = self.hi + other.hi;
                proof {
                    lemma_add_no_carry(self, other, hi as int, lo as int);
                }
                Some(U256 { hi, lo })
            } else {
                proof {
                    lemma_add_top_overflow(self, other, 0);
                }
                None
            }
        } else {
            let lo = self.lo - (max - other.lo) - 1;
            if self.hi == max || other.hi == max || self.hi + 1 > max - other.hi {
                proof {
                    lemma_add_top_overflow(self, other, 1);
                }
                None
            } else {
                let hi = self.hi + other.hi + 1;
                proof {
                    lemma_add_with_carry(self, other, hi as int, lo as int);
                }
                Some(U256 { hi, lo })
            }
        }
    }

    /// Division by a positive 64-bit divisor; the quotient rounds down.
    pub fn div_u64(self, d: u64) -> (r: U256)
        requires
            d > 0,
        ensures
            r.val() == self.val() / (d as int),
    {
        let b64: u128 = 0x1_0000_0000_0000_0000;
        let dd = d as u128;
        let a3 = self.hi / b64;
        let a2 = self.hi % b64;
        let a1 = self.lo / b64;
        let a0 = self.lo % b64;
        proof {
            lemma_fundamental_div_mod(self.hi as int, base64());
            lemma_mod_bound(self.hi as int, base64());
            lemma_fundamental_div_mod(self.lo as int, base64());
            lemma_mod_bound(self.lo as int, base64());
            assert(a3 < b64) by (nonlinear_arith)
                requires
                    self.hi < base64() * base64(),
                    a3 == self.hi as int / base64(),
                    self.hi as int == base64() * (self.hi as int / base64()) + self.hi as int
                        % base64(),
                    0 <= self.hi as int % base64() < base64(),
                    b64 == base64(),
            ;
        }
        let q3 = a3 / dd;
        let r3 = a3 % dd;
        proof {
            lemma_limb_step_bounds(a3 as int, dd as int, q3 as int, r3 as int);
        }
        let t2 = r3 * b64 + a2;
        let q2 = t2 / dd;
        let r2 = t2 % dd;
        proof {
            lemma_limb_step_bounds(t2 as int, dd as int, q2 as int, r2 as int);
        }
        let t1 = r2 * b64 + a1;
        let q1 = t1 / dd;
        let r1 = t1 % dd;
        proof {
            lemma_limb_step_bounds(t1 as int, dd as int, q1 as int, r1 as int);
        }
        let t0 = r1 * b64 + a0;
        let q0 = t0 / dd;
        let r0 = t0 % dd;
        proof {
            lemma_limb_step_bounds(t0 as int, dd as int, q0 as int, r0 as int);
        }
        let hi = q3 * b64 + q2;
        let lo = q1 * b64 + q0;
        proof {
            lemma_div_u64_correct(
                self,
                dd as int,
                a3 as int,
                a2 as int,
                a1 as int,
                a0 as int,
                q3 as int,
                q2 as int,
                q1 as int,
                q0 as int,
                r3 as int,
                r2 as int,
                r1 as int,
                r0 as int,
                hi as int,
                lo as int,
            );
        }
        U256 { hi, lo }
    }
}

/// Every amount's value lies in the 256-bit range.
pub proof fn lemma_val_bounds(a: U256)
    ensures
        0 <= a.val() < bound256(),
{
    assert(0 <= a.val() < bound256()) by (nonlinear_arith)
        requires
            0 <= a.hi < base128(),
            0 <= a.lo < base128(),
            a.val() == a.hi * base128() + a.lo,
    ;
}

/// Two amounts with different halves have different values.
proof fn lemma_halves_determine(a: U256, b: U256)
    requires
        a.hi != b.hi || a.lo != b.lo,
    ensures
        a.val() != b.val(),
{
    assert(a.val() != b.val()) by (nonlinear_arith)
        requires
            a.hi != b.hi || a.lo != b.lo,
            0 <= a.lo < base128(),
            0 <= b.lo < base128(),
            0 <= a.hi,
            0 <= b.hi,
            a.val() == a.hi * base128() + a.lo,
            b.val() == b.hi * base128() + b.lo,
    ;
}

/// Value equation for an addition whose low halves do not carry.
proof fn lemma_add_no_carry(a: U256, b: U256, hi: int, lo: int)
    requires
        hi == a.hi + b.hi,
        lo == a.lo + b.lo,
        lo < base128(),
        hi < base128(),
    ensures
        hi * base128() + lo == a.val() + b.val(),
        a.val() + b.val() < bound256(),
{
    assert(hi * base128() + lo == a.val() + b.val() && a.val() + b.val() < bound256())
        by (nonlinear_arith)
        requires
            hi == a.hi + b.hi,
            lo == a.lo + b.lo,
            0 <= lo < base128(),
            0 <= hi < base128(),
            a.val() == a.hi * base128() + a.lo,
            b.val() == b.hi * base128() + b.lo,
    ;
}

/// Value equation for an addition whose low halves carry one.
proof fn lemma_add_with_carry(a: U256, b: U256, hi: int, lo: int)
    requires
        hi == a.hi + b.hi + 1,
        lo == a.lo + b.lo - base128(),
        0 <= lo,
        hi < base128(),
    ensures
        hi * base128() + lo == a.val() + b.val(),
        a.val() + b.val() < bound256(),
{
    assert(hi * base128() + lo == a.val() + b.val() && a.val() + b.val() < bound256())
        by (nonlinear_arith)
        requires
            hi == a.hi + b.hi + 1,
            lo == a.lo + b.lo - base128(),
            0 <= lo,
            lo < base128(),
            0 <= hi < base128(),
            a.val() == a.hi * base128() + a.lo,
            b.val() == b.hi * base128() + b.lo,
    ;
}

/// When the high halves overflow (with or without a carry from below), the
/// sum does not fit in 256 bits.
proof fn lemma_add_top_overflow(a: U256, b: U256, carry: int)
    requires
        0 <= carry <= 1,
        carry == 1 ==> a.lo + b.lo >= base128(),
        a.hi + b.hi + carry >= base128(),
    ensures
        a.val() + b.val() >= bound256(),
{
    assert(a.val() + b.val() >= bound256()) by (nonlinear_arith)
        requires
            0 <= carry <= 1,
            carry == 1 ==> a.lo + b.lo >= base128(),
            a.hi + b.hi + carry >= base128(),
            0 <= a.lo < base128(),
            0 <= b.lo < base128(),
            a.val() == a.hi * base128() + a.lo,
            b.val() == b.hi * base128() + b.lo,
    ;
}

/// One limb step of the schoolbook division: the quotient digit fits in one
/// limb and the next partial value stays below `d * 2^64`.
proof fn lemma_limb_step_bounds(t: int, d: int, q: int, r: int)
    requires
        0 < d < base64(),
        0 <= t < d * base64(),
        q == t / d,
        r == t % d,
    ensures
        t == d * q + r,
        0 <= r < d,
        0 <= q < base64(),
        r * base64() < d * base64(),
        r * base64() + base64() <= d * base64(),
{
    lemma_fundamental_div_mod(t, d);
    lemma_mod_bound(t, d);
    assert(0 <= q < base64() && r * base64() + base64() <= d * base64()) by (nonlinear_arith)
        requires
            0 < d < base64(),
            0 <= t < d * base64(),
            t == d * q + r,
            0 <= r < d,
    ;
}

/// Correctness of the four-limb schoolbook division: the reassembled halves
/// carry exactly the rounded-down quotient of the value.
proof fn lemma_div_u64_correct(
    x: U256,
    d: int,
    a3: int,
    a2: int,
    a1: int,
    a0: int,
    q3: int,
    q2: int,
    q1: int,
    q0: int,
    r3: int,
    r2: int,
    r1: int,
    r0: int,
    hi: int,
    lo: int,
)
    requires
        0 < d < base64(),
        x.hi == a3 * base64() + a2,
        x.lo == a1 * base64() + a0,
        0 <= a2 < base64(),
        0 <= a0 < base64(),
        0 <= a3 < base64(),
        0 <= a1 < base64(),
        a3 == d * q3 + r3,
        r3 * base64() + a2 == d * q2 + r2,
        r2 * base64() + a1 == d * q1 + r1,
        r1 * base64() + a0 == d * q0 + r0,
        0 <= r3 < d,
        0 <= r2 < d,
        0 <= r1 < d,
        0 <= r0 < d,
        0 <= q3 < base64(),
        0 <= q2 < base64(),
        0 <= q1 < base64(),
        0 <= q0 < base64(),
        hi == q3 * base64() + q2,
        lo == q1 * base64() + q0,
    ensures
        hi * base128() + lo == x.val() / d,
{
    let k1 = base64();
    let v2 = a3 * k1 + a2;
    let v1 = v2 * k1 + a1;
    let v0 = v1 * k1 + a0;
    let w2 = q3 * k1 + q2;
    let w1 = w2 * k1 + q1;
    let w0 = w1 * k1 + q0;
    assert(v0 == x.val()) by (nonlinear_arith)
        requires
            x.hi == a3 * k1 + a2,
            x.lo == a1 * k1 + a0,
            v2 == a3 * k1 + a2,
            v1 == v2 * k1 + a1,
            v0 == v1 * k1 + a0,
            k1 == base64(),
            base128() == base64() * base64(),
            x.val() == x.hi * base128() + x.lo,
    ;
    assert(v2 == d * w2 + r2) by (nonlinear_arith)
        requires
            v2 == a3 * k1 + a2,
            a3 == d * q3 + r3,
            r3 * k1 + a2 == d * q2 + r2,
            w2 == q3 * k1 + q2,
    ;
    assert(v1 == d * w1 + r1) by (nonlinear_arith)
        requires
            v1 == v2 * k1 + a1,
            v2 == d * w2 + r2,
            r2 * k1 + a1 == d * q1 + r1,
            w1 == w2 * k1 + q1,
    ;
    assert(v0 == d * w0 + r0) by (nonlinear_arith)
        requires
            v0 == v1 * k1 + a0,
            v1 == d * w1 + r1,
            r1 * k1 + a0 == d * q0 + r0,
            w0 == w1 * k1 + q0,
    ;
    assert(hi * base128() + lo == w0) by (nonlinear_arith)
        requires
            hi == q3 * k1 + q2,
            lo == q1 * k1 + q0,
            w2 == q3 * k1 + q2,
            w1 == w2 * k1 + q1,
            w0 == w1 * k1 + q0,
            k1 == base64(),
            base128() == base64() * base64(),
    ;
    lemma_fundamental_div_mod_converse(v0, d, w0, r0);
}

} // verus!
