//! IEEE 754 binary32 numbers, held by their bit patterns.
//!
//! Exact values are whole multiples of the least positive number, which is the unit of all
//! magnitudes here: 2 to the power of -149.

use vstd::arithmetic::power2::{lemma2_to64, lemma_pow2_pos, lemma_pow2_unfold, pow2};
use vstd::prelude::*;

verus! {

/// A number in the binary32 format.
#[derive(Debug, Clone, Copy, PartialEq, Eq, Structural)]
pub struct Binary32 {
    pub bits: u32,
}

/// The bit of the sign.
pub const SIGN: u32 = 0x8000_0000;

/// The code of infinity: the bit pattern of positive infinity.
pub const INFINITE: u32 = 0x7f80_0000;

/// How many codes share one exponent.
pub const BINADE: u32 = 0x80_0000;

/// The magnitude that belongs to a code, in units. The code of infinity stands for the next
/// step after the largest finite number.
pub open spec fn mag(code: nat) -> nat {
    let e = code / BINADE as nat;
    let f = code % BINADE as nat;
    if e == 0 {
        f
    } else {
        (BINADE as nat + f) * pow2((e - 1) as nat)
    }
}

/// The bit pattern of one.
pub const ONE: u32 = 0x3f80_0000;

/// The bit pattern that stands for all that is not a number.
pub const NOT_A_NUMBER: u32 = 0x7fc0_0000;

impl Binary32 {
    /// Whether the sign bit is set.
    pub open spec fn negative(self) -> bool {
        self.bits >= SIGN
    }

    /// The bit pattern without the sign.
    pub open spec fn code(self) -> nat {
        if self.bits >= SIGN {
            (self.bits - SIGN) as nat
        } else {
            self.bits as nat
        }
    }

    /// Whether this is not a number.
    pub open spec fn nan(self) -> bool {
        self.code() > INFINITE
    }

    /// Whether this is one of the two infinities.
    pub open spec fn infinite(self) -> bool {
        self.code() == INFINITE
    }

    /// Whether this is a finite number.
    pub open spec fn finite(self) -> bool {
        self.code() < INFINITE
    }

    /// The value in units, with its sign. The infinities lie one step beyond the finite
    /// numbers.
    pub open spec fn value(self) -> int {
        if self.negative() {
            -mag(self.code())
        } else {
            mag(self.code()) as int
        }
    }

    /// Whether one number is less than another. What is not a number is less than nothing.
    pub open spec fn less(self, other: Self) -> bool {
        !self.nan() && !other.nan() && self.value() < other.value()
    }

    /// Whether one number is less than another or equal to it.
    pub open spec fn at_most(self, other: Self) -> bool {
        !self.nan() && !other.nan() && self.value() <= other.value()
    }

    /// The sign bit.
    pub fn is_negative(self) -> (r: bool)
        ensures
            r == self.negative(),
    {
        self.bits >= SIGN
    }

    /// The bit pattern without the sign.
    pub fn to_code(self) -> (r: u32)
        ensures
            r == self.code(),
            r < SIGN,
    {
        if self.bits >= SIGN {
            self.bits - SIGN
        } else {
            self.bits
        }
    }

    /// Whether this is not a number.
    pub fn is_nan(self) -> (r: bool)
        ensures
            r == self.nan(),
    {
        self.to_code() > INFINITE
    }

    /// `self < other`
    pub fn lt(self, other: Self) -> (r: bool)
        ensures
            r == self.less(other),
    {
        let a = self.to_code();
        let b = other.to_code();
        proof {
            lemma_mag_order(a as nat, b as nat);
            lemma_mag_order(0, a as nat);
            lemma_mag_order(0, b as nat);
        }
        if a > INFINITE || b > INFINITE {
            false
        } else if self.is_negative() {
            if other.is_negative() {
                a > b
            } else {
                a > 0 || b > 0
            }
        } else {
            !other.is_negative() && a < b
        }
    }

    /// `self <= other`
    pub fn le(self, other: Self) -> (r: bool)
        ensures
            r == self.at_most(other),
    {
        !self.is_nan() && !other.is_nan() && !other.lt(self)
    }

    /// The number with its sign turned.
    pub fn neg(self) -> (r: Self)
        ensures
            r.code() == self.code(),
            r.negative() == !self.negative(),
            r == self.turned(),
    {
        if self.bits >= SIGN {
            Binary32 { bits: self.bits - SIGN }
        } else {
            Binary32 { bits: self.bits + SIGN }
        }
    }

    /// The greater of two numbers; where one is not a number, the other.
    pub open spec fn greater(self, other: Self) -> Self {
        if self.nan() || self.less(other) {
            other
        } else {
            self
        }
    }

    /// The smaller of two numbers; where one is not a number, the other.
    pub open spec fn smaller(self, other: Self) -> Self {
        if self.nan() || other.less(self) {
            other
        } else {
            self
        }
    }

    /// The number held between two bounds. What is not a number stays.
    pub open spec fn held(self, low: Self, high: Self) -> Self {
        if self.less(low) {
            low
        } else if high.less(self) {
            high
        } else {
            self
        }
    }

    /// The greater of two numbers; where one is not a number, the other.
    pub fn max(self, other: Self) -> (r: Self)
        ensures
            r == self.greater(other),
    {
        if self.is_nan() || self.lt(other) {
            other
        } else {
            self
        }
    }

    /// The smaller of two numbers; where one is not a number, the other.
    pub fn min(self, other: Self) -> (r: Self)
        ensures
            r == self.smaller(other),
    {
        if self.is_nan() || other.lt(self) {
            other
        } else {
            self
        }
    }

    /// The number held between two bounds. What is not a number stays.
    pub fn clamp(self, low: Self, high: Self) -> (r: Self)
        requires
            low.at_most(high),
        ensures
            r == self.held(low, high),
    {
        if self.lt(low) {
            low
        } else if high.lt(self) {
            high
        } else {
            self
        }
    }

    /// The number with its sign turned.
    pub open spec fn turned(self) -> Self {
        if self.bits >= SIGN {
            Binary32 { bits: (self.bits - SIGN) as u32 }
        } else {
            Binary32 { bits: (self.bits + SIGN) as u32 }
        }
    }
}

/// The magnitude of a code that is made of a step size and a number of steps.
pub proof fn lemma_mag_code(q: nat, m: nat)
    requires
        m <= 2 * BINADE,
        q == 0 || m >= BINADE,
    ensures
        mag(q * BINADE as nat + m) == m * pow2(q),
{
    let c = q * BINADE as nat + m;
    lemma_pow2_unfold(q + 1);
    lemma2_to64();
    if q == 0 && m < BINADE {
        assert(c / BINADE as nat == 0);
    } else if m < 2 * BINADE {
        assert(c / BINADE as nat == q + 1) by (nonlinear_arith)
            requires
                c == q * BINADE as nat + m,
                BINADE <= m < 2 * BINADE,
                BINADE == 0x80_0000,
        ;
        assert(c % BINADE as nat == m - BINADE) by (nonlinear_arith)
            requires
                c == q * BINADE as nat + m,
                BINADE <= m < 2 * BINADE,
                BINADE == 0x80_0000,
        ;
    } else {
        assert(c / BINADE as nat == q + 2) by (nonlinear_arith)
            requires
                c == q * BINADE as nat + m,
                m == 2 * BINADE,
                BINADE == 0x80_0000,
        ;
        assert(c % BINADE as nat == 0) by (nonlinear_arith)
            requires
                c == q * BINADE as nat + m,
                m == 2 * BINADE,
                BINADE == 0x80_0000,
        ;
        assert(BINADE as nat * pow2(q + 1) == m * pow2(q)) by (nonlinear_arith)
            requires
                m == 2 * BINADE,
                pow2(q + 1) == 2 * pow2(q),
        ;
    }
}

/// Each code has a step size and a number of steps.
pub open spec fn step_of(code: nat) -> nat {
    let e = code / BINADE as nat;
    if e == 0 {
        0
    } else {
        (e - 1) as nat
    }
}

/// The number of steps of a code.
pub open spec fn steps_of(code: nat) -> nat {
    let e = code / BINADE as nat;
    let f = code % BINADE as nat;
    if e == 0 {
        f
    } else {
        BINADE as nat + f
    }
}

/// A code is made of its step size and its number of steps.
pub proof fn lemma_code_parts(code: nat)
    ensures
        code == step_of(code) * BINADE as nat + steps_of(code),
        steps_of(code) < 2 * BINADE,
        step_of(code) == 0 || steps_of(code) >= BINADE,
        mag(code) == steps_of(code) * pow2(step_of(code)),
{
    let e = code / BINADE as nat;
    let f = code % BINADE as nat;
    assert(code == e * BINADE as nat + f) by (nonlinear_arith)
        requires
            e == code / BINADE as nat,
            f == code % BINADE as nat,
            BINADE == 0x80_0000,
    ;
    lemma2_to64();
    if e > 0 {
        assert((e - 1) * BINADE as nat + BINADE as nat == e * BINADE as nat) by (nonlinear_arith);
    }
}

/// The next code stands for one step more.
pub proof fn lemma_mag_next(code: nat)
    ensures
        mag(code + 1) == (steps_of(code) + 1) * pow2(step_of(code)),
        mag(code) < mag(code + 1),
{
    lemma_code_parts(code);
    let q = step_of(code);
    let m = steps_of(code);
    lemma_mag_code(q, m + 1);
    lemma_pow2_pos(q);
    assert(m * pow2(q) < (m + 1) * pow2(q)) by (nonlinear_arith)
        requires
            pow2(q) > 0,
    ;
}

/// Codes are in the order of their magnitudes.
pub proof fn lemma_mag_order(a: nat, b: nat)
    ensures
        a < b <==> mag(a) < mag(b),
        a == b <==> mag(a) == mag(b),
    decreases (if a < b { b - a } else { a - b }),
{
    if a < b {
        lemma_mag_next((b - 1) as nat);
        lemma_mag_order(a, (b - 1) as nat);
    } else if b < a {
        lemma_mag_next((a - 1) as nat);
        lemma_mag_order((a - 1) as nat, b);
    }
}

} // verus!
