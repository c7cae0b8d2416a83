//! Fixed-width multi-precision arithmetic on 64-bit limbs.

use vstd::prelude::*;

verus! {

/// The radix of a limb, `2^64`.
pub open spec fn radix() -> int {
    0x1_0000_0000_0000_0000
}

/// Multiply-accumulate: `a * b + c + carry` as a low and a high word.
pub fn mac(a: u64, b: u64, c: u64, carry: u64) -> (r: (u64, u64))
    ensures
        r.0 + r.1 * radix() == a * b + c + carry,
{
    assert(a * b <= 0xffff_ffff_ffff_ffff * 0xffff_ffff_ffff_ffff) by (nonlinear_arith)
        requires
            a <= 0xffff_ffff_ffff_ffff,
            b <= 0xffff_ffff_ffff_ffff,
    ;
    let wide: u128 = (a as u128) * (b as u128) + (c as u128) + (carry as u128);
    let lo: u64 = #[verifier::truncate] (wide as u64);
    let top: u128 = wide >> 64;
    assert(lo as u128 == wide % 0x1_0000_0000_0000_0000u128) by (bit_vector)
        requires
            lo == #[verifier::truncate] (wide as u64),
    ;
    assert(top == wide / 0x1_0000_0000_0000_0000u128 && top <= 0xffff_ffff_ffff_ffffu128)
        by (bit_vector)
        requires
            top == wide >> 64,
    ;
    let hi: u64 = top as u64;
    (lo, hi)
}

/// Add with carry: `a + b + carry` as a low word and a carry bit.
pub fn adc(a: u64, b: u64, carry: u64) -> (r: (u64, u64))
    requires
        carry <= 1,
    ensures
        r.0 + r.1 * radix() == a + b + carry,
        r.1 <= 1,
{
    let wide: u128 = (a as u128) + (b as u128) + (carry as u128);
    let lo: u64 = #[verifier::truncate] (wide as u64);
    let top: u128 = wide >> 64;
    assert(lo as u128 == wide % 0x1_0000_0000_0000_0000u128) by (bit_vector)
        requires
            lo == #[verifier::truncate] (wide as u64),
    ;
    assert(top == wide / 0x1_0000_0000_0000_0000u128 && top <= 0xffff_ffff_ffff_ffffu128)
        by (bit_vector)
        requires
            top == wide >> 64,
    ;
    let hi: u64 = top as u64;
    (lo, hi)
}

/// Subtract with borrow: `a - b - borrow` as a low word and a borrow bit.
pub fn sbb(a: u64, b: u64, borrow: u64) -> (r: (u64, u64))
    requires
        borrow <= 1,
    ensures
        r.0 - r.1 * radix() == a - b - borrow,
        r.1 <= 1,
{
    let wide: u128 = (a as u128) + 0x1_0000_0000_0000_0000u128 - (b as u128) - (borrow as u128);
    let lo: u64 = #[verifier::truncate] (wide as u64);
    let top: u128 = wide >> 64;
    assert(lo as u128 == wide % 0x1_0000_0000_0000_0000u128) by (bit_vector)
        requires
            lo == #[verifier::truncate] (wide as u64),
    ;
    assert(top == wide / 0x1_0000_0000_0000_0000u128) by (bit_vector)
        requires
            top == wide >> 64,
    ;
    let hi: u64 = top as u64;
    (lo, 1 - hi)
}

/// `a` where `flag` is 0 and `b` where it is 1, without a branch.
pub fn select_word(flag: u64, a: u64, b: u64) -> (r: u64)
    requires
        flag <= 1,
    ensures
        r == if flag == 0 {
            a
        } else {
            b
        },
{
    let mask: u64 = 0u64.wrapping_sub(flag);
    let r = (a & !mask) | (b & mask);
    assert(r == if flag == 0 {
        a
    } else {
        b
    }) by (bit_vector)
        requires
            flag <= 1,
            mask == if flag == 0 {
                0u64
            } else {
                0xffff_ffff_ffff_ffffu64
            },
            r == (a & !mask) | (b & mask),
    ;
    r
}

/// An unsigned 256-bit integer, least significant limb first.
#[derive(Clone, Copy, Debug, PartialEq, Eq, Structural)]
pub struct U256 {
    pub l0: u64,
    pub l1: u64,
    pub l2: u64,
    pub l3: u64,
}

impl U256 {
    /// The integer that the four limbs spell out.
    pub open spec fn value(&self) -> nat {
        (self.l0 + self.l1 * 0x1_0000_0000_0000_0000 + self.l2
            * 0x1_0000_0000_0000_0000_0000_0000_0000_0000 + self.l3
            * 0x1_0000_0000_0000_0000_0000_0000_0000_0000_0000_0000_0000_0000) as nat
    }

    /// Two limb vectors spell the same integer only if they are the same.
    pub proof fn lemma_value_injective(a: U256, b: U256)
        requires
            a.value() == b.value(),
        ensures
            a == b,
    {
        let d0 = a.l0 - b.l0;
        let d1 = a.l1 - b.l1;
        let d2 = a.l2 - b.l2;
        let d3 = a.l3 - b.l3;
        let k2 = d3;
        let k1 = d2 + k2 * 0x1_0000_0000_0000_0000;
        let k0 = d1 + k1 * 0x1_0000_0000_0000_0000;
        assert(d0 + k0 * 0x1_0000_0000_0000_0000 == 0);
        assert(k0 == 0);
        assert(k1 == 0);
        assert(k2 == 0);
    }

    /// The integer that a machine word stands for.
    pub fn from_u64(x: u64) -> (r: U256)
        ensures
            r.value() == x,
    {
        U256 { l0: x, l1: 0, l2: 0, l3: 0 }
    }

    /// Sum of two integers together with the carry out of the top limb.
    pub fn add_carry(&self, other: &U256) -> (r: (U256, u64))
        ensures
            r.0.value() + r.1 * 0x1_0000_0000_0000_0000_0000_0000_0000_0000_0000_0000_0000_0000_0000_0000_0000_0000
                == self.value() + other.value(),
            r.1 <= 1,
    {
        let (l0, c) = adc(self.l0, other.l0, 0);
        let (l1, c) = adc(self.l1, other.l1, c);
        let (l2, c) = adc(self.l2, other.l2, c);
        let (l3, c) = adc(self.l3, other.l3, c);
        (U256 { l0, l1, l2, l3 }, c)
    }

    /// Difference of two integers together with the borrow out of the top limb.
    pub fn sub_borrow(&self, other: &U256) -> (r: (U256, u64))
        ensures
            r.0.value() - r.1 * 0x1_0000_0000_0000_0000_0000_0000_0000_0000_0000_0000_0000_0000_0000_0000_0000_0000
                == self.value() - other.value(),
            r.1 <= 1,
    {
        let (l0, b) = sbb(self.l0, other.l0, 0);
        let (l1, b) = sbb(self.l1, other.l1, b);
        let (l2, b) = sbb(self.l2, other.l2, b);
        let (l3, b) = sbb(self.l3, other.l3, b);
        (U256 { l0, l1, l2, l3 }, b)
    }

    /// `a` where `flag` is 0 and `b` where it is 1, without a branch.
    pub fn select(flag: u64, a: &U256, b: &U256) -> (r: U256)
        requires
            flag <= 1,
        ensures
            r == if flag == 0 {
                *a
            } else {
                *b
            },
    {
        U256 {
            l0: select_word(flag, a.l0, b.l0),
            l1: select_word(flag, a.l1, b.l1),
            l2: select_word(flag, a.l2, b.l2),
            l3: select_word(flag, a.l3, b.l3),
        }
    }

    /// Whether `self` is strictly smaller than `other` as an integer.
    pub fn lt(&self, other: &U256) -> (r: bool)
        ensures
            r == (self.value() < other.value()),
    {
        if self.l3 != other.l3 {
            self.l3 < other.l3
        } else if self.l2 != other.l2 {
            self.l2 < other.l2
        } else if self.l1 != other.l1 {
            self.l1 < other.l1
        } else {
            self.l0 < other.l0
        }
    }

    /// Whether `self` is at most `other` as an integer.
    pub fn le(&self, other: &U256) -> (r: bool)
        ensures
            r == (self.value() <= other.value()),
    {
        !other.lt(self)
    }
}

} // verus!
