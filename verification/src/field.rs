//! The scalar field of the BN254 pairing-friendly curve.

use vstd::prelude::*;
use vstd::arithmetic::div_mod::{
    lemma_fundamental_div_mod_converse_mod,
    lemma_mod_multiples_vanish,
    lemma_mul_mod_noop_left,
    lemma_mul_mod_noop_right,
    lemma_small_mod,
};
use crate::limbs::{mac, adc, U256};

verus! {

/// The prime order of the field.
pub open spec fn modulus() -> nat {
    0x30644e72_e131a029_b85045b6_8181585d_2833e848_79b97091_43e1f593_f0000001nat
}

/// `2^256`, the factor that one Montgomery step per limb divides out.
pub open spec fn montgomery_radix() -> nat {
    0x1_0000_0000_0000_0000_0000_0000_0000_0000_0000_0000_0000_0000_0000_0000_0000_0000nat
}

/// The limbs of the modulus.
pub fn modulus_repr() -> (r: U256)
    ensures
        r.value() == modulus(),
{
    U256 {
        l0: 0x43e1f593f0000001,
        l1: 0x2833e84879b97091,
        l2: 0xb85045b68181585d,
        l3: 0x30644e72e131a029,
    }
}

/// `a.value() * b` spelled out limb by limb.
proof fn lemma_scale_by_word(a: U256, b: int)
    ensures
        a.value() * b == a.l0 * b + (a.l1 * b) * 0x1_0000_0000_0000_0000 + (a.l2 * b)
            * 0x1_0000_0000_0000_0000_0000_0000_0000_0000 + (a.l3 * b)
            * 0x1_0000_0000_0000_0000_0000_0000_0000_0000_0000_0000_0000_0000,
{
    let v0 = a.l0 as int;
    let v1 = a.l1 as int;
    let v2 = a.l2 as int;
    let v3 = a.l3 as int;
    assert((v0 + v1 * 0x1_0000_0000_0000_0000 + v2 * 0x1_0000_0000_0000_0000_0000_0000_0000_0000
        + v3 * 0x1_0000_0000_0000_0000_0000_0000_0000_0000_0000_0000_0000_0000) * b == v0 * b + (v1
        * b) * 0x1_0000_0000_0000_0000 + (v2 * b) * 0x1_0000_0000_0000_0000_0000_0000_0000_0000
        + (v3 * b) * 0x1_0000_0000_0000_0000_0000_0000_0000_0000_0000_0000_0000_0000)
        by (nonlinear_arith);
}

/// `t + a * b` as five limbs.
fn add_scaled(t: &U256, a: &U256, b: u64) -> (r: (U256, u64))
    ensures
        r.0.value() + r.1
            * 0x1_0000_0000_0000_0000_0000_0000_0000_0000_0000_0000_0000_0000_0000_0000_0000_0000
            == t.value() + a.value() * b,
{
    let (u0, c) = mac(a.l0, b, t.l0, 0);
    let (u1, c) = mac(a.l1, b, t.l1, c);
    let (u2, c) = mac(a.l2, b, t.l2, c);
    let (u3, u4) = mac(a.l3, b, t.l3, c);
    proof {
        lemma_scale_by_word(*a, b as int);
    }
    (U256 { l0: u0, l1: u1, l2: u2, l3: u3 }, u4)
}

/// The multiple of the modulus chosen from the lowest limb makes that limb
/// vanish: the factor `0xc2e1f593efffffff` is the negated inverse of the
/// modulus's lowest limb `0x43e1f593f0000001` modulo `2^64`.
proof fn lemma_low_limb_clears(u0: int, m: int, k: int, z: int, c: int)
    requires
        0 <= z < 0x1_0000_0000_0000_0000,
        m + k * 0x1_0000_0000_0000_0000 == u0 * 0xc2e1f593efffffff,
        z + c * 0x1_0000_0000_0000_0000 == m * 0x43e1f593f0000001 + u0,
    ensures
        z == 0,
{
    // 0xc2e1f593efffffff * 0x43e1f593f0000001 + 1 == 3723675147829272286 * 2^64
    let q = u0 * 3723675147829272286 - k * 0x43e1f593f0000001 - c;
    assert(z == q * 0x1_0000_0000_0000_0000);
}

/// The carries of one reduction word add up to the value identity.
proof fn lemma_reduction_identity(
    u: U256,
    u4: int,
    m: int,
    c0: int,
    c1: int,
    c2: int,
    c3: int,
    r: U256,
    top: int,
)
    requires
        c0 * 0x1_0000_0000_0000_0000 == m * 0x43e1f593f0000001 + u.l0,
        r.l0 + c1 * 0x1_0000_0000_0000_0000 == m * 0x2833e84879b97091 + u.l1 + c0,
        r.l1 + c2 * 0x1_0000_0000_0000_0000 == m * 0xb85045b68181585d + u.l2 + c1,
        r.l2 + c3 * 0x1_0000_0000_0000_0000 == m * 0x30644e72e131a029 + u.l3 + c2,
        r.l3 + top * 0x1_0000_0000_0000_0000 == u4 + c3,
    ensures
        (r.value() + top
            * 0x1_0000_0000_0000_0000_0000_0000_0000_0000_0000_0000_0000_0000_0000_0000_0000_0000)
            * 0x1_0000_0000_0000_0000 == u.value() + u4
            * 0x1_0000_0000_0000_0000_0000_0000_0000_0000_0000_0000_0000_0000_0000_0000_0000_0000
            + m * modulus(),
{
}

/// Adds to the five-limb `u` the multiple of the modulus that clears its
/// lowest limb, and drops that limb.
fn clear_low_limb(u: &U256, u4: u64) -> (r: (U256, Ghost<int>))
    requires
        u.value() + u4
            * 0x1_0000_0000_0000_0000_0000_0000_0000_0000_0000_0000_0000_0000_0000_0000_0000_0000
            <= modulus() * 0x1_0000_0000_0000_0000 + modulus() - 0x1_0000_0000_0000_0000,
    ensures
        r.0.value() < 2 * modulus(),
        0 <= r.1@ < 0x1_0000_0000_0000_0000,
        r.0.value() * 0x1_0000_0000_0000_0000 == u.value() + u4
            * 0x1_0000_0000_0000_0000_0000_0000_0000_0000_0000_0000_0000_0000_0000_0000_0000_0000
            + r.1@ * modulus(),
{
    // the low word of `u.l0` times the negated inverse of the modulus
    let (m, k) = mac(u.l0, 0xc2e1f593efffffff, 0, 0);
    // `u + m * modulus`, limb by limb
    let (z, c0) = mac(m, 0x43e1f593f0000001, u.l0, 0);
    proof {
        lemma_low_limb_clears(u.l0 as int, m as int, k as int, z as int, c0 as int);
    }
    let (v0, c1) = mac(m, 0x2833e84879b97091, u.l1, c0);
    let (v1, c2) = mac(m, 0xb85045b68181585d, u.l2, c1);
    let (v2, c3) = mac(m, 0x30644e72e131a029, u.l3, c2);
    let (v3, top) = adc(u4, c3, 0);
    let r = U256 { l0: v0, l1: v1, l2: v2, l3: v3 };
    proof {
        lemma_reduction_identity(
            *u,
            u4 as int,
            m as int,
            c0 as int,
            c1 as int,
            c2 as int,
            c3 as int,
            r,
            top as int,
        );
    }
    (r, Ghost(m as int))
}

/// One word of Montgomery multiplication: adds `a * b` to `t`, then adds the
/// multiple of the modulus that clears the lowest limb and drops that limb.
fn montgomery_step(t: &U256, a: &U256, b: u64) -> (r: (U256, Ghost<int>))
    requires
        t.value() < 2 * modulus(),
        a.value() < modulus(),
    ensures
        r.0.value() < 2 * modulus(),
        r.0.value() * 0x1_0000_0000_0000_0000 == t.value() + a.value() * b + r.1@ * modulus(),
{
    let (u, u4) = add_scaled(t, a, b);
    assert(a.value() * b <= (modulus() - 1) * 0xffff_ffff_ffff_ffff) by (nonlinear_arith)
        requires
            a.value() <= modulus() - 1,
            b <= 0xffff_ffff_ffff_ffff,
    ;
    clear_low_limb(&u, u4)
}

/// `a.value() * b.value()` spelled out word by word of `b`.
proof fn lemma_product_by_words(a: nat, b: U256)
    ensures
        a * b.value() == a * b.l0 + (a * b.l1) * 0x1_0000_0000_0000_0000 + (a * b.l2)
            * 0x1_0000_0000_0000_0000_0000_0000_0000_0000 + (a * b.l3)
            * 0x1_0000_0000_0000_0000_0000_0000_0000_0000_0000_0000_0000_0000,
{
    let v0 = b.l0 as int;
    let v1 = b.l1 as int;
    let v2 = b.l2 as int;
    let v3 = b.l3 as int;
    assert(a * (v0 + v1 * 0x1_0000_0000_0000_0000 + v2
        * 0x1_0000_0000_0000_0000_0000_0000_0000_0000 + v3
        * 0x1_0000_0000_0000_0000_0000_0000_0000_0000_0000_0000_0000_0000) == a * v0 + (a * v1)
        * 0x1_0000_0000_0000_0000 + (a * v2) * 0x1_0000_0000_0000_0000_0000_0000_0000_0000 + (a
        * v3) * 0x1_0000_0000_0000_0000_0000_0000_0000_0000_0000_0000_0000_0000)
        by (nonlinear_arith);
}

/// Montgomery product: the residue `r` with `r * 2^256 = a * b` modulo the modulus.
fn montgomery_product(a: &U256, b: &U256) -> (r: U256)
    requires
        a.value() < modulus(),
        b.value() < modulus(),
    ensures
        r.value() < modulus(),
        (r.value() * montgomery_radix()) % modulus() == (a.value() * b.value()) % modulus(),
{
    let zero = U256 { l0: 0, l1: 0, l2: 0, l3: 0 };
    let (t1, Ghost(m0)) = montgomery_step(&zero, a, b.l0);
    let (t2, Ghost(m1)) = montgomery_step(&t1, a, b.l1);
    let (t3, Ghost(m2)) = montgomery_step(&t2, a, b.l2);
    let (t4, Ghost(m3)) = montgomery_step(&t3, a, b.l3);
    let ghost m = m0 + m1 * 0x1_0000_0000_0000_0000 + m2
        * 0x1_0000_0000_0000_0000_0000_0000_0000_0000 + m3
        * 0x1_0000_0000_0000_0000_0000_0000_0000_0000_0000_0000_0000_0000;
    proof {
        lemma_product_by_words(a.value(), *b);
        assert(t4.value() * montgomery_radix() == a.value() * b.value() + m * modulus());
    }
    let p = modulus_repr();
    let (reduced, borrow) = t4.sub_borrow(&p);
    let r = U256::select(borrow, &reduced, &t4);
    proof {
        let k = if borrow == 0 {
            m - montgomery_radix()
        } else {
            m
        };
        assert(r.value() * montgomery_radix() == modulus() * k + a.value() * b.value());
        lemma_mod_multiples_vanish(k, (a.value() * b.value()) as int, modulus() as int);
    }
    r
}

/// The inverse of `2^256` modulo the modulus.
pub open spec fn radix_inverse() -> nat {
    0x15ebf951_82c5551c_c8260de4_aeb85d5d_090ef5a9_e111ec87_dc5ba005_6db1194enat
}

/// `radix_inverse` is the inverse of the radix.
proof fn lemma_radix_inverse()
    ensures
        (montgomery_radix() * radix_inverse()) % modulus() == 1,
{
    let q: int = 0x73f82f1d_0d8341b2_e39a9828_99062391_6586864b_4c6911b3_c2e1f593_efffffffint;
    assert(montgomery_radix() * radix_inverse() == q * modulus() + 1);
    lemma_fundamental_div_mod_converse_mod(
        (montgomery_radix() * radix_inverse()) as int,
        modulus() as int,
        q,
        1,
    );
}

/// Multiplying by the radix and then by its inverse changes nothing.
proof fn lemma_scale_and_unscale(z: int)
    ensures
        ((z * montgomery_radix()) % (modulus() as int) * radix_inverse()) % (modulus() as int) == z
            % (modulus() as int),
{
    let p = modulus() as int;
    let r = montgomery_radix() as int;
    let inv = radix_inverse() as int;
    lemma_radix_inverse();
    lemma_mul_mod_noop_left(z * r, inv, p);
    assert((z * r) * inv == z * (r * inv)) by (nonlinear_arith);
    lemma_mul_mod_noop_right(z, r * inv, p);
}

/// Residues whose multiples by `2^256` agree are equal.
proof fn lemma_cancel_radix(x: int, y: int)
    requires
        (x * montgomery_radix()) % (modulus() as int) == (y * montgomery_radix()) % (
        modulus() as int),
    ensures
        x % (modulus() as int) == y % (modulus() as int),
{
    lemma_scale_and_unscale(x);
    lemma_scale_and_unscale(y);
}

/// The residue scaled by the radix: `a * 2^256` modulo the modulus.
fn scaled_residue(a: &U256) -> (r: U256)
    requires
        a.value() < modulus(),
    ensures
        r.value() == (a.value() * montgomery_radix()) % modulus(),
{
    // 2^512 modulo the modulus
    let radix_squared = U256 {
        l0: 0x1bb8e645ae216da7,
        l1: 0x53fe3ab1e35c59e3,
        l2: 0x8c49833d53bb8085,
        l3: 0x0216d0b17f4e44a5,
    };
    let r = montgomery_product(a, &radix_squared);
    proof {
        let p = modulus() as int;
        let big = montgomery_radix() as int;
        let q: int = 0x5_4a474626_23a04a7a_b074a586_80730147_14485200_9e880ae6_20703a6b_e1de9259int;
        assert(big * big == q * p + radix_squared.value());
        assert(radix_squared.value() == (big * big) % p) by {
            lemma_fundamental_div_mod_converse_mod(big * big, p, q, radix_squared.value() as int);
        }
        // r * R = a * R2 = (a * R) * R, all modulo p
        assert((a.value() * radix_squared.value()) as int % p == ((a.value() * big) * big) % p) by {
            lemma_mul_mod_noop_right(a.value() as int, big * big, p);
            assert(a.value() * (big * big) == (a.value() * big) * big) by (nonlinear_arith);
        }
        lemma_cancel_radix(r.value() as int, a.value() * big);
        lemma_small_mod(r.value(), modulus());
    }
    r
}

/// Product of a residue with one that is scaled by the radix.
fn scaled_product(scaled: &U256, b: &U256, Ghost(a): Ghost<nat>) -> (r: U256)
    requires
        scaled.value() < modulus(),
        scaled.value() == (a * montgomery_radix()) % modulus(),
        b.value() < modulus(),
    ensures
        r.value() == (a * b.value()) % modulus(),
{
    let r = montgomery_product(scaled, b);
    proof {
        let p = modulus() as int;
        let big = montgomery_radix() as int;
        let x = b.value() as int;
        // r * R = (a * R) * b = (a * b) * R, all modulo p
        assert((scaled.value() * b.value()) as int % p == ((a * x) * big) % p) by {
            lemma_mul_mod_noop_left(a * big, x, p);
            assert((a * big) * x == (a * x) * big) by (nonlinear_arith);
        }
        lemma_cancel_radix(r.value() as int, a * x);
        lemma_small_mod(r.value(), modulus());
    }
    r
}

/// Product of two residues.
fn residue_product(a: &U256, b: &U256) -> (r: U256)
    requires
        a.value() < modulus(),
        b.value() < modulus(),
    ensures
        r.value() == (a.value() * b.value()) % modulus(),
{
    let scaled = scaled_residue(a);
    scaled_product(&scaled, b, Ghost(a.value()))
}

/// Sum of two residues.
pub open spec fn field_add(x: nat, y: nat) -> nat {
    (x + y) % modulus()
}

/// Product of two residues.
pub open spec fn field_mul(x: nat, y: nat) -> nat {
    (x * y) % modulus()
}

/// Additive inverse of a residue.
pub open spec fn field_neg(x: nat) -> nat {
    ((modulus() - x % modulus()) as nat) % modulus()
}

/// An element of the field, held as its canonical representative below the modulus.
#[derive(Clone, Copy, Debug, PartialEq, Eq, Structural)]
pub struct FieldElement {
    repr: U256,
}

impl View for FieldElement {
    type V = nat;

    /// The canonical representative as an integer.
    closed spec fn view(&self) -> nat {
        self.repr.value()
    }
}

impl FieldElement {
    /// The representative lies below the modulus.
    pub open spec fn wf(&self) -> bool {
        self@ < modulus()
    }

    /// Elements with the same representative are the same element.
    pub proof fn lemma_view_injective(a: FieldElement, b: FieldElement)
        requires
            a@ == b@,
        ensures
            a == b,
    {
        U256::lemma_value_injective(a.repr, b.repr);
    }

    /// The additive identity.
    pub fn zero() -> (r: FieldElement)
        ensures
            r.wf(),
            r@ == 0,
    {
        FieldElement { repr: U256::from_u64(0) }
    }

    /// The multiplicative identity.
    pub fn one() -> (r: FieldElement)
        ensures
            r.wf(),
            r@ == 1,
    {
        FieldElement { repr: U256::from_u64(1) }
    }

    /// The element that a machine word stands for.
    pub fn from_u64(x: u64) -> (r: FieldElement)
        ensures
            r.wf(),
            r@ == x,
    {
        FieldElement { repr: U256::from_u64(x) }
    }

    /// The element with the given representative, if that lies below the modulus.
    pub fn from_repr(repr: U256) -> (r: Option<FieldElement>)
        ensures
            r.is_some() <==> repr.value() < modulus(),
            r matches Some(e) ==> e.wf() && e@ == repr.value(),
    {
        let p = modulus_repr();
        if repr.lt(&p) {
            Some(FieldElement { repr })
        } else {
            None
        }
    }

    /// Whether the representative lies below the modulus.
    pub fn is_valid(&self) -> (r: bool)
        ensures
            r == self.wf(),
    {
        let p = modulus_repr();
        self.repr.lt(&p)
    }

    /// The canonical representative.
    pub fn into_repr(&self) -> (r: U256)
        ensures
            r.value() == self@,
    {
        self.repr
    }

    /// Whether this is the additive identity.
    pub fn is_zero(&self) -> (r: bool)
        ensures
            r == (self@ == 0),
    {
        self.repr.l0 == 0 && self.repr.l1 == 0 && self.repr.l2 == 0 && self.repr.l3 == 0
    }

    /// Whether the representative of `self` is at most that of `other`.
    pub fn repr_le(&self, other: &FieldElement) -> (r: bool)
        ensures
            r == (self@ <= other@),
    {
        self.repr.le(&other.repr)
    }

    /// Adds `other` to `self`.
    pub fn add_assign(&mut self, other: &FieldElement)
        requires
            old(self).wf(),
            other.wf(),
        ensures
            final(self).wf(),
            final(self)@ == field_add(old(self)@, other@),
    {
        let (sum, carry) = self.repr.add_carry(&other.repr);
        let p = modulus_repr();
        let (reduced, borrow) = sum.sub_borrow(&p);
        proof {
            if borrow == 0 {
                lemma_fundamental_div_mod_converse_mod(
                    (old(self)@ + other@) as int,
                    modulus() as int,
                    1,
                    reduced.value() as int,
                );
            } else {
                lemma_small_mod(old(self)@ + other@, modulus());
            }
        }
        self.repr = U256::select(borrow, &reduced, &sum);
    }

    /// Replaces `self` by its additive inverse.
    pub fn negate(&mut self)
        requires
            old(self).wf(),
        ensures
            final(self).wf(),
            final(self)@ == field_neg(old(self)@),
    {
        if !self.is_zero() {
            let p = modulus_repr();
            let (diff, borrow) = p.sub_borrow(&self.repr);
            proof {
                lemma_small_mod(old(self)@, modulus());
                lemma_small_mod((modulus() - old(self)@) as nat, modulus());
            }
            self.repr = diff;
        } else {
            proof {
                lemma_small_mod(0, modulus());
                lemma_fundamental_div_mod_converse_mod(
                    modulus() as int,
                    modulus() as int,
                    1,
                    0,
                );
            }
        }
    }

    /// Multiplies `self` by `other`.
    pub fn mul_assign(&mut self, other: &FieldElement)
        requires
            old(self).wf(),
            other.wf(),
        ensures
            final(self).wf(),
            final(self)@ == field_mul(old(self)@, other@),
    {
        let product = residue_product(&self.repr, &other.repr);
        self.repr = product;
    }

    /// Replaces `self` by its square.
    pub fn square(&mut self)
        requires
            old(self).wf(),
        ensures
            final(self).wf(),
            final(self)@ == field_mul(old(self)@, old(self)@),
    {
        let product = residue_product(&self.repr, &self.repr);
        self.repr = product;
    }
}

/// A field element prepared as a repeated factor: it is held scaled by
/// `2^256`, which saves half the work of every product.
#[derive(Clone, Copy, Debug)]
pub struct Multiplier {
    scaled: U256,
}

impl Multiplier {
    /// The element that this multiplies by.
    pub closed spec fn factor(&self) -> nat {
        (self.scaled.value() * radix_inverse()) % modulus()
    }

    /// The scaled representative lies below the modulus.
    pub closed spec fn wf(&self) -> bool {
        self.scaled.value() < modulus()
    }

    /// Prepares `element` as a factor.
    pub fn new(element: &FieldElement) -> (r: Multiplier)
        requires
            element.wf(),
        ensures
            r.wf(),
            r.factor() == element@,
    {
        let scaled = scaled_residue(&element.repr);
        proof {
            lemma_scale_and_unscale(element@ as int);
            lemma_small_mod(element@, modulus());
        }
        Multiplier { scaled }
    }

    /// The product of the factor and `element`.
    pub fn times(&self, element: &FieldElement) -> (r: FieldElement)
        requires
            self.wf(),
            element.wf(),
        ensures
            r.wf(),
            r@ == field_mul(self.factor(), element@),
    {
        proof {
            // the scaled representative is the factor scaled by the radix
            let p = modulus() as int;
            let inv = radix_inverse() as int;
            let big = montgomery_radix() as int;
            let held = self.scaled.value() as int;
            lemma_radix_inverse();
            lemma_mul_mod_noop_left(held * inv, big, p);
            assert((held * inv) * big == held * (big * inv)) by (nonlinear_arith);
            lemma_mul_mod_noop_right(held, big * inv, p);
            lemma_small_mod(held as nat, modulus());
        }
        let product = scaled_product(&self.scaled, &element.repr, Ghost(self.factor()));
        FieldElement { repr: product }
    }
}

/// The representatives of a vector of elements.
pub open spec fn values(elements: Seq<FieldElement>) -> Seq<nat> {
    Seq::new(elements.len(), |i: int| elements[i]@)
}

/// Every element of the vector is well formed.
pub open spec fn all_wf(elements: Seq<FieldElement>) -> bool {
    forall|i: int| 0 <= i < elements.len() ==> (#[trigger] elements[i]).wf()
}

/// Whether every element of the vector is well formed.
pub fn all_valid(elements: &Vec<FieldElement>) -> (r: bool)
    ensures
        r == all_wf(elements@),
{
    let mut i: usize = 0;
    while i < elements.len()
        invariant
            i <= elements.len(),
            forall|j: int| 0 <= j < i ==> (#[trigger] elements@[j]).wf(),
        decreases elements.len() - i,
    {
        if !elements[i].is_valid() {
            return false;
        }
        i = i + 1;
    }
    true
}

/// A vector of `len` zero elements.
pub fn zeros(len: usize) -> (r: Vec<FieldElement>)
    ensures
        r@.len() == len,
        all_wf(r@),
        forall|i: int| 0 <= i < len ==> (#[trigger] r@[i])@ == 0,
{
    let mut r: Vec<FieldElement> = Vec::with_capacity(len);
    let mut i: usize = 0;
    while i < len
        invariant
            i <= len,
            r@.len() == i,
            all_wf(r@),
            forall|j: int| 0 <= j < i ==> (#[trigger] r@[j])@ == 0,
        decreases len - i,
    {
        r.push(FieldElement::zero());
        i = i + 1;
    }
    r
}

} // verus!
