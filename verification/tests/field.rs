use bellman_ce::pairing::bn256::{Fr, FrRepr};
use bellman_ce::pairing::ff::{Field, PrimeField};
use rand::{thread_rng, Rng};
use sis_gadget::field::{all_valid, modulus_repr, zeros, FieldElement, Multiplier};
use sis_gadget::limbs::{adc, mac, sbb, select_word, U256};

fn to_fr(e: &FieldElement) -> Fr {
    let r = e.into_repr();
    Fr::from_repr(FrRepr([r.l0, r.l1, r.l2, r.l3])).unwrap()
}

fn from_fr(f: &Fr) -> FieldElement {
    let r = f.into_repr();
    FieldElement::from_repr(U256 { l0: r.0[0], l1: r.0[1], l2: r.0[2], l3: r.0[3] }).unwrap()
}

#[test]
fn arithmetic_agrees_with_pairing_field() {
    let rng = &mut thread_rng();
    for _ in 0..200 {
        let a: Fr = rng.gen();
        let b: Fr = rng.gen();
        let x = from_fr(&a);
        let y = from_fr(&b);

        let mut sum = a;
        sum.add_assign(&b);
        let mut s = x;
        s.add_assign(&y);
        assert_eq!(to_fr(&s), sum);

        let mut product = a;
        product.mul_assign(&b);
        let mut p = x;
        p.mul_assign(&y);
        assert_eq!(to_fr(&p), product);

        let mut squared = a;
        squared.square();
        let mut q = x;
        q.square();
        assert_eq!(to_fr(&q), squared);

        let mut negated = a;
        negated.negate();
        let mut n = x;
        n.negate();
        assert_eq!(to_fr(&n), negated);
    }
}

#[test]
fn modulus_is_that_of_the_pairing_field() {
    let p = modulus_repr();
    let theirs = Fr::char();
    assert_eq!([p.l0, p.l1, p.l2, p.l3], theirs.0);
}

#[test]
fn zero_and_one() {
    assert_eq!(FieldElement::zero().into_repr(), U256 { l0: 0, l1: 0, l2: 0, l3: 0 });
    assert_eq!(FieldElement::one().into_repr(), U256 { l0: 1, l1: 0, l2: 0, l3: 0 });
    assert!(FieldElement::zero().is_zero());
    assert!(!FieldElement::one().is_zero());
    assert_eq!(to_fr(&FieldElement::zero()), Fr::zero());
    assert_eq!(to_fr(&FieldElement::one()), Fr::one());
}

#[test]
fn from_u64_keeps_the_word() {
    let e = FieldElement::from_u64(0xdead_beef_0123_4567);
    assert_eq!(e.into_repr(), U256 { l0: 0xdead_beef_0123_4567, l1: 0, l2: 0, l3: 0 });
    assert_eq!(e.into_repr(), U256::from_u64(0xdead_beef_0123_4567));
}

#[test]
fn from_repr_accepts_only_below_the_modulus() {
    let p = modulus_repr();
    assert!(FieldElement::from_repr(p).is_none());
    let below = U256 { l0: p.l0 - 1, l1: p.l1, l2: p.l2, l3: p.l3 };
    assert_eq!(FieldElement::from_repr(below).unwrap().into_repr(), below);
    let above = U256 { l0: p.l0 + 1, l1: p.l1, l2: p.l2, l3: p.l3 };
    assert!(FieldElement::from_repr(above).is_none());
    let all_ones = U256 { l0: u64::MAX, l1: u64::MAX, l2: u64::MAX, l3: u64::MAX };
    assert!(FieldElement::from_repr(all_ones).is_none());
}

#[test]
fn addition_wraps_at_the_modulus() {
    let p = modulus_repr();
    let top = FieldElement::from_repr(U256 { l0: p.l0 - 1, l1: p.l1, l2: p.l2, l3: p.l3 }).unwrap();
    let mut sum = top;
    sum.add_assign(&FieldElement::one());
    assert!(sum.is_zero());
    let mut sum = top;
    sum.add_assign(&FieldElement::from_u64(5));
    assert_eq!(sum, FieldElement::from_u64(4));
    let mut small = FieldElement::from_u64(2);
    small.add_assign(&FieldElement::from_u64(3));
    assert_eq!(small, FieldElement::from_u64(5));
}

#[test]
fn multiplication_exact_values() {
    let mut a = FieldElement::from_u64(6);
    a.mul_assign(&FieldElement::from_u64(7));
    assert_eq!(a, FieldElement::from_u64(42));

    // (p - 1)^2 = 1
    let p = modulus_repr();
    let mut top = FieldElement::from_repr(U256 { l0: p.l0 - 1, l1: p.l1, l2: p.l2, l3: p.l3 }).unwrap();
    top.square();
    assert_eq!(top, FieldElement::one());

    // 2^64 * 2^64 = 2^128
    let mut big = FieldElement::from_repr(U256 { l0: 0, l1: 1, l2: 0, l3: 0 }).unwrap();
    big.square();
    assert_eq!(big.into_repr(), U256 { l0: 0, l1: 0, l2: 1, l3: 0 });

    let mut zero = FieldElement::zero();
    zero.mul_assign(&FieldElement::from_u64(9));
    assert!(zero.is_zero());
}

#[test]
fn negation_exact_values() {
    let mut zero = FieldElement::zero();
    zero.negate();
    assert!(zero.is_zero());

    let p = modulus_repr();
    let mut one = FieldElement::one();
    one.negate();
    assert_eq!(one.into_repr(), U256 { l0: p.l0 - 1, l1: p.l1, l2: p.l2, l3: p.l3 });
    one.negate();
    assert_eq!(one, FieldElement::one());
}

#[test]
fn repr_le_orders_by_magnitude() {
    let small = FieldElement::from_u64(u64::MAX);
    let large = FieldElement::from_repr(U256 { l0: 0, l1: 1, l2: 0, l3: 0 }).unwrap();
    assert!(small.repr_le(&large));
    assert!(!large.repr_le(&small));
    assert!(small.repr_le(&small));
    let mut minus_one = FieldElement::one();
    minus_one.negate();
    assert!(large.repr_le(&minus_one));
    assert!(!minus_one.repr_le(&large));
}

#[test]
fn wide_integer_comparison_and_arithmetic() {
    let a = U256 { l0: 5, l1: 0, l2: 0, l3: 1 };
    let b = U256 { l0: 0, l1: 9, l2: 0, l3: 1 };
    assert!(a.lt(&b));
    assert!(!b.lt(&a));
    assert!(!a.lt(&a));
    assert!(a.le(&a));
    assert!(a.le(&b));
    assert!(!b.le(&a));

    let ones = U256 { l0: u64::MAX, l1: u64::MAX, l2: u64::MAX, l3: u64::MAX };
    let one = U256::from_u64(1);
    let (sum, carry) = ones.add_carry(&one);
    assert_eq!(sum, U256::from_u64(0));
    assert_eq!(carry, 1);
    let (difference, borrow) = U256::from_u64(0).sub_borrow(&one);
    assert_eq!(difference, ones);
    assert_eq!(borrow, 1);
    let (difference, borrow) = b.sub_borrow(&a);
    assert_eq!(difference, U256 { l0: u64::MAX - 4, l1: 8, l2: 0, l3: 0 });
    assert_eq!(borrow, 0);
}

#[test]
fn single_word_steps() {
    assert_eq!(mac(u64::MAX, u64::MAX, u64::MAX, u64::MAX), (u64::MAX, u64::MAX));
    assert_eq!(mac(3, 4, 5, 6), (23, 0));
    assert_eq!(mac(1 << 63, 2, 0, 0), (0, 1));
    assert_eq!(adc(u64::MAX, 0, 1), (0, 1));
    assert_eq!(adc(1, 2, 0), (3, 0));
    assert_eq!(sbb(0, 0, 1), (u64::MAX, 1));
    assert_eq!(sbb(5, 3, 1), (1, 0));
}

#[test]
fn zeros_holds_only_zero() {
    let v = zeros(5);
    assert_eq!(v.len(), 5);
    assert!(v.iter().all(|e| e.is_zero()));
    assert!(zeros(0).is_empty());
}

#[test]
fn multiplier_gives_the_same_products() {
    let rng = &mut thread_rng();
    for _ in 0..200 {
        let a: Fr = rng.gen();
        let b: Fr = rng.gen();
        let mut product = a;
        product.mul_assign(&b);
        let factor = Multiplier::new(&from_fr(&a));
        assert_eq!(to_fr(&factor.times(&from_fr(&b))), product);
    }
    let six = Multiplier::new(&FieldElement::from_u64(6));
    assert_eq!(six.times(&FieldElement::from_u64(7)), FieldElement::from_u64(42));
    assert!(six.times(&FieldElement::zero()).is_zero());
    let one = Multiplier::new(&FieldElement::one());
    let mut minus_one = FieldElement::one();
    minus_one.negate();
    assert_eq!(one.times(&minus_one), minus_one);
    let zero = Multiplier::new(&FieldElement::zero());
    assert!(zero.times(&minus_one).is_zero());
}

#[test]
fn selection_follows_the_flag() {
    assert_eq!(select_word(0, 5, 9), 5);
    assert_eq!(select_word(1, 5, 9), 9);
    assert_eq!(select_word(1, u64::MAX, 0), 0);
    let a = U256 { l0: 1, l1: 2, l2: 3, l3: 4 };
    let b = U256 { l0: 5, l1: 6, l2: 7, l3: 8 };
    assert_eq!(U256::select(0, &a, &b), a);
    assert_eq!(U256::select(1, &a, &b), b);
}

#[test]
fn elements_made_by_the_library_are_valid() {
    let mut minus_one = FieldElement::one();
    minus_one.negate();
    assert!(minus_one.is_valid());
    assert!(FieldElement::zero().is_valid());
    assert!(all_valid(&vec![FieldElement::zero(), minus_one, FieldElement::from_u64(u64::MAX)]));
    assert!(all_valid(&vec![]));
}
