//! Packing of binary vectors into 64-bit words, most significant bit first.

use vstd::prelude::*;
use vstd::arithmetic::div_mod::lemma_div_denominator;
use vstd::arithmetic::power2::{lemma2_to64, lemma2_to64_rest, lemma_pow2_pos, lemma_pow2_unfold, pow2};
use bitvec::order::Msb0;
use bitvec::vec::BitVec;

verus! {

/// Number of words that hold `bits` bits.
pub open spec fn packed_len(bits: nat) -> nat {
    (bits + 63) / 64
}

/// The bit at `index`, with every position past the end reading as unset.
pub open spec fn bit_or_unset(bits: Seq<bool>, index: int) -> bool {
    0 <= index < bits.len() && bits[index]
}

/// The number spelled by `count` bits from `start` on, first bit most significant.
pub open spec fn msb_first_value(bits: Seq<bool>, start: int, count: nat) -> nat
    decreases count,
{
    if count == 0 {
        0
    } else {
        2 * msb_first_value(bits, start, (count - 1) as nat) + if bit_or_unset(
            bits,
            start + count - 1,
        ) {
            1nat
        } else {
            0nat
        }
    }
}

/// The words that a binary vector packs into: 64 bits per word, the first
/// bit of each group in the word's most significant position, the last word
/// padded with unset bits.
pub open spec fn packed(bits: Seq<bool>) -> Seq<u64> {
    Seq::new(packed_len(bits.len()), |j: int| msb_first_value(bits, 64 * j, 64) as u64)
}

/// The bit of `words` at `index`, counted from the most significant bit of
/// the first word.
pub open spec fn bit_at(words: Seq<u64>, index: int) -> bool {
    (words[index / 64] as nat / pow2((63 - index % 64) as nat)) % 2 == 1
}

/// Packs with `bitvec`: `BitVec::<Msb0, u64>::from` collects the bits, and
/// the vector's `into` hands out its storage. Bit `i` lands in word `i / 64`
/// at the position that is `i % 64` below the most significant one; unused
/// positions stay unset.
#[verifier::external_body]
pub(crate) fn pack_bits(value: &[bool]) -> (words: Vec<u64>)
    requires
        value@.len() <= usize::MAX / 8,
    ensures
        words@ == packed(value@),
{
    let bit_vector: BitVec<Msb0, u64> = BitVec::from(value);
    bit_vector.into()
}

/// Unpacks with `bitvec`: `BitVec::<Msb0, u64>::from` takes the words as 64
/// bits each, and the vector's `into_iter` reads every bit in order.
#[verifier::external_body]
pub(crate) fn unpack_bits(words: &[u64]) -> (bits: Vec<bool>)
    requires
        words@.len() * 64 <= usize::MAX / 8,
    ensures
        bits@.len() == words@.len() * 64,
        forall|k: int| 0 <= k < bits@.len() ==> bits@[k] == bit_at(words@, k),
{
    let bit_vector: BitVec<Msb0, u64> = BitVec::from(words);
    bit_vector.into_iter().collect()
}

/// `count` bits spell a number below `2^count`.
pub proof fn lemma_msb_first_value_bound(bits: Seq<bool>, start: int, count: nat)
    ensures
        msb_first_value(bits, start, count) < pow2(count),
    decreases count,
{
    if count == 0 {
        lemma2_to64();
    } else {
        lemma_msb_first_value_bound(bits, start, (count - 1) as nat);
        lemma_pow2_unfold(count);
    }
}

/// The number spelled by `count` bits holds the bit at `offset` in the
/// position that is `offset` below its most significant one.
pub proof fn lemma_msb_first_value_bit(bits: Seq<bool>, start: int, count: nat, offset: nat)
    requires
        offset < count,
    ensures
        (msb_first_value(bits, start, count) / pow2((count - 1 - offset) as nat)) % 2 == 1
            <==> bit_or_unset(bits, start + offset),
    decreases count,
{
    let value = msb_first_value(bits, start, count);
    let shorter = msb_first_value(bits, start, (count - 1) as nat);
    let last: nat = if bit_or_unset(bits, start + count - 1) {
        1
    } else {
        0
    };
    assert(value == 2 * shorter + last);
    if offset == count - 1 {
        lemma2_to64();
        assert(pow2((count - 1 - offset) as nat) == 1);
        assert(value / 1 == value);
    } else {
        lemma_msb_first_value_bit(bits, start, (count - 1) as nat, offset);
        let low = pow2((count - 2 - offset) as nat);
        let high = pow2((count - 1 - offset) as nat);
        lemma_pow2_pos((count - 2 - offset) as nat);
        lemma_pow2_unfold((count - 1 - offset) as nat);
        assert(high == 2 * low);
        lemma_div_denominator(value as int, 2, low as int);
        assert(value / 2 == shorter);
        assert((value as int) / (2 * (low as int)) == (shorter as int) / (low as int));
        assert(value / high == shorter / low);
    }
}

/// Unpacking reads back what was packed, and unset bits past the end.
pub proof fn lemma_bit_at_packed(bits: Seq<bool>, index: int)
    requires
        0 <= index < 64 * packed_len(bits.len()),
    ensures
        bit_at(packed(bits), index) == bit_or_unset(bits, index),
{
    let j = index / 64;
    let offset = (index % 64) as nat;
    lemma_msb_first_value_bound(bits, 64 * j, 64);
    lemma2_to64();
    lemma2_to64_rest();
    lemma_msb_first_value_bit(bits, 64 * j, 64, offset);
    assert(packed(bits)[j] == msb_first_value(bits, 64 * j, 64));
}

/// Vectors of the same length that pack into the same words are the same.
pub proof fn lemma_packed_injective(a: Seq<bool>, b: Seq<bool>)
    requires
        a.len() == b.len(),
        packed(a) == packed(b),
    ensures
        a == b,
{
    assert forall|k: int| 0 <= k < a.len() implies a[k] == b[k] by {
        lemma_bit_at_packed(a, k);
        lemma_bit_at_packed(b, k);
    }
    assert(a =~= b);
}

} // verus!
