//! Deterministic sampling of field elements from a public seed.
//!
//! Every matrix cell is pinned to a hash chain: the cell's seed is the hash
//! of the personalization and the cell's coordinates, and the cell's element
//! is the first digest of the seed and a running nonce that decodes to a
//! value below the modulus.

use vstd::prelude::*;
use bellman_ce::pairing::bn256::{Fr, FrRepr};
use bellman_ce::pairing::ff::{PrimeField, PrimeFieldRepr};
use byteorder::{ByteOrder, LittleEndian};
use sapling_crypto_ce::group_hash::{GroupHasher, Keccak256Hasher};
use crate::field::{modulus, FieldElement};
use crate::limbs::U256;

verus! {

/// Number of nonces tried for one cell before sampling gives up.
pub const MAX_NONCES: u64 = 2048;

/// The Keccak-256 digest of `personalization` followed by `data`.
pub uninterp spec fn keccak256_digest(personalization: Seq<u8>, data: Seq<u8>) -> Seq<u8>;

/// The `width` low-order bytes of `n`, least significant first.
pub open spec fn le_bytes(n: nat, width: nat) -> Seq<u8>
    decreases width,
{
    if width == 0 {
        Seq::empty()
    } else {
        seq![(n % 256) as u8] + le_bytes(n / 256, (width - 1) as nat)
    }
}

/// The integer that `bytes` spell out, least significant byte first.
pub open spec fn le_value(bytes: Seq<u8>) -> nat
    decreases bytes.len(),
{
    if bytes.len() == 0 {
        0
    } else {
        bytes[0] as nat + 256 * le_value(bytes.drop_first())
    }
}

/// Hashes with `Keccak256Hasher` of `sapling_crypto_ce`: a hasher started on
/// `personalization`, fed `data` and finalized. The digest is the named
/// function of the two inputs and is 32 bytes long.
#[verifier::external_body]
fn keccak256(personalization: &[u8], data: &[u8]) -> (digest: Vec<u8>)
    ensures
        digest@ == keccak256_digest(personalization@, data@),
        digest@.len() == 32,
{
    let mut hasher = Keccak256Hasher::new(personalization);
    hasher.update(data);
    hasher.finalize()
}

/// Writes `n` with `byteorder`'s `LittleEndian::write_u32`: four bytes, least
/// significant first.
#[verifier::external_body]
fn le_bytes_u32(n: u32) -> (bytes: Vec<u8>)
    ensures
        bytes@ == le_bytes(n as nat, 4),
{
    let mut buffer = [0u8; 4];
    LittleEndian::write_u32(&mut buffer[..], n);
    buffer.to_vec()
}

/// Writes `n` with `byteorder`'s `LittleEndian::write_u64`: eight bytes, least
/// significant first.
#[verifier::external_body]
fn le_bytes_u64(n: u64) -> (bytes: Vec<u8>)
    ensures
        bytes@ == le_bytes(n as nat, 8),
{
    let mut buffer = [0u8; 8];
    LittleEndian::write_u64(&mut buffer[..], n);
    buffer.to_vec()
}

/// Reads 32 bytes with `FrRepr::read_le` and decodes them with `Fr::from_repr`
/// of the pairing crate's BN254 scalar field: the little-endian integer, given
/// back in canonical form exactly when it lies below the field's modulus.
#[verifier::external_body]
fn decode_repr(digest: &[u8]) -> (r: Option<U256>)
    requires
        digest@.len() == 32,
    ensures
        r.is_some() <==> le_value(digest@) < modulus(),
        r matches Some(repr) ==> repr.value() == le_value(digest@),
{
    let mut repr = FrRepr::default();
    if repr.read_le(digest).is_err() {
        return None;
    }
    match Fr::from_repr(repr) {
        Ok(element) => {
            let limbs = element.into_repr().0;
            Some(U256 { l0: limbs[0], l1: limbs[1], l2: limbs[2], l3: limbs[3] })
        },
        Err(_) => None,
    }
}

/// The field element that a 32-byte digest decodes to, if any.
pub open spec fn decoded(digest: Seq<u8>) -> Option<nat> {
    if le_value(digest) < modulus() {
        Some(le_value(digest))
    } else {
        None
    }
}

/// Decodes a 32-byte digest as a little-endian integer and accepts it only
/// below the modulus.
pub fn decode_digest(digest: &[u8]) -> (r: Option<FieldElement>)
    requires
        digest@.len() == 32,
    ensures
        r.is_some() == decoded(digest@).is_some(),
        r matches Some(e) ==> e.wf() && Some(e@) == decoded(digest@),
{
    match decode_repr(digest) {
        Some(repr) => FieldElement::from_repr(repr),
        None => None,
    }
}

/// The seed of the cell at `(row, column)`.
pub open spec fn cell_seed_spec(personalization: Seq<u8>, row: nat, column: nat) -> Seq<u8> {
    keccak256_digest(personalization, le_bytes(row, 4) + le_bytes(column, 4))
}

/// The element that `seed` yields at `nonce`, if the digest decodes.
pub open spec fn candidate(seed: Seq<u8>, nonce: nat) -> Option<nat> {
    decoded(keccak256_digest(seed, le_bytes(nonce, 8)))
}

/// The first element that `seed` yields at a nonce from `nonce` up to the limit.
pub open spec fn first_accepted(seed: Seq<u8>, nonce: nat) -> Option<nat>
    decreases MAX_NONCES - nonce,
{
    if nonce >= MAX_NONCES {
        None
    } else if candidate(seed, nonce).is_some() {
        candidate(seed, nonce)
    } else {
        first_accepted(seed, nonce + 1)
    }
}

/// The element sampled for the cell at `(row, column)`, if sampling succeeds.
pub open spec fn sampled_cell(personalization: Seq<u8>, row: nat, column: nat) -> Option<nat> {
    first_accepted(cell_seed_spec(personalization, row, column), 0)
}

/// Hashes the personalization and the cell's coordinates into the cell's seed.
pub fn cell_seed(personalization: &[u8], row: u32, column: u32) -> (seed: Vec<u8>)
    ensures
        seed@ == cell_seed_spec(personalization@, row as nat, column as nat),
        seed@.len() == 32,
{
    let mut data = le_bytes_u32(row);
    let mut column_bytes = le_bytes_u32(column);
    data.append(&mut column_bytes);
    keccak256(personalization, data.as_slice())
}

/// Rejection-samples a field element from `seed`: the first nonce whose
/// digest decodes wins; `None` when no nonce below the limit does.
pub fn sample_element(seed: &[u8]) -> (r: Option<FieldElement>)
    ensures
        r.is_some() == first_accepted(seed@, 0).is_some(),
        r matches Some(e) ==> e.wf() && Some(e@) == first_accepted(seed@, 0),
{
    let mut nonce: u64 = 0;
    while nonce < MAX_NONCES
        invariant
            nonce <= MAX_NONCES,
            first_accepted(seed@, nonce as nat) == first_accepted(seed@, 0),
        decreases MAX_NONCES - nonce,
    {
        let nonce_bytes = le_bytes_u64(nonce);
        let digest = keccak256(seed, nonce_bytes.as_slice());
        match decode_digest(digest.as_slice()) {
            Some(element) => {
                return Some(element);
            },
            None => {},
        }
        nonce = nonce + 1;
    }
    None
}

/// Samples the element of the cell at `(row, column)`.
pub fn sample_cell(personalization: &[u8], row: u32, column: u32) -> (r: Option<FieldElement>)
    ensures
        r.is_some() == sampled_cell(personalization@, row as nat, column as nat).is_some(),
        r matches Some(e) ==> e.wf() && Some(e@) == sampled_cell(
            personalization@,
            row as nat,
            column as nat,
        ),
{
    let seed = cell_seed(personalization, row, column);
    sample_element(seed.as_slice())
}

} // verus!
