use bellman_ce::pairing::bn256::{Fr, FrRepr};
use bellman_ce::pairing::ff::{PrimeField, PrimeFieldRepr};
use sapling_crypto_ce::group_hash::{GroupHasher, Keccak256Hasher};
use sis_gadget::field::FieldElement;
use sis_gadget::limbs::U256;
use sis_gadget::sampling::{cell_seed, decode_digest, sample_cell, sample_element, MAX_NONCES};

fn reference_sample(seed: &[u8]) -> Option<U256> {
    for nonce in 0..2048u64 {
        let mut h = Keccak256Hasher::new(seed);
        h.update(&nonce.to_le_bytes());
        let digest = h.finalize();
        let mut repr = FrRepr::default();
        repr.read_le(&digest[..]).unwrap();
        if let Ok(fe) = Fr::from_repr(repr) {
            let r = fe.into_repr();
            return Some(U256 { l0: r.0[0], l1: r.0[1], l2: r.0[2], l3: r.0[3] });
        }
    }
    None
}

#[test]
fn nonce_limit() {
    assert_eq!(MAX_NONCES, 2048);
}

#[test]
fn cell_seed_hashes_personalization_row_and_column() {
    let mut h = Keccak256Hasher::new(b"hello");
    h.update(&[1, 0, 0, 0]);
    h.update(&[0, 2, 0, 0]);
    let expected = h.finalize();
    let seed = cell_seed(b"hello", 1, 512);
    assert_eq!(seed.len(), 32);
    assert_eq!(seed, expected);
    assert_ne!(seed, cell_seed(b"hello", 512, 1));
    assert_ne!(seed, cell_seed(b"hullo", 1, 512));
    assert_ne!(&seed[..5], b"hello");
}

#[test]
fn cell_seed_writes_coordinates_little_endian() {
    let mut h = Keccak256Hasher::new(b"");
    h.update(&[0x78, 0x56, 0x34, 0x12, 0xef, 0xcd, 0xab, 0x90]);
    assert_eq!(cell_seed(b"", 0x1234_5678, 0x90ab_cdef), h.finalize());
}

#[test]
fn decode_digest_reads_little_endian() {
    let mut digest = [0u8; 32];
    assert!(decode_digest(&digest).unwrap().is_zero());
    digest[0] = 7;
    assert_eq!(decode_digest(&digest).unwrap(), FieldElement::from_u64(7));
    digest[0] = 0;
    digest[8] = 1;
    assert_eq!(
        decode_digest(&digest).unwrap().into_repr(),
        U256 { l0: 0, l1: 1, l2: 0, l3: 0 }
    );
    digest[8] = 0;
    digest[31] = 0x30;
    assert_eq!(
        decode_digest(&digest).unwrap().into_repr(),
        U256 { l0: 0, l1: 0, l2: 0, l3: 0x3000_0000_0000_0000 }
    );
}

#[test]
fn decode_digest_rejects_from_the_modulus_on() {
    let modulus: [u8; 32] = [
        1, 0, 0, 240, 147, 245, 225, 67, 145, 112, 185, 121, 72, 232, 51, 40, 93, 88, 129, 129,
        182, 69, 80, 184, 41, 160, 49, 225, 114, 78, 100, 48,
    ];
    assert!(decode_digest(&modulus).is_none());
    let mut below = modulus;
    below[0] = 0;
    let mut minus_one = FieldElement::one();
    minus_one.negate();
    assert_eq!(decode_digest(&below).unwrap(), minus_one);
    let mut above = modulus;
    above[0] = 2;
    assert!(decode_digest(&above).is_none());
    assert!(decode_digest(&[0xff; 32]).is_none());
}

#[test]
fn sample_element_takes_the_first_valid_nonce() {
    for seed in [&b"seed"[..], &[0u8; 32][..], &[0xabu8; 32][..], &b""[..]] {
        let expected = reference_sample(seed).unwrap();
        assert_eq!(sample_element(seed).unwrap().into_repr(), expected);
    }
}

#[test]
fn sample_cell_chains_seed_and_nonce() {
    for (row, column) in [(0u32, 0u32), (0, 1), (1, 0), (127, 32511), (u32::MAX, u32::MAX)] {
        let mut h = Keccak256Hasher::new(b"hello");
        h.update(&row.to_le_bytes());
        h.update(&column.to_le_bytes());
        let seed = h.finalize();
        let expected = reference_sample(&seed).unwrap();
        assert_eq!(sample_cell(b"hello", row, column).unwrap().into_repr(), expected);
    }
    assert_ne!(sample_cell(b"hello", 0, 1), sample_cell(b"hello", 1, 0));
}
