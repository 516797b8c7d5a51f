use ark_bn254::Fr;
use ark_ff::{BigInt, BigInteger, One, PrimeField as ArkField, Zero};
use chainfold::keystem::bn254::Bn254;
use chainfold::keystem::encoding::{
    check_canonical, high_byte_mask, is_below, sample_canonical, to_canonical_bytes, to_field,
    to_limbs, Element, PrimeField, KEY_LEN,
};
use chainfold::keystem::error::NonCanonical;
use chainfold::Describe;
use rand_chacha::ChaCha20Rng;
use rand_core::{Rng, SeedableRng};

fn encode(value: Fr) -> [u8; 32] {
    to_canonical_bytes(&value.into_bigint().0)
}

fn decode(bytes: &[u8; 32]) -> Fr {
    let element: Element<Bn254> = to_field(bytes);
    Fr::from_bigint(BigInt::new(element.into_bigint())).expect("below the modulus")
}

/// Draws one canonical encoding.
fn sample(rng: &mut ChaCha20Rng) -> [u8; 32] {
    let mut pool = [0u8; 32 * 64];
    rng.fill_bytes(&mut pool);
    sample_canonical::<Bn254>(&pool).expect("64 draws hold a canonical one")
}

#[test]
fn canonical_bytes_round_trip_through_the_field() {
    // given the multiplicative identity of BN254's scalar field
    let value = Fr::one();
    // when its encoding is checked and read back
    let bytes = encode(value);
    // then the check accepts and the field element survives unchanged
    assert_eq!(check_canonical::<Bn254>(&bytes), Ok(()));
    assert_eq!(decode(&bytes), value);
}

#[test]
fn to_field_inverts_the_canonical_encoding() {
    // given the two boundary elements and one interior one
    let values = [Fr::zero(), Fr::one(), -Fr::one(), Fr::from(123_456_789u64)];
    // when each is encoded and read back through the unchecked decode
    let recovered = values.map(|value| decode(&encode(value)));
    // then every element survives the round trip
    assert_eq!(recovered, values);
}

#[test]
fn to_field_agrees_with_the_reducing_decode() {
    // given canonical encodings drawn from a seeded generator
    let mut rng = ChaCha20Rng::seed_from_u64(0xBEEF);
    let samples: [[u8; KEY_LEN]; 100] = std::array::from_fn(|_| sample(&mut rng));
    // when each is read both by the limb walk and by a full reduction
    let agree = samples.iter().all(|s| decode(s) == Fr::from_be_bytes_mod_order(s));
    // then skipping the reduction names the same field element
    assert!(agree);
}

#[test]
fn zero_encodes_to_an_all_zero_string() {
    // given the additive identity
    let value = Fr::zero();
    // when it is encoded
    let bytes = encode(value);
    // then every byte of the fixed-width encoding is zero
    assert_eq!(bytes, [0u8; KEY_LEN]);
}

#[test]
fn the_modulus_itself_is_rejected() {
    // given the modulus, the smallest non-canonical encoding
    let mut bytes = [0u8; KEY_LEN];
    bytes.copy_from_slice(&Fr::MODULUS.to_bytes_be());
    // when it is checked
    let checked = check_canonical::<Bn254>(&bytes);
    // then the modulus comparison rejects it
    assert_eq!(checked, Err(NonCanonical));
}

#[test]
fn one_below_the_modulus_is_accepted() {
    // given the largest canonical field element
    let bytes = encode(-Fr::one());
    // when it is checked and read back
    let checked = check_canonical::<Bn254>(&bytes);
    // then it is accepted and names the field element it encodes
    assert_eq!(checked, Ok(()));
    assert_eq!(decode(&bytes), -Fr::one());
}

#[test]
fn an_all_ones_string_is_rejected() {
    // given a byte string far above the modulus
    let bytes = [0xffu8; KEY_LEN];
    // when it is checked
    let checked = check_canonical::<Bn254>(&bytes);
    // then it is rejected rather than silently reduced
    assert_eq!(checked, Err(NonCanonical));
}

#[test]
fn sampling_yields_canonical_encodings() {
    // given a seeded generator
    let mut rng = ChaCha20Rng::seed_from_u64(0xC0FFEE);
    // when a hundred candidates are drawn
    let samples: [[u8; KEY_LEN]; 100] = std::array::from_fn(|_| sample(&mut rng));
    // then every one decodes, and the draw is not a constant
    assert!(samples.iter().all(|s| check_canonical::<Bn254>(s).is_ok()));
    assert!(samples.windows(2).any(|pair| pair[0] != pair[1]));
}

#[test]
fn the_high_byte_mask_covers_every_modulus_width() {
    // given the bit widths a 32-byte encoding can hold
    let widths = [1usize, 7, 8, 9, 254, 255, 256];
    // when each is masked
    let masks = widths.map(high_byte_mask);
    // then a whole-byte width keeps all eight bits and the rest truncate
    assert_eq!(masks, [0x01, 0x7f, 0xff, 0x01, 0x3f, 0x7f, 0xff]);
}

#[test]
fn the_modulus_is_the_one_of_the_curve() {
    assert_eq!(Bn254::modulus(), Fr::MODULUS.0);
    assert_eq!(Bn254::modulus_bits(), 254);
}

#[test]
fn limbs_are_read_from_the_back() {
    let mut bytes = [0u8; 32];
    bytes[31] = 1;
    bytes[23] = 2;
    bytes[0] = 0x80;
    assert_eq!(to_limbs(&bytes), [1, 2, 0, 0x8000_0000_0000_0000]);
    assert_eq!(to_canonical_bytes(&[1, 2, 0, 0x8000_0000_0000_0000]), bytes);
}

#[test]
fn integers_compare_by_their_highest_limb_first() {
    assert!(is_below(&[9, 9, 9, 0], &[0, 0, 0, 1]));
    assert!(!is_below(&[0, 0, 0, 1], &[9, 9, 9, 0]));
    assert!(!is_below(&[1, 2, 3, 4], &[1, 2, 3, 4]));
}

#[test]
fn sampling_masks_pads_and_takes_the_first_canonical_draw() {
    // given a draw at or above the modulus once masked, then one below it
    let mut pool = [0xffu8; 64];
    pool[32] = 0xc0;
    // when sampled
    let sampled = sample_canonical::<Bn254>(&pool).unwrap();
    // then the second draw serves, with its two highest bits cleared
    let mut expected = [0xffu8; 32];
    expected[0] = 0;
    assert_eq!(sampled, expected);
    // and a pool without a canonical draw serves nothing
    assert_eq!(sample_canonical::<Bn254>(&[0xffu8; 63]), None);
    assert_eq!(sample_canonical::<Bn254>(&[]), None);
}

#[test]
fn every_encoding_is_reached_by_its_own_bytes() {
    let bytes = encode(-Fr::one());
    assert_eq!(sample_canonical::<Bn254>(&bytes), Some(bytes));
}

#[test]
fn an_integer_at_the_modulus_is_no_element() {
    assert!(Element::<Bn254>::from_bigint(Fr::MODULUS.0).is_none());
    assert!(Element::<Bn254>::from_bigint([0, 0, 0, 0]).is_some());
}

#[test]
fn refusals_describe_themselves() {
    assert_eq!(NonCanonical.describe(), "bytes are not a canonical field element");
}
