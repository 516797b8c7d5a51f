use ark_bn254::Fr;
use ark_ff::PrimeField as ArkField;
use chainfold::keystem::address::Address;
use chainfold::keystem::bn254::{Bn254, SpendingKey};
use chainfold::keystem::encoding::Element;
use chainfold::keystem::error::{InvalidAddress, InvalidKey};
use chainfold::keystem::family::{Compliance, Incoming};
use chainfold::keystem::k256::K256;
use chainfold::keystem::kem::{Kem, KemKeyOps};
use chainfold::keystem::spend::OwnerPubkey;
use chainfold::keystem::viewing::{ViewingKey, ViewingPubkey};
use chainfold::keystem::x25519::X25519;
use chainfold::Describe;
use rand_chacha::ChaCha20Rng;
use rand_core::{Rng, SeedableRng};

type Addr = Address<Bn254, X25519, Incoming>;

/// Longest secret-key encoding the conformance probes cover.
const MAX_PROBE_LEN: usize = 256;

fn drawn(rng: &mut ChaCha20Rng) -> [u8; 32] {
    let mut bytes = [0u8; 32];
    rng.fill_bytes(&mut bytes);
    bytes
}

/// Draws a secret key, repeating draws that name none.
fn generate<K: KemKeyOps>(rng: &mut ChaCha20Rng) -> K::SecretKey {
    loop {
        if let Some(sk) = K::generate_sk(&drawn(rng)) {
            return sk;
        }
    }
}

/// Draws a viewing key, repeating draws that name none.
fn viewing<K: KemKeyOps, F>(rng: &mut ChaCha20Rng) -> ViewingKey<K, F> {
    loop {
        if let Some(key) = ViewingKey::random(&drawn(rng)) {
            return key;
        }
    }
}

fn sk_codec_roundtrips<K: KemKeyOps>(sk: &K::SecretKey) {
    let encoded = K::encode_sk(sk);
    let decoded = K::decode_sk(&encoded).expect("own sk encoding must decode");
    assert_eq!(K::encode_sk(&decoded), encoded, "decode_sk must invert encode_sk");
    assert_eq!(
        K::encode_pk(&K::derive_pk(&decoded)),
        K::encode_pk(&K::derive_pk(sk)),
        "a decoded sk must derive the public key its encoding came from"
    );
}

fn generate_sk_draws<K: KemKeyOps>(rng: &mut ChaCha20Rng) {
    let first = generate::<K>(rng);
    let second = generate::<K>(rng);
    sk_codec_roundtrips::<K>(&first);
    assert_ne!(
        K::encode_sk(&first),
        K::encode_sk(&second),
        "two draws from one generator must differ"
    );
}

fn wrong_length_fails<K: KemKeyOps>(sk: &K::SecretKey) {
    let len = K::encode_sk(sk).len();
    assert!((1..MAX_PROBE_LEN).contains(&len));
    let probe = [0xAAu8; MAX_PROBE_LEN];
    for case in [&probe[..0], &probe[..len - 1], &probe[..len + 1]] {
        assert!(
            K::decode_sk(case).is_none(),
            "an sk encoding of {} bytes must not decode",
            case.len()
        );
    }
}

fn address(seed: u64) -> Addr {
    let mut rng = ChaCha20Rng::seed_from_u64(seed);
    let mut pool = [0u8; 32 * 64];
    rng.fill_bytes(&mut pool);
    Address::new(
        SpendingKey::random(&pool).expect("64 draws hold a canonical one").derive_owner_pubkey(),
        viewing::<X25519, Incoming>(&mut rng).derive_pubkey(),
    )
}

#[test]
fn round_trips_through_bytes() {
    let alice = address(1);

    assert!(Addr::from_bytes(&alice.to_bytes()).unwrap().same_as(&alice));
}

#[test]
fn substituting_the_viewing_half_changes_the_address() {
    let alice = address(1);
    let mallory = address(2);
    let swapped = Address::new(alice.owner_pubkey(), mallory.viewing_pubkey().clone());

    assert_eq!(swapped.owner_pubkey(), alice.owner_pubkey());
    assert!(!swapped.same_as(&alice));
    assert_ne!(swapped.to_bytes(), alice.to_bytes());
}

#[test]
fn a_truncated_or_non_canonical_encoding_is_rejected() {
    let mut bytes = address(1).to_bytes();

    assert!(Addr::from_bytes(&bytes[..bytes.len() - 1]).is_err());
    assert!(Addr::from_bytes(&bytes[..16]).is_err());

    // bit 255 of the viewing half: a second encoding of the same point.
    let last = bytes.len() - 1;
    bytes[last] |= 0x80;
    assert!(Addr::from_bytes(&bytes).is_err());
}

#[test]
fn an_owner_half_at_the_modulus_is_rejected() {
    let mut bytes = address(1).to_bytes();
    bytes[..32].copy_from_slice(&[0xff; 32]);
    assert_eq!(Addr::from_bytes(&bytes).err(), Some(InvalidAddress));
    assert_eq!(
        InvalidAddress.describe(),
        "bytes are not an owner and viewing credential pair"
    );
}

#[test]
fn an_address_describes_both_halves() {
    let alice = address(1);
    assert_eq!(
        alice.describe(),
        format!(
            "Address {{ owner: {}, viewing: {} }}",
            alice.owner_pubkey().describe(),
            alice.viewing_pubkey().describe()
        )
    );
    assert!(alice.clone().same_as(&alice));
}

#[test]
fn k256_satisfies_the_kem_key_ops_conformance_suite() {
    // given a seeded generator and a fresh secp256k1 secret key drawn from it
    let mut rng = ChaCha20Rng::seed_from_u64(41);
    let sk = generate::<K256>(&mut rng);
    // when the shared conformance probes run against it
    sk_codec_roundtrips::<K256>(&sk);
    wrong_length_fails::<K256>(&sk);
    generate_sk_draws::<K256>(&mut rng);
    // then every codec, wrong-length, and draw-distinctness probe holds without panicking
}

#[test]
fn viewing_key_to_sk_bytes_then_from_sk_bytes_round_trips_for_k256() {
    // given a k256 viewing key drawn from a seeded generator
    let mut rng = ChaCha20Rng::seed_from_u64(101);
    let original: ViewingKey<K256, Incoming> = viewing(&mut rng);
    let expected = original.derive_pubkey();
    // when its secret bytes are persisted through to_sk_bytes and reloaded through from_sk_bytes
    let sk_bytes = original.to_sk_bytes();
    let reloaded: ViewingKey<K256, Incoming> =
        ViewingKey::from_sk_bytes(&sk_bytes).expect("a freshly encoded sk decodes");
    // then the reloaded key derives the same viewing pubkey
    assert!(reloaded.derive_pubkey().same_as(&expected));
}

#[test]
fn viewing_pubkey_to_bytes_then_from_bytes_round_trips_for_k256() {
    // given a k256 viewing pubkey derived from a freshly drawn viewing key
    let mut rng = ChaCha20Rng::seed_from_u64(111);
    let key: ViewingKey<K256, Incoming> = viewing(&mut rng);
    let pubkey = key.derive_pubkey();
    // when its wire encoding is decoded back through from_bytes
    let decoded: ViewingPubkey<K256, Incoming> =
        ViewingPubkey::from_bytes(&pubkey.to_bytes()).expect("its own encoding decodes");
    // then the recovered pubkey equals the original
    assert!(decoded.same_as(&pubkey));
}

#[test]
fn viewing_key_from_sk_bytes_rejects_a_wrong_length_string_for_k256() {
    // given a k256 secret-key encoding with one extra byte appended
    let mut rng = ChaCha20Rng::seed_from_u64(151);
    let sk = generate::<K256>(&mut rng);
    let mut encoded = K256::encode_sk(&sk);
    encoded.push(0);
    // when it is decoded as a viewing key
    let decoded = ViewingKey::<K256, Incoming>::from_sk_bytes(&encoded);
    // then the wrong-length string is rejected
    assert_eq!(decoded.err(), Some(InvalidKey));
}

#[test]
fn viewing_key_debug_redacts_the_secret_key() {
    // given a k256 viewing key drawn from a seeded generator
    let mut rng = ChaCha20Rng::seed_from_u64(201);
    let key: ViewingKey<K256, Incoming> = viewing(&mut rng);
    // when it is described
    let rendered = key.describe();
    // then it prints only the redaction marker
    assert_eq!(rendered, "ViewingKey(REDACTED)");
}

#[test]
fn k256_scalars_are_above_zero_and_below_the_group_order() {
    let order = [
        0xff, 0xff, 0xff, 0xff, 0xff, 0xff, 0xff, 0xff, 0xff, 0xff, 0xff, 0xff, 0xff, 0xff, 0xff,
        0xfe, 0xba, 0xae, 0xdc, 0xe6, 0xaf, 0x48, 0xa0, 0x3b, 0xbf, 0xd2, 0x5e, 0x8c, 0xd0, 0x36,
        0x41, 0x41,
    ];
    let mut below = order;
    below[31] -= 1;
    assert!(K256::decode_sk(&[0u8; 32]).is_none());
    assert!(K256::decode_sk(&order).is_none());
    assert!(K256::decode_sk(&below).is_some());
}

#[test]
fn the_generator_is_the_public_key_of_one() {
    let mut one = [0u8; 32];
    one[31] = 1;
    let key: ViewingKey<K256, Incoming> = ViewingKey::from_sk_bytes(&one).unwrap();
    assert_eq!(
        key.derive_pubkey().describe(),
        "ViewingPubkey(0279be667ef9dcbbac55a06295ce870b07029bfcdb2dce28d959f2815b16f81798)"
    );
    // a point off the curve and a point of another length are refused
    assert!(ViewingPubkey::<K256, Incoming>::from_bytes(&[0x02; 33]).is_ok());
    assert!(ViewingPubkey::<K256, Incoming>::from_bytes(&[0x07; 33]).is_err());
    assert!(ViewingPubkey::<K256, Incoming>::from_bytes(&[0x02; 32]).is_err());
}

#[test]
fn x25519_satisfies_the_kem_key_ops_conformance_suite() {
    // given a seeded generator and a fresh x25519 secret key drawn from it
    let mut rng = ChaCha20Rng::seed_from_u64(43);
    let sk = generate::<X25519>(&mut rng);
    // when the shared conformance probes run against it
    sk_codec_roundtrips::<X25519>(&sk);
    wrong_length_fails::<X25519>(&sk);
    generate_sk_draws::<X25519>(&mut rng);
    // then every codec, wrong-length, and draw-distinctness probe holds without panicking
}

#[test]
fn viewing_key_to_sk_bytes_then_from_sk_bytes_round_trips_for_x25519() {
    // given an x25519 viewing key drawn from a seeded generator
    let mut rng = ChaCha20Rng::seed_from_u64(103);
    let original: ViewingKey<X25519, Incoming> = viewing(&mut rng);
    let expected = original.derive_pubkey();
    // when its secret bytes are persisted through to_sk_bytes and reloaded through from_sk_bytes
    let sk_bytes = original.to_sk_bytes();
    let reloaded: ViewingKey<X25519, Incoming> =
        ViewingKey::from_sk_bytes(&sk_bytes).expect("a freshly encoded sk decodes");
    // then the reloaded key derives the same viewing pubkey
    assert!(reloaded.derive_pubkey().same_as(&expected));
}

#[test]
fn viewing_pubkey_to_bytes_then_from_bytes_round_trips_for_x25519() {
    // given an x25519 viewing pubkey derived from a freshly drawn viewing key
    let mut rng = ChaCha20Rng::seed_from_u64(113);
    let key: ViewingKey<X25519, Incoming> = viewing(&mut rng);
    let pubkey = key.derive_pubkey();
    // when its wire encoding is decoded back through from_bytes
    let decoded: ViewingPubkey<X25519, Incoming> =
        ViewingPubkey::from_bytes(&pubkey.to_bytes()).expect("its own encoding decodes");
    // then the recovered pubkey equals the original
    assert!(decoded.same_as(&pubkey));
}

#[test]
fn viewing_key_from_sk_bytes_rejects_a_wrong_length_string_for_x25519() {
    // given an x25519 secret-key encoding with one extra byte appended
    let mut rng = ChaCha20Rng::seed_from_u64(153);
    let sk = generate::<X25519>(&mut rng);
    let mut encoded = X25519::encode_sk(&sk);
    encoded.push(0);
    // when it is decoded as a viewing key
    let decoded = ViewingKey::<X25519, Incoming>::from_sk_bytes(&encoded);
    // then the wrong-length string is rejected
    assert_eq!(decoded.err(), Some(InvalidKey));
}

#[test]
fn incoming_and_compliance_viewing_keys_from_the_same_sk_bytes_derive_equal_wire_pubkeys() {
    // given the same x25519 secret-key bytes handed to two different disclosure families
    let mut rng = ChaCha20Rng::seed_from_u64(211);
    let sk_bytes = X25519::encode_sk(&generate::<X25519>(&mut rng));
    let incoming: ViewingKey<X25519, Incoming> =
        ViewingKey::from_sk_bytes(&sk_bytes).expect("freshly generated sk bytes decode");
    let compliance: ViewingKey<X25519, Compliance> =
        ViewingKey::from_sk_bytes(&sk_bytes).expect("freshly generated sk bytes decode");
    // when both derive their viewing pubkeys and encode them to wire bytes
    let incoming_bytes = incoming.derive_pubkey().to_bytes();
    let compliance_bytes = compliance.derive_pubkey().to_bytes();
    // then the two families derive equal wire encodings, so the marker costs nothing on the wire
    assert_eq!(incoming_bytes, compliance_bytes);
}

#[test]
fn the_x25519_public_key_is_the_scalar_times_the_base_point() {
    // the first key pair of the key agreement example in RFC 7748
    let secret = [
        0x77, 0x07, 0x6d, 0x0a, 0x73, 0x18, 0xa5, 0x7d, 0x3c, 0x16, 0xc1, 0x72, 0x51, 0xb2, 0x66,
        0x45, 0xdf, 0x4c, 0x2f, 0x87, 0xeb, 0xc0, 0x99, 0x2a, 0xb1, 0x77, 0xfb, 0xa5, 0x1d, 0xb9,
        0x2c, 0x2a,
    ];
    let key: ViewingKey<X25519, Incoming> = ViewingKey::from_sk_bytes(&secret).unwrap();
    assert_eq!(
        key.derive_pubkey().describe(),
        "ViewingPubkey(8520f0098930a754748b7ddcb43ef75a0dbf3a0d26381af4eba4a98eaa9b4e6a)"
    );
    assert_eq!(key.recipient().secret_key().bytes, secret);
}

#[test]
fn unreduced_coordinates_are_refused() {
    // given the prime itself and one below it, least significant byte first
    let mut prime = [0xffu8; 32];
    prime[0] = 0xed;
    prime[31] = 0x7f;
    let mut below = prime;
    below[0] = 0xec;
    // then only the reduced one names a key
    assert!(X25519::decode_pk(&prime).is_none());
    assert_eq!(X25519::decode_pk(&below).unwrap().bytes, below);
    assert!(ViewingPubkey::<X25519, Incoming>::from_bytes(&prime).is_err());
    assert_eq!(InvalidKey.describe(), "bytes are not a valid key for this kem");
}

#[test]
fn an_owner_half_survives_the_address() {
    let owner = OwnerPubkey::<Bn254>::from_field(
        Element::from_bigint(Fr::from(11u64).into_bigint().0).unwrap(),
    );
    let mut rng = ChaCha20Rng::seed_from_u64(7);
    let viewing = viewing::<X25519, Incoming>(&mut rng).derive_pubkey();
    let wire = viewing.to_bytes();
    let bytes = Address::new(owner, viewing).to_bytes();
    assert_eq!(bytes[..32], owner.to_bytes());
    assert_eq!(bytes[32..], wire);
}
