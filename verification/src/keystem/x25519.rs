//! X25519 keys.
use vstd::prelude::*;
use x25519_dalek::{PublicKey as DalekPublicKey, StaticSecret};

use crate::bytes;
use crate::keystem::encoding;
use crate::keystem::encoding::{is_below, to_limbs, Limbs};
use crate::keystem::kem::{Kem, KemKeyOps};

verus! {

/// Byte length of an X25519 key.
pub const X25519_KEY_LEN: usize = 32;

/// The X25519 mechanism.
#[derive(Clone, Copy, Debug, PartialEq, Eq, Hash)]
pub struct X25519;

/// X25519 secret key: any 32 bytes, which are clamped when they are used.
pub struct X25519Secret {
    /// The bytes.
    pub bytes: [u8; 32],
}

/// X25519 public key.
#[derive(Clone, Copy, Debug, PartialEq, Eq, Hash)]
pub struct X25519Public {
    /// The coordinate, least significant byte first.
    pub bytes: [u8; 32],
}

/// `2^255 - 19`, the prime that coordinates are reduced by.
pub open spec fn prime() -> nat {
    0x7fffffffffffffffffffffffffffffffffffffffffffffffffffffffffffffednat
}

/// Public key of a secret key.
pub uninterp spec fn x25519_public_of(secret: Seq<u8>) -> [u8; 32];

/// `PublicKey::from` of a `StaticSecret` of `x25519-dalek`, and its `to_bytes`: the base point
/// times the clamped secret, a function of the secret's bytes. The coordinate is given out reduced.
#[verifier::external_body]
fn x25519_public(secret: &[u8; 32]) -> (public: [u8; 32])
    ensures
        public == x25519_public_of(secret@),
        bytes::le_value(public@) < prime(),
{
    DalekPublicKey::from(&StaticSecret::from(*secret)).to_bytes()
}

impl Kem for X25519 {
    type SecretKey = X25519Secret;

    type PublicKey = X25519Public;

    open spec fn valid_sk(sk: X25519Secret) -> bool {
        true
    }

    open spec fn valid_pk(pk: X25519Public) -> bool {
        bytes::le_value(pk.bytes@) < prime()
    }

    open spec fn wire(pk: X25519Public) -> Seq<u8> {
        pk.bytes@
    }

    open spec fn wire_of(sk: X25519Secret) -> Seq<u8> {
        x25519_public_of(sk.bytes@)@
    }

    open spec fn named(bytes: Seq<u8>) -> Option<Seq<u8>> {
        if bytes.len() == X25519_KEY_LEN && bytes::le_value(bytes) < prime() {
            Some(bytes)
        } else {
            None
        }
    }

    proof fn law_wire_names_its_key(pk: X25519Public) {
    }

    fn derive_pk(sk: &X25519Secret) -> (pk: X25519Public) {
        X25519Public { bytes: x25519_public(&sk.bytes) }
    }

    fn encode_pk(pk: &X25519Public) -> (bytes: Vec<u8>) {
        let mut bytes: Vec<u8> = Vec::new();
        bytes.extend_from_slice(pk.bytes.as_slice());
        assert(bytes@ =~= pk.bytes@);
        bytes
    }

    /// Rejects other lengths, and coordinates that are not reduced: they would be second encodings
    /// of a point.
    fn decode_pk(bytes: &[u8]) -> (pk: Option<X25519Public>) {
        match array_of(bytes) {
            Some(key) => {
                let reversed = reverse(&key);
                let limbs = to_limbs(&reversed);
                let bound: Limbs = [
                    0xffff_ffff_ffff_ffed,
                    0xffff_ffff_ffff_ffff,
                    0xffff_ffff_ffff_ffff,
                    0x7fff_ffff_ffff_ffff,
                ];
                assert(encoding::limbs_value(bound) == prime());
                if is_below(&limbs, &bound) {
                    Some(X25519Public { bytes: key })
                } else {
                    None
                }
            },
            None => None,
        }
    }

    fn copy_pk(pk: &X25519Public) -> (copy: X25519Public) {
        X25519Public { bytes: pk.bytes }
    }
}

/// Bytes the other way round.
fn reverse(bytes: &[u8; 32]) -> (reversed: [u8; 32])
    ensures
        encoding::be_value(reversed@) == bytes::le_value(bytes@),
{
    let mut reversed: [u8; 32] = [0u8; 32];
    let mut i: usize = 0;
    while i < 32
        invariant
            i <= 32,
            forall|j: int| 0 <= j < i ==> reversed@[j] == bytes@[31 - j],
        decreases 32 - i,
    {
        reversed[i] = bytes[31 - i];
        i += 1;
    }
    assert(reversed@.reverse() =~= bytes@);
    reversed
}

/// Bytes as an array, when there are 32 of them.
pub(crate) fn array_of(bytes: &[u8]) -> (array: Option<[u8; 32]>)
    ensures
        match array {
            Some(array) => array@ == bytes@,
            None => bytes@.len() != 32,
        },
{
    if bytes.len() != 32 {
        return None;
    }
    let mut array: [u8; 32] = [0u8; 32];
    let mut i: usize = 0;
    while i < 32
        invariant
            i <= 32,
            bytes@.len() == 32,
            forall|j: int| 0 <= j < i ==> array@[j] == bytes@[j],
        decreases 32 - i,
    {
        array[i] = bytes[i];
        i += 1;
    }
    assert(array@ =~= bytes@);
    Some(array)
}

impl KemKeyOps for X25519 {
    open spec fn sk_bytes(sk: X25519Secret) -> Seq<u8> {
        sk.bytes@
    }

    open spec fn names_sk(bytes: Seq<u8>) -> bool {
        bytes.len() == X25519_KEY_LEN
    }

    proof fn law_sk_codec(sk: X25519Secret, other: X25519Secret) {
    }

    fn generate_sk(drawn: &[u8; 32]) -> (sk: Option<X25519Secret>) {
        Some(X25519Secret { bytes: *drawn })
    }

    fn encode_sk(sk: &X25519Secret) -> (bytes: Vec<u8>) {
        let mut bytes: Vec<u8> = Vec::new();
        bytes.extend_from_slice(sk.bytes.as_slice());
        assert(bytes@ =~= sk.bytes@);
        bytes
    }

    /// Every 32-byte string is a valid scalar once clamped, so only the length can fail.
    fn decode_sk(bytes: &[u8]) -> (sk: Option<X25519Secret>) {
        match array_of(bytes) {
            Some(bytes) => Some(X25519Secret { bytes }),
            None => None,
        }
    }
}

/// A secret key is the 32 bytes it was persisted to, and its public key is what those bytes
/// give. Bytes name a public key exactly when there are 32 and they spell, least significant
/// first, a coordinate below `2^255 - 19`; they name themselves.
pub proof fn law_x25519_keys_are_their_bytes(sk: X25519Secret, bytes: Seq<u8>)
    ensures
        X25519::wire_of(sk) == x25519_public_of(X25519::sk_bytes(sk))@,
        X25519::sk_bytes(sk) == sk.bytes@,
        X25519::names_sk(bytes) <==> bytes.len() == 32,
        X25519::named(bytes) == (if bytes.len() == 32 && bytes::le_value(bytes) + 19
            < vstd::arithmetic::power2::pow2(255) {
            Some(bytes)
        } else {
            None
        }),
{
    vstd::arithmetic::power2::lemma2_to64();
    vstd::arithmetic::power2::lemma_pow2_unfold(64);
    vstd::arithmetic::power2::lemma_pow2_adds(64, 64);
    vstd::arithmetic::power2::lemma_pow2_adds(64, 63);
    vstd::arithmetic::power2::lemma_pow2_adds(128, 127);
    let word = vstd::arithmetic::power2::pow2(64);
    let half = vstd::arithmetic::power2::pow2(63);
    assert(word * word == 0x1_0000_0000_0000_0000_0000_0000_0000_0000) by (nonlinear_arith)
        requires
            word == 0x1_0000_0000_0000_0000,
    ;
    assert(word * half == 0x8000_0000_0000_0000_0000_0000_0000_0000) by (nonlinear_arith)
        requires
            word == 0x1_0000_0000_0000_0000,
            half == 0x8000_0000_0000_0000,
    ;
    let low = vstd::arithmetic::power2::pow2(128);
    let high = vstd::arithmetic::power2::pow2(127);
    assert(low * high == prime() + 19) by (nonlinear_arith)
        requires
            low == 0x1_0000_0000_0000_0000_0000_0000_0000_0000,
            high == 0x8000_0000_0000_0000_0000_0000_0000_0000,
            prime() == 0x7fffffffffffffffffffffffffffffffffffffffffffffffffffffffffffffed,
    ;
}

} // verus!
