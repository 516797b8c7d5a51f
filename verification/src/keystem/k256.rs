//! secp256k1 keys.
use k256::elliptic_curve::sec1::ToSec1Point;
use k256::{PublicKey, SecretKey};
use vstd::prelude::*;

use crate::keystem::encoding;
use crate::keystem::kem::{Kem, KemKeyOps};
use crate::keystem::x25519::array_of;

verus! {

/// Byte length of a secp256k1 scalar.
pub const K256_SK_LEN: usize = 32;

/// Byte length of a compressed secp256k1 point.
pub const K256_PK_LEN: usize = 33;

/// The secp256k1 mechanism.
#[derive(Clone, Copy, Debug, PartialEq, Eq, Hash)]
pub struct K256;

/// secp256k1 secret key.
pub struct K256Secret {
    /// The scalar, most significant byte first.
    pub bytes: [u8; 32],
}

/// secp256k1 public key.
#[derive(Clone, Copy, Debug, PartialEq, Eq, Hash)]
pub struct K256Public {
    /// The compressed point.
    pub bytes: [u8; 33],
}

/// Order of the group.
pub open spec fn group_order() -> nat {
    0xfffffffffffffffffffffffffffffffebaaedce6af48a03bbfd25e8cd0364141nat
}

/// Whether bytes spell a scalar that can be a secret key.
pub open spec fn is_scalar(bytes: Seq<u8>) -> bool {
    bytes.len() == K256_SK_LEN && 0 < encoding::be_value(bytes) < group_order()
}

/// Compressed public key of a secret scalar.
pub uninterp spec fn k256_public_of(secret: Seq<u8>) -> [u8; 33];

/// The point that 33 bytes in SEC 1 form name, compressed.
pub uninterp spec fn k256_point_of(bytes: Seq<u8>) -> Option<[u8; 33]>;

/// `SecretKey::from_slice` of `k256` on 32 bytes: an error for zero and for integers at or above
/// the group order, and for nothing else.
#[verifier::external_body]
fn k256_is_secret(bytes: &[u8; 32]) -> (valid: bool)
    ensures
        valid <==> 0 < encoding::be_value(bytes@) < group_order(),
{
    SecretKey::from_slice(bytes).is_ok()
}

/// `SecretKey::public_key` of `k256` and its compressed SEC 1 form, a function of the secret's
/// bytes. The form names the key it was made from.
#[verifier::external_body]
fn k256_public(secret: &[u8; 32]) -> (public: [u8; 33])
    requires
        0 < encoding::be_value(secret@) < group_order(),
    ensures
        public == k256_public_of(secret@),
        k256_point_of(public@) == Some(public),
{
    let secret = SecretKey::from_slice(secret).expect("a scalar below the group order");
    let point = secret.public_key().to_sec1_point(true);
    point.as_bytes().try_into().expect("a compressed point has 33 bytes")
}

/// `PublicKey::from_sec1_bytes` of `k256` on 33 bytes, compressed again: a function of the bytes.
/// The compressed form names the point that it was made from.
#[verifier::external_body]
fn k256_point(bytes: &[u8; 33]) -> (point: Option<[u8; 33]>)
    ensures
        point == k256_point_of(bytes@),
        point is Some ==> k256_point_of(point->Some_0@) == point,
{
    let key = PublicKey::from_sec1_bytes(bytes).ok()?;
    let point = key.to_sec1_point(true);
    Some(point.as_bytes().try_into().expect("a compressed point has 33 bytes"))
}

impl Kem for K256 {
    type SecretKey = K256Secret;

    type PublicKey = K256Public;

    open spec fn valid_sk(sk: K256Secret) -> bool {
        is_scalar(sk.bytes@)
    }

    open spec fn valid_pk(pk: K256Public) -> bool {
        k256_point_of(pk.bytes@) == Some(pk.bytes)
    }

    open spec fn wire(pk: K256Public) -> Seq<u8> {
        pk.bytes@
    }

    open spec fn wire_of(sk: K256Secret) -> Seq<u8> {
        k256_public_of(sk.bytes@)@
    }

    open spec fn named(bytes: Seq<u8>) -> Option<Seq<u8>> {
        if bytes.len() == K256_PK_LEN {
            match k256_point_of(bytes) {
                Some(point) => Some(point@),
                None => None,
            }
        } else {
            None
        }
    }

    proof fn law_wire_names_its_key(pk: K256Public) {
    }

    fn derive_pk(sk: &K256Secret) -> (pk: K256Public) {
        K256Public { bytes: k256_public(&sk.bytes) }
    }

    fn encode_pk(pk: &K256Public) -> (bytes: Vec<u8>) {
        let mut bytes: Vec<u8> = Vec::new();
        bytes.extend_from_slice(pk.bytes.as_slice());
        assert(bytes@ =~= pk.bytes@);
        bytes
    }

    fn decode_pk(bytes: &[u8]) -> (pk: Option<K256Public>) {
        if bytes.len() != K256_PK_LEN {
            return None;
        }
        let mut array: [u8; 33] = [0u8; 33];
        let mut i: usize = 0;
        while i < K256_PK_LEN
            invariant
                i <= K256_PK_LEN,
                bytes@.len() == K256_PK_LEN,
                forall|j: int| 0 <= j < i ==> array@[j] == bytes@[j],
            decreases K256_PK_LEN - i,
        {
            array[i] = bytes[i];
            i += 1;
        }
        assert(array@ =~= bytes@);
        match k256_point(&array) {
            Some(point) => Some(K256Public { bytes: point }),
            None => None,
        }
    }

    fn copy_pk(pk: &K256Public) -> (copy: K256Public) {
        K256Public { bytes: pk.bytes }
    }
}

impl KemKeyOps for K256 {
    open spec fn sk_bytes(sk: K256Secret) -> Seq<u8> {
        sk.bytes@
    }

    open spec fn names_sk(bytes: Seq<u8>) -> bool {
        is_scalar(bytes)
    }

    proof fn law_sk_codec(sk: K256Secret, other: K256Secret) {
    }

    fn generate_sk(drawn: &[u8; 32]) -> (sk: Option<K256Secret>) {
        if k256_is_secret(drawn) {
            Some(K256Secret { bytes: *drawn })
        } else {
            None
        }
    }

    fn encode_sk(sk: &K256Secret) -> (bytes: Vec<u8>) {
        let mut bytes: Vec<u8> = Vec::new();
        bytes.extend_from_slice(sk.bytes.as_slice());
        assert(bytes@ =~= sk.bytes@);
        bytes
    }

    /// Rejects other lengths, zero, and anything at or above the group order.
    fn decode_sk(bytes: &[u8]) -> (sk: Option<K256Secret>) {
        match array_of(bytes) {
            Some(bytes) => {
                if k256_is_secret(&bytes) {
                    Some(K256Secret { bytes })
                } else {
                    None
                }
            },
            None => None,
        }
    }
}

/// A secret key is the 32 bytes it was persisted to, and its public key is what those bytes
/// give. Bytes are a secret key exactly when they spell, most significant first, a number above
/// zero and below the group order; they name a public key exactly when they are 33 and name a
/// point, and then its compressed form.
pub proof fn law_k256_keys_are_their_bytes(sk: K256Secret, bytes: Seq<u8>)
    ensures
        K256::wire_of(sk) == k256_public_of(K256::sk_bytes(sk))@,
        K256::sk_bytes(sk) == sk.bytes@,
        K256::names_sk(bytes) <==> bytes.len() == 32 && 0 < encoding::be_value(bytes)
            < 0xfffffffffffffffffffffffffffffffebaaedce6af48a03bbfd25e8cd0364141nat,
        K256::named(bytes) is Some <==> bytes.len() == 33 && k256_point_of(bytes) is Some,
        K256::named(bytes) matches Some(point) ==> point == k256_point_of(bytes)->0@,
{
}

} // verus!
