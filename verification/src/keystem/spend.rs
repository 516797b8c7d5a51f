//! Spend secrets and credentials.
use std::marker::PhantomData;

use vstd::prelude::*;
use vstd::string::*;

use crate::keystem::encoding;
use crate::keystem::encoding::{
    check_canonical, sample_canonical, to_canonical_bytes, to_field, Element, PrimeField,
};
use crate::keystem::error::NonCanonical;
use crate::text;
use crate::text::Describe;

verus! {

/// Master spend secret, canonical by construction: rejection sampling or checked decode are the
/// only ways in.
pub struct SpendingKey<F: PrimeField> {
    bytes: [u8; 32],
    field: PhantomData<F>,
}

impl<F: PrimeField> SpendingKey<F> {
    #[verifier::type_invariant]
    closed spec fn inv(self) -> bool {
        encoding::canonical::<F>(self.bytes@)
    }

    /// The canonical big-endian encoding.
    pub closed spec fn encoding(&self) -> Seq<u8> {
        self.bytes@
    }

    /// Uniform key by rejection sampling over a pool of random bytes; none when no draw of the
    /// pool is canonical.
    pub fn random(pool: &[u8]) -> (key: Option<Self>)
        ensures
            match key {
                Some(key) => encoding::first_canonical::<F>(pool@, F::order_bits()) == Some(
                    key.encoding(),
                ),
                None => encoding::first_canonical::<F>(pool@, F::order_bits()) is None,
            },
    {
        match sample_canonical::<F>(pool) {
            Some(bytes) => Some(Self::from_canonical(bytes)),
            None => None,
        }
    }

    /// Total decode.
    pub fn from_canonical_bytes(bytes: [u8; 32]) -> (key: Result<Self, NonCanonical>)
        ensures
            key is Ok <==> encoding::canonical::<F>(bytes@),
            key is Ok <==> encoding::be_value(bytes@) < F::order(),
            key is Ok ==> key->Ok_0.encoding() == bytes@,
    {
        match check_canonical::<F>(&bytes) {
            Ok(_) => Ok(Self::from_canonical(bytes)),
            Err(error) => Err(error),
        }
    }

    /// Infallible reveal.
    pub fn scalar(&self) -> (scalar: SecretScalar<F>)
        ensures
            scalar.encoding() == self.encoding(),
    {
        proof {
            use_type_invariant(self);
        }
        SecretScalar { bytes: self.bytes, field: PhantomData }
    }

    /// Wraps bytes that are already known to be canonical.
    fn from_canonical(bytes: [u8; 32]) -> (key: Self)
        requires
            encoding::canonical::<F>(bytes@),
        ensures
            key.encoding() == bytes@,
    {
        SpendingKey { bytes, field: PhantomData }
    }
}

impl<F: PrimeField> Describe for SpendingKey<F> {
    open spec fn text(&self) -> Seq<char> {
        "SpendingKey(REDACTED)"@
    }

    fn describe(&self) -> (text: String) {
        String::from_str("SpendingKey(REDACTED)")
    }
}

/// Public spend credential, the value note commitments carry.
#[derive(Debug, PartialEq, Eq, Hash)]
pub struct OwnerPubkey<F: PrimeField> {
    bytes: [u8; 32],
    field: PhantomData<F>,
}

impl<F: PrimeField> Copy for OwnerPubkey<F> {

}

impl<F: PrimeField> Clone for OwnerPubkey<F> {
    fn clone(&self) -> (copy: Self)
        ensures
            copy == *self,
    {
        *self
    }
}

impl<F: PrimeField> OwnerPubkey<F> {
    #[verifier::type_invariant]
    closed spec fn inv(self) -> bool {
        encoding::canonical::<F>(self.bytes@)
    }

    /// The canonical big-endian encoding.
    pub closed spec fn encoding(&self) -> Seq<u8> {
        self.bytes@
    }

    /// Total decode, the counterparty-import path. Rejects bytes at or above the modulus.
    pub fn from_canonical_bytes(bytes: [u8; 32]) -> (key: Result<Self, NonCanonical>)
        ensures
            key is Ok <==> encoding::canonical::<F>(bytes@),
            key is Ok <==> encoding::be_value(bytes@) < F::order(),
            key is Ok ==> key->Ok_0.encoding() == bytes@,
    {
        match check_canonical::<F>(&bytes) {
            Ok(_) => Ok(OwnerPubkey { bytes, field: PhantomData }),
            Err(error) => Err(error),
        }
    }

    /// Credential of a field element that was derived elsewhere.
    pub fn from_field(value: Element<F>) -> (key: Self)
        ensures
            encoding::be_value(key.encoding()) == value.value(),
            encoding::canonical::<F>(key.encoding()),
    {
        let limbs = value.into_bigint();
        OwnerPubkey { bytes: to_canonical_bytes(&limbs), field: PhantomData }
    }

    /// The canonical big-endian encoding.
    pub fn to_bytes(&self) -> (bytes: [u8; 32])
        ensures
            bytes@ == self.encoding(),
            encoding::canonical::<F>(bytes@),
    {
        proof {
            use_type_invariant(self);
        }
        self.bytes
    }

    /// The credential as a field element.
    pub fn to_field(&self) -> (element: Element<F>)
        ensures
            element.value() == encoding::be_value(self.encoding()),
    {
        proof {
            use_type_invariant(self);
        }
        to_field::<F>(&self.bytes)
    }
}

impl<F: PrimeField> Describe for OwnerPubkey<F> {
    open spec fn text(&self) -> Seq<char> {
        "OwnerPubkey("@ + text::hex_bytes(self.encoding()) + ")"@
    }

    fn describe(&self) -> (text: String) {
        let mut out = String::from_str("OwnerPubkey(");
        text::push_hex_bytes(&mut out, self.bytes.as_slice());
        out.append(")");
        out
    }
}

/// One revealed scalar with one owner, canonical.
pub struct SecretScalar<F: PrimeField> {
    bytes: [u8; 32],
    field: PhantomData<F>,
}

impl<F: PrimeField> SecretScalar<F> {
    #[verifier::type_invariant]
    closed spec fn inv(self) -> bool {
        encoding::canonical::<F>(self.bytes@)
    }

    /// The canonical big-endian encoding.
    pub closed spec fn encoding(&self) -> Seq<u8> {
        self.bytes@
    }

    /// Total decode.
    pub fn from_canonical_bytes(bytes: [u8; 32]) -> (scalar: Result<Self, NonCanonical>)
        ensures
            scalar is Ok <==> encoding::canonical::<F>(bytes@),
            scalar is Ok <==> encoding::be_value(bytes@) < F::order(),
            scalar is Ok ==> scalar->Ok_0.encoding() == bytes@,
    {
        match check_canonical::<F>(&bytes) {
            Ok(_) => Ok(SecretScalar { bytes, field: PhantomData }),
            Err(error) => Err(error),
        }
    }

    /// The canonical big-endian encoding of the revealed scalar.
    pub fn expose_bytes(&self) -> (bytes: &[u8; 32])
        ensures
            bytes@ == self.encoding(),
            encoding::canonical::<F>(bytes@),
    {
        proof {
            use_type_invariant(self);
        }
        &self.bytes
    }

    /// The revealed scalar as a field element.
    pub fn expose_field(&self) -> (element: Element<F>)
        ensures
            element.value() == encoding::be_value(self.encoding()),
    {
        proof {
            use_type_invariant(self);
        }
        to_field::<F>(&self.bytes)
    }
}

impl<F: PrimeField> Describe for SecretScalar<F> {
    open spec fn text(&self) -> Seq<char> {
        "SecretScalar(REDACTED)"@
    }

    fn describe(&self) -> (text: String) {
        String::from_str("SecretScalar(REDACTED)")
    }
}

} // verus!
