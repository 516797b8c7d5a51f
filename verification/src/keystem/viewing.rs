//! Viewing keys, one type per disclosure channel.
use std::marker::PhantomData;

use vstd::prelude::*;
use vstd::string::*;

use crate::keystem::error::InvalidKey;
use crate::keystem::kem::{Kem, KemKeyOps, Recipient};
use crate::text;
use crate::text::Describe;

verus! {

/// Viewing keypair in disclosure family `F`.
pub struct ViewingKey<K: Kem, F> {
    recipient: Recipient<K>,
    family: PhantomData<F>,
}

impl<K: Kem, F> ViewingKey<K, F> {
    /// The recipient's keys belong together.
    #[verifier::type_invariant]
    closed spec fn inv(self) -> bool {
        self.recipient.wf()
    }

    /// The secret key.
    pub closed spec fn secret(&self) -> K::SecretKey {
        self.recipient.secret()
    }

    /// Viewing key of any recipient. Hardware enters here with a mechanism whose secret key is a
    /// device handle.
    pub fn from_recipient(recipient: Recipient<K>) -> (key: Self)
        requires
            recipient.wf(),
        ensures
            key.secret() == recipient.secret(),
    {
        ViewingKey { recipient, family: PhantomData }
    }

    /// The recipient that opens what is sealed to this key.
    pub fn recipient(&self) -> (recipient: &Recipient<K>)
        ensures
            recipient.wf(),
            recipient.secret() == self.secret(),
    {
        proof {
            use_type_invariant(self);
        }
        &self.recipient
    }

    /// The distributable read credential for this channel.
    pub fn derive_pubkey(&self) -> (key: ViewingPubkey<K, F>)
        ensures
            key.wire() == K::wire_of(self.secret()),
    {
        proof {
            use_type_invariant(self);
        }
        let public_key = self.recipient.public_key();
        ViewingPubkey { public_key: K::copy_pk(public_key), family: PhantomData }
    }
}

impl<K: KemKeyOps, F> ViewingKey<K, F> {
    /// Keypair of drawn bytes; none when the draw has to be repeated.
    pub fn random(drawn: &[u8; 32]) -> (key: Option<Self>)
        ensures
            match key {
                Some(key) => K::names_sk(drawn@) && K::sk_bytes(key.secret()) == drawn@,
                None => !K::names_sk(drawn@),
            },
    {
        match K::generate_sk(drawn) {
            Some(secret_key) => Some(Self::from_recipient(Recipient::new(secret_key))),
            None => None,
        }
    }

    /// Total decode of a persisted secret key.
    pub fn from_sk_bytes(bytes: &[u8]) -> (key: Result<Self, InvalidKey>)
        ensures
            match key {
                Ok(key) => K::names_sk(bytes@) && K::sk_bytes(key.secret()) == bytes@,
                Err(error) => !K::names_sk(bytes@) && error == InvalidKey,
            },
    {
        match K::decode_sk(bytes) {
            Some(secret_key) => Ok(Self::from_recipient(Recipient::new(secret_key))),
            None => Err(InvalidKey),
        }
    }

    /// Persistence egress.
    pub fn to_sk_bytes(&self) -> (bytes: Vec<u8>)
        ensures
            bytes@ == K::sk_bytes(self.secret()),
            K::names_sk(bytes@),
    {
        proof {
            use_type_invariant(self);
        }
        let secret_key = self.recipient.secret_key();
        proof {
            K::law_sk_codec(*secret_key, *secret_key);
        }
        K::encode_sk(secret_key)
    }
}

impl<K: Kem, F> Describe for ViewingKey<K, F> {
    open spec fn text(&self) -> Seq<char> {
        "ViewingKey(REDACTED)"@
    }

    fn describe(&self) -> (text: String) {
        String::from_str("ViewingKey(REDACTED)")
    }
}

/// Distributable read credential in family `F`.
pub struct ViewingPubkey<K: Kem, F> {
    public_key: K::PublicKey,
    family: PhantomData<F>,
}

impl<K: Kem, F> ViewingPubkey<K, F> {
    /// The public key is one of the mechanism's.
    #[verifier::type_invariant]
    closed spec fn inv(self) -> bool {
        K::valid_pk(self.public_key)
    }

    /// The wire encoding.
    pub closed spec fn wire(&self) -> Seq<u8> {
        K::wire(self.public_key)
    }

    /// The key to seal to.
    pub fn public_key(&self) -> (key: &K::PublicKey)
        ensures
            K::valid_pk(*key),
            K::wire(*key) == self.wire(),
    {
        proof {
            use_type_invariant(self);
        }
        &self.public_key
    }

    /// The wire encoding, which names the key.
    pub fn to_bytes(&self) -> (bytes: Vec<u8>)
        ensures
            bytes@ == self.wire(),
            K::named(bytes@) == Some(bytes@),
    {
        proof {
            use_type_invariant(self);
            K::law_wire_names_its_key(self.public_key);
        }
        K::encode_pk(&self.public_key)
    }

    /// Counterparty import, the sender-side decode.
    pub fn from_bytes(bytes: &[u8]) -> (key: Result<Self, InvalidKey>)
        ensures
            match key {
                Ok(key) => K::named(bytes@) == Some(key.wire()),
                Err(error) => K::named(bytes@) is None && error == InvalidKey,
            },
    {
        match K::decode_pk(bytes) {
            Some(public_key) => Ok(ViewingPubkey { public_key, family: PhantomData }),
            None => Err(InvalidKey),
        }
    }

    /// Whether two credentials have one wire encoding.
    pub fn same_as(&self, other: &Self) -> (same: bool)
        ensures
            same <==> self.wire() == other.wire(),
    {
        let ours = self.to_bytes();
        let theirs = other.to_bytes();
        same_bytes(ours.as_slice(), theirs.as_slice())
    }
}

/// Whether two byte strings are equal.
pub(crate) fn same_bytes(a: &[u8], b: &[u8]) -> (same: bool)
    ensures
        same <==> a@ == b@,
{
    if a.len() != b.len() {
        return false;
    }
    let mut i: usize = 0;
    while i < a.len()
        invariant
            i <= a@.len(),
            a@.len() == b@.len(),
            forall|j: int| 0 <= j < i ==> a@[j] == b@[j],
        decreases a@.len() - i,
    {
        if a[i] != b[i] {
            return false;
        }
        i += 1;
    }
    assert(a@ =~= b@);
    true
}

impl<K: Kem, F> Clone for ViewingPubkey<K, F> {
    fn clone(&self) -> (copy: Self)
        ensures
            copy.wire() == self.wire(),
    {
        proof {
            use_type_invariant(self);
        }
        ViewingPubkey { public_key: K::copy_pk(&self.public_key), family: PhantomData }
    }
}

impl<K: Kem, F> Describe for ViewingPubkey<K, F> {
    open spec fn text(&self) -> Seq<char> {
        "ViewingPubkey("@ + text::hex_bytes(self.wire()) + ")"@
    }

    fn describe(&self) -> (text: String) {
        let mut out = String::from_str("ViewingPubkey(");
        let bytes = self.to_bytes();
        text::push_hex_bytes(&mut out, bytes.as_slice());
        out.append(")");
        out
    }
}

/// Viewing keys that were persisted to the same bytes give the same read credential, in whatever
/// channel.
pub proof fn law_sk_bytes_determine_pubkey<K: KemKeyOps>(sk: K::SecretKey, other: K::SecretKey)
    requires
        K::valid_sk(sk),
        K::valid_sk(other),
        K::sk_bytes(sk) == K::sk_bytes(other),
    ensures
        K::wire_of(sk) == K::wire_of(other),
{
    K::law_sk_codec(sk, other);
}

} // verus!
