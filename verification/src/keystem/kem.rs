//! Key encapsulation: how a disclosure channel's keys are made and written down.
use vstd::prelude::*;

verus! {

/// A key encapsulation mechanism. The secret key of a hardware mechanism may be a device handle.
pub trait Kem: Sized {
    /// Secret key, or what stands for it.
    type SecretKey;

    /// Public key.
    type PublicKey;

    /// Whether a secret key is one of the mechanism's.
    spec fn valid_sk(sk: Self::SecretKey) -> bool;

    /// Whether a public key is one of the mechanism's.
    spec fn valid_pk(pk: Self::PublicKey) -> bool;

    /// Wire encoding of a public key.
    spec fn wire(pk: Self::PublicKey) -> Seq<u8>;

    /// Wire encoding of the public key of a secret key.
    spec fn wire_of(sk: Self::SecretKey) -> Seq<u8>;

    /// Wire encoding of the public key that bytes name, if they name one.
    spec fn named(bytes: Seq<u8>) -> Option<Seq<u8>>;

    /// A public key's own encoding names it.
    proof fn law_wire_names_its_key(pk: Self::PublicKey)
        requires
            Self::valid_pk(pk),
        ensures
            Self::named(Self::wire(pk)) == Some(Self::wire(pk)),
    ;

    /// Public key of a secret key.
    fn derive_pk(sk: &Self::SecretKey) -> (pk: Self::PublicKey)
        requires
            Self::valid_sk(*sk),
        ensures
            Self::valid_pk(pk),
            Self::wire(pk) == Self::wire_of(*sk),
    ;

    /// Wire encoding of a public key.
    fn encode_pk(pk: &Self::PublicKey) -> (bytes: Vec<u8>)
        requires
            Self::valid_pk(*pk),
        ensures
            bytes@ == Self::wire(*pk),
    ;

    /// Public key that bytes name, if they name one.
    fn decode_pk(bytes: &[u8]) -> (pk: Option<Self::PublicKey>)
        ensures
            match pk {
                Some(pk) => Self::valid_pk(pk) && Self::named(bytes@) == Some(Self::wire(pk)),
                None => Self::named(bytes@) is None,
            },
    ;

    /// Copy of a public key.
    fn copy_pk(pk: &Self::PublicKey) -> (copy: Self::PublicKey)
        requires
            Self::valid_pk(*pk),
        ensures
            copy == *pk,
    ;
}

/// Software-resident secret keys: generation and byte codecs.
///
/// A hardware mechanism implements [`Kem`] alone.
pub trait KemKeyOps: Kem {
    /// Encoding of a secret key.
    spec fn sk_bytes(sk: Self::SecretKey) -> Seq<u8>;

    /// Whether bytes are the encoding of a secret key.
    spec fn names_sk(bytes: Seq<u8>) -> bool;

    /// A secret key's own encoding names one, and keys with one encoding have one public key.
    proof fn law_sk_codec(sk: Self::SecretKey, other: Self::SecretKey)
        requires
            Self::valid_sk(sk),
            Self::valid_sk(other),
        ensures
            Self::names_sk(Self::sk_bytes(sk)),
            Self::sk_bytes(sk) == Self::sk_bytes(other) ==> Self::wire_of(sk) == Self::wire_of(
                other,
            ),
    ;

    /// Secret key of drawn bytes; none when the draw has to be repeated.
    fn generate_sk(drawn: &[u8; 32]) -> (sk: Option<Self::SecretKey>)
        ensures
            match sk {
                Some(sk) => Self::valid_sk(sk) && Self::names_sk(drawn@) && Self::sk_bytes(sk)
                    == drawn@,
                None => !Self::names_sk(drawn@),
            },
    ;

    /// Encodes a secret key for persistence.
    fn encode_sk(sk: &Self::SecretKey) -> (bytes: Vec<u8>)
        requires
            Self::valid_sk(*sk),
        ensures
            bytes@ == Self::sk_bytes(*sk),
    ;

    /// Decodes an encoding that [`KemKeyOps::encode_sk`] produced.
    fn decode_sk(bytes: &[u8]) -> (sk: Option<Self::SecretKey>)
        ensures
            match sk {
                Some(sk) => Self::valid_sk(sk) && Self::names_sk(bytes@) && Self::sk_bytes(sk)
                    == bytes@,
                None => !Self::names_sk(bytes@),
            },
    ;
}

/// A secret key with its public key.
pub struct Recipient<K: Kem> {
    secret_key: K::SecretKey,
    public_key: K::PublicKey,
}

impl<K: Kem> Recipient<K> {
    /// The public key is the one of the secret key.
    pub closed spec fn wf(&self) -> bool {
        &&& K::valid_sk(self.secret_key)
        &&& K::valid_pk(self.public_key)
        &&& K::wire(self.public_key) == K::wire_of(self.secret_key)
    }

    /// The secret key.
    pub closed spec fn secret(&self) -> K::SecretKey {
        self.secret_key
    }

    /// Wire encoding of the public key.
    pub closed spec fn wire(&self) -> Seq<u8> {
        K::wire(self.public_key)
    }

    /// Recipient of a secret key.
    pub fn new(secret_key: K::SecretKey) -> (recipient: Self)
        requires
            K::valid_sk(secret_key),
        ensures
            recipient.wf(),
            recipient.secret() == secret_key,
            recipient.wire() == K::wire_of(secret_key),
    {
        let public_key = K::derive_pk(&secret_key);
        Recipient { secret_key, public_key }
    }

    /// The public key.
    pub fn public_key(&self) -> (key: &K::PublicKey)
        requires
            self.wf(),
        ensures
            K::valid_pk(*key),
            K::wire(*key) == self.wire(),
            K::wire(*key) == K::wire_of(self.secret()),
    {
        &self.public_key
    }

    /// The secret key.
    pub fn secret_key(&self) -> (key: &K::SecretKey)
        requires
            self.wf(),
        ensures
            *key == self.secret(),
            K::valid_sk(*key),
    {
        &self.secret_key
    }
}

} // verus!
