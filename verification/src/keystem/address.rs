//! Published addresses.
use vstd::prelude::*;
use vstd::string::*;

use crate::keystem::encoding;
use crate::keystem::encoding::{PrimeField, KEY_LEN};
use crate::keystem::error::InvalidAddress;
use crate::keystem::kem::Kem;
use crate::keystem::spend::OwnerPubkey;
use crate::keystem::viewing::{same_bytes, ViewingPubkey};
use crate::text::Describe;

verus! {

/// The two credentials a wallet publishes, as one value.
///
/// Substituting either half gives a different address, so there is one value to authenticate
/// instead of two. An address does not certify itself: where it came from is an out-of-band
/// question.
pub struct Address<F: PrimeField, K: Kem, Fam> {
    owner: OwnerPubkey<F>,
    viewing: ViewingPubkey<K, Fam>,
}

/// The wire encoding that bytes of an address stand for, if they are an address: a canonical owner
/// encoding, then bytes that name a viewing key.
pub open spec fn address_named<F: PrimeField, K: Kem>(bytes: Seq<u8>) -> Option<Seq<u8>> {
    if bytes.len() >= KEY_LEN && encoding::canonical::<F>(bytes.take(32)) {
        match K::named(bytes.skip(32)) {
            Some(viewing) => Some(bytes.take(32) + viewing),
            None => None,
        }
    } else {
        None
    }
}

impl<F: PrimeField, K: Kem, Fam> Address<F, K, Fam> {
    /// Encoding of the owner half.
    pub closed spec fn owner_encoding(&self) -> Seq<u8> {
        self.owner.encoding()
    }

    /// Encoding of the viewing half.
    pub closed spec fn viewing_wire(&self) -> Seq<u8> {
        self.viewing.wire()
    }

    /// The wire encoding: the owner pubkey, then the viewing pubkey.
    pub open spec fn wire(&self) -> Seq<u8> {
        self.owner_encoding() + self.viewing_wire()
    }

    /// Pairs the credentials of one wallet.
    pub fn new(owner: OwnerPubkey<F>, viewing: ViewingPubkey<K, Fam>) -> (address: Self)
        ensures
            address.owner_encoding() == owner.encoding(),
            address.viewing_wire() == viewing.wire(),
    {
        Address { owner, viewing }
    }

    /// The public spend credential note commitments carry.
    pub fn owner_pubkey(&self) -> (owner: OwnerPubkey<F>)
        ensures
            owner.encoding() == self.owner_encoding(),
    {
        self.owner
    }

    /// The read credential for this disclosure channel.
    pub fn viewing_pubkey(&self) -> (viewing: &ViewingPubkey<K, Fam>)
        ensures
            viewing.wire() == self.viewing_wire(),
    {
        &self.viewing
    }

    /// The wire encoding, which is an address again.
    pub fn to_bytes(&self) -> (bytes: Vec<u8>)
        ensures
            bytes@ == self.wire(),
            self.owner_encoding().len() == KEY_LEN,
            address_named::<F, K>(bytes@) == Some(bytes@),
    {
        let owner = self.owner.to_bytes();
        let viewing = self.viewing.to_bytes();
        let mut bytes: Vec<u8> = Vec::new();
        bytes.extend_from_slice(owner.as_slice());
        bytes.extend_from_slice(viewing.as_slice());
        proof {
            assert(bytes@ =~= self.wire());
            assert(bytes@.take(32) =~= owner@);
            assert(bytes@.skip(32) =~= viewing@);
        }
        bytes
    }

    /// Total decode. Both halves are checked by the type that owns them.
    pub fn from_bytes(bytes: &[u8]) -> (address: Result<Self, InvalidAddress>)
        ensures
            match address {
                Ok(address) => address_named::<F, K>(bytes@) == Some(address.wire())
                    && address.owner_encoding() == bytes@.take(32),
                Err(error) => address_named::<F, K>(bytes@) is None && error == InvalidAddress,
            },
            address is Ok <==> bytes@.len() >= 32 && encoding::be_value(bytes@.take(32))
                < F::order() && K::named(bytes@.skip(32)) is Some,
            address matches Ok(address) ==> K::named(bytes@.skip(32)) == Some(
                address.viewing_wire(),
            ),
    {
        if bytes.len() < KEY_LEN {
            return Err(InvalidAddress);
        }
        let mut head: [u8; 32] = [0u8; 32];
        let mut i: usize = 0;
        while i < KEY_LEN
            invariant
                i <= KEY_LEN <= bytes@.len(),
                forall|j: int| 0 <= j < i ==> head@[j] == bytes@[j],
            decreases KEY_LEN - i,
        {
            head[i] = bytes[i];
            i += 1;
        }
        assert(head@ =~= bytes@.take(32));
        let rest = vstd::slice::slice_subrange(bytes, KEY_LEN, bytes.len());
        assert(rest@ =~= bytes@.skip(32));
        let owner = match OwnerPubkey::<F>::from_canonical_bytes(head) {
            Ok(owner) => owner,
            Err(_) => {
                return Err(InvalidAddress);
            },
        };
        let viewing = match ViewingPubkey::<K, Fam>::from_bytes(rest) {
            Ok(viewing) => viewing,
            Err(_) => {
                return Err(InvalidAddress);
            },
        };
        Ok(Self::new(owner, viewing))
    }

    /// Whether two addresses have the same halves.
    pub fn same_as(&self, other: &Self) -> (same: bool)
        ensures
            same <==> self.owner_encoding() == other.owner_encoding() && self.viewing_wire()
                == other.viewing_wire(),
    {
        let ours = self.owner.to_bytes();
        let theirs = other.owner.to_bytes();
        same_bytes(ours.as_slice(), theirs.as_slice()) && self.viewing.same_as(&other.viewing)
    }
}

impl<F: PrimeField, K: Kem, Fam> Clone for Address<F, K, Fam> {
    fn clone(&self) -> (copy: Self)
        ensures
            copy.wire() == self.wire(),
            copy.owner_encoding() == self.owner_encoding(),
    {
        Self::new(self.owner, self.viewing.clone())
    }
}

impl<F: PrimeField, K: Kem, Fam> Describe for Address<F, K, Fam> {
    closed spec fn text(&self) -> Seq<char> {
        "Address { owner: "@ + self.owner.text() + ", viewing: "@ + self.viewing.text() + " }"@
    }

    fn describe(&self) -> (text: String) {
        let mut out = String::from_str("Address { owner: ");
        out.append(self.owner.describe().as_str());
        out.append(", viewing: ");
        out.append(self.viewing.describe().as_str());
        out.append(" }");
        out
    }
}

/// Substituting either half of an address gives another wire encoding.
pub proof fn law_substitution_changes_the_address(
    owner: Seq<u8>,
    viewing: Seq<u8>,
    other_owner: Seq<u8>,
    other_viewing: Seq<u8>,
)
    requires
        owner.len() == KEY_LEN,
        other_owner.len() == KEY_LEN,
        owner != other_owner || viewing != other_viewing,
    ensures
        owner + viewing != other_owner + other_viewing,
{
    if owner + viewing == other_owner + other_viewing {
        assert(owner =~= (owner + viewing).take(32));
        assert(other_owner =~= (other_owner + other_viewing).take(32));
        assert(viewing =~= (owner + viewing).skip(32));
        assert(other_viewing =~= (other_owner + other_viewing).skip(32));
    }
}

} // verus!
