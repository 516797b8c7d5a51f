//! Custody of spend secrets.
use vstd::prelude::*;

use crate::keystem::encoding::PrimeField;
use crate::keystem::error::NotExportable;
use crate::keystem::spend::{OwnerPubkey, SecretScalar};

verus! {

/// Custody boundary: operations out, key material stays put.
///
/// The in-memory `SpendingKey` is one implementation; hardware and enclave-resident keys are the
/// others, so consumers never name the storage.
pub trait SpendAuthority {
    /// Field of the keys.
    type Field: PrimeField;

    /// Failure of the custody.
    type Error;

    /// What the custody may answer when asked for its credential.
    spec fn may_answer_pubkey(
        &self,
        answer: Result<OwnerPubkey<Self::Field>, Self::Error>,
    ) -> bool;

    /// What the custody may answer when asked for its scalar.
    spec fn may_answer_scalar(
        &self,
        answer: Result<SecretScalar<Self::Field>, Self::Error>,
    ) -> bool;

    /// The public spend credential, which may be computed, cached or queried.
    fn owner_pubkey(&self) -> (answer: Result<OwnerPubkey<Self::Field>, Self::Error>)
        ensures
            self.may_answer_pubkey(answer),
    ;

    /// The one scalar egress, for circuits that take the spending key as a private witness.
    /// Custody that does not export refuses here.
    fn scalar(&self) -> (answer: Result<SecretScalar<Self::Field>, Self::Error>)
        ensures
            self.may_answer_scalar(answer),
    ;
}

impl<A: SpendAuthority> SpendAuthority for &A {
    type Field = A::Field;

    type Error = A::Error;

    open spec fn may_answer_pubkey(
        &self,
        answer: Result<OwnerPubkey<Self::Field>, Self::Error>,
    ) -> bool {
        (**self).may_answer_pubkey(answer)
    }

    open spec fn may_answer_scalar(
        &self,
        answer: Result<SecretScalar<Self::Field>, Self::Error>,
    ) -> bool {
        (**self).may_answer_scalar(answer)
    }

    fn owner_pubkey(&self) -> (answer: Result<OwnerPubkey<Self::Field>, Self::Error>) {
        (**self).owner_pubkey()
    }

    fn scalar(&self) -> (answer: Result<SecretScalar<Self::Field>, Self::Error>) {
        (**self).scalar()
    }
}

/// Custody that enrolls a credential and refuses every reveal.
pub struct SealedCustody<F: PrimeField> {
    /// The enrolled credential.
    pub owner_pubkey: OwnerPubkey<F>,
}

impl<F: PrimeField> SealedCustody<F> {
    /// Enrolls a credential whose scalar will never be released.
    pub fn enrolled(owner_pubkey: OwnerPubkey<F>) -> (custody: Self)
        ensures
            custody.owner_pubkey == owner_pubkey,
    {
        SealedCustody { owner_pubkey }
    }
}

impl<F: PrimeField> SpendAuthority for SealedCustody<F> {
    type Field = F;

    type Error = NotExportable;

    open spec fn may_answer_pubkey(
        &self,
        answer: Result<OwnerPubkey<Self::Field>, Self::Error>,
    ) -> bool {
        answer == Ok::<OwnerPubkey<F>, NotExportable>(self.owner_pubkey)
    }

    open spec fn may_answer_scalar(
        &self,
        answer: Result<SecretScalar<Self::Field>, Self::Error>,
    ) -> bool {
        answer is Err
    }

    fn owner_pubkey(&self) -> (answer: Result<OwnerPubkey<F>, NotExportable>) {
        Ok(self.owner_pubkey)
    }

    fn scalar(&self) -> (answer: Result<SecretScalar<F>, NotExportable>) {
        Err(NotExportable)
    }
}

} // verus!
