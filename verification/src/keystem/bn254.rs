//! Keys over the scalar field of BN254.
use ark_bn254::Fr;
use ark_ff::{BigInt, PrimeField as ArkField};
use light_poseidon::{Poseidon, PoseidonHasher};
use vstd::prelude::*;

use crate::keystem::authority::SpendAuthority;
use crate::keystem::encoding;
use crate::keystem::encoding::{Element, Limbs, PrimeField};
use crate::keystem::spend;

verus! {

/// BN254's scalar field.
#[derive(Clone, Copy, Debug, PartialEq, Eq, Hash)]
pub struct Bn254;

/// Master spend secret over BN254's scalar field.
pub type SpendingKey = spend::SpendingKey<Bn254>;

/// Public spend credential over BN254's scalar field.
pub type OwnerPubkey = spend::OwnerPubkey<Bn254>;

/// One revealed BN254 scalar.
pub type SecretScalar = spend::SecretScalar<Bn254>;

/// `Fr::MODULUS` of `ark-bn254`, as limbs.
#[verifier::external_body]
fn fr_modulus() -> (limbs: Limbs)
    ensures
        limbs@ == seq![
            0x43e1f593f0000001u64,
            0x2833e84879b97091u64,
            0xb85045b68181585du64,
            0x30644e72e131a029u64,
        ],
{
    Fr::MODULUS.0
}

/// `Fr::MODULUS_BIT_SIZE` of `ark-bn254`.
#[verifier::external_body]
fn fr_modulus_bits() -> (bits: usize)
    ensures
        bits == 254,
{
    Fr::MODULUS_BIT_SIZE as usize
}

impl PrimeField for Bn254 {
    open spec fn order() -> nat {
        0x30644e72e131a029b85045b68181585d2833e84879b9709143e1f593f0000001nat
    }

    open spec fn order_bits() -> nat {
        254
    }

    fn modulus() -> (limbs: Limbs) {
        fr_modulus()
    }

    fn modulus_bits() -> (bits: usize) {
        proof {
            lemma_order_bits();
        }
        fr_modulus_bits()
    }
}

/// The modulus has 254 bits.
proof fn lemma_order_bits()
    ensures
        encoding::bits_fit(Bn254::order(), 254),
{
    vstd::arithmetic::power2::lemma2_to64();
    vstd::arithmetic::power2::lemma2_to64_rest();
    vstd::arithmetic::power2::lemma_pow2_adds(64, 64);
    vstd::arithmetic::power2::lemma_pow2_adds(128, 64);
    vstd::arithmetic::power2::lemma_pow2_adds(192, 61);
    vstd::arithmetic::power2::lemma_pow2_adds(192, 62);
    let word = vstd::arithmetic::power2::pow2(64);
    let double = vstd::arithmetic::power2::pow2(128);
    let triple = vstd::arithmetic::power2::pow2(192);
    assert(double == 0x1_0000_0000_0000_0000_0000_0000_0000_0000nat) by (nonlinear_arith)
        requires
            double == word * word,
            word == 0x1_0000_0000_0000_0000,
    ;
    assert(triple == 0x1_0000_0000_0000_0000_0000_0000_0000_0000_0000_0000_0000_0000nat)
        by (nonlinear_arith)
        requires
            triple == double * word,
            word == 0x1_0000_0000_0000_0000,
            double == 0x1_0000_0000_0000_0000_0000_0000_0000_0000nat,
    ;
    let low = vstd::arithmetic::power2::pow2(61);
    let high = vstd::arithmetic::power2::pow2(62);
    let order = Bn254::order();
    assert(triple * low <= order < triple * high) by (nonlinear_arith)
        requires
            triple == 0x1_0000_0000_0000_0000_0000_0000_0000_0000_0000_0000_0000_0000nat,
            low == 0x2000_0000_0000_0000,
            high == 0x4000_0000_0000_0000,
            order == 0x30644e72e131a029b85045b68181585d2833e84879b9709143e1f593f0000001nat,
    ;
}

/// Poseidon hash of one field element, both as integers below the modulus.
pub uninterp spec fn poseidon_of(value: nat) -> nat;

/// `Poseidon::new_circom(1)` of `light-poseidon` and its `hash` of one element, which is taken in
/// by `Fr::from_bigint` and given out by `Fr::into_bigint`. The hash is a function of the element,
/// and what comes out is below the modulus, as every element's integer is.
#[verifier::external_body]
fn poseidon(limbs: Limbs) -> (image: Limbs)
    requires
        encoding::limbs_value(limbs) < Bn254::order(),
    ensures
        encoding::limbs_value(image) == poseidon_of(encoding::limbs_value(limbs)),
        encoding::limbs_value(image) < Bn254::order(),
{
    let value = Fr::from_bigint(BigInt::new(limbs)).expect("an integer below the modulus");
    let mut hasher = Poseidon::<Fr>::new_circom(1).expect("a width inside the parameter range");
    let image = hasher.hash(&[value]).expect("as many inputs as the hasher takes");
    image.into_bigint().0
}

impl SpendingKey {
    /// The credential of the key: the Poseidon hash of its scalar.
    pub fn derive_owner_pubkey(&self) -> (key: OwnerPubkey)
        ensures
            encoding::be_value(key.encoding()) == poseidon_of(encoding::be_value(self.encoding())),
            encoding::canonical::<Bn254>(key.encoding()),
    {
        let scalar = self.scalar().expose_field();
        let image = poseidon(scalar.into_bigint());
        match Element::<Bn254>::from_bigint(image) {
            Some(element) => OwnerPubkey::from_field(element),
            None => {
                assert(false);
                OwnerPubkey::from_field(scalar)
            },
        }
    }
}

impl SpendAuthority for SpendingKey {
    type Field = Bn254;

    type Error = std::convert::Infallible;

    open spec fn may_answer_pubkey(
        &self,
        answer: Result<OwnerPubkey, std::convert::Infallible>,
    ) -> bool {
        &&& answer is Ok
        &&& encoding::be_value(answer->Ok_0.encoding()) == poseidon_of(
            encoding::be_value(self.encoding()),
        )
    }

    open spec fn may_answer_scalar(
        &self,
        answer: Result<SecretScalar, std::convert::Infallible>,
    ) -> bool {
        &&& answer is Ok
        &&& answer->Ok_0.encoding() == self.encoding()
    }

    fn owner_pubkey(&self) -> (answer: Result<OwnerPubkey, std::convert::Infallible>) {
        Ok(self.derive_owner_pubkey())
    }

    fn scalar(&self) -> (answer: Result<SecretScalar, std::convert::Infallible>) {
        Ok(spend::SpendingKey::scalar(self))
    }
}

} // verus!
