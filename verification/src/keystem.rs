//! Spend and viewing keys over any prime field and any key encapsulation.
pub mod address;
pub mod authority;
pub mod bn254;
pub mod encoding;
pub mod error;
pub mod family;
pub mod k256;
pub mod kem;
pub mod spend;
pub mod viewing;
pub mod x25519;
