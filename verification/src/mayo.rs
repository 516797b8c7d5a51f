//! Commitments and public inputs for proofs of MAYO-2 signatures.
pub mod api;
pub mod gf16;
pub mod lanes;
pub mod laws;
pub mod map_laws;
pub mod params;
pub mod statement;
pub mod verify;
