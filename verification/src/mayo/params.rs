//! Sizes of the MAYO-2 parameter set.
use vstd::prelude::*;

verus! {

/// Variables of the public map.
pub const N: usize = 81;

/// Equations of the public map.
pub const M: usize = 64;

/// Oil variables.
pub const O: usize = 17;

/// Vinegar variables.
pub const V: usize = 64;

/// Blocks of a signature.
pub const K: usize = 4;

/// Bytes of a signature's salt.
pub const SALT_BYTES: usize = 24;

/// Bytes of a message digest.
pub const DIGEST_BYTES: usize = 32;

/// Bytes that hold one nibble per equation.
pub const M_VEC_BYTES: usize = 32;

/// Bytes of the seed at the head of a compact public key.
pub const PK_SEED_BYTES: usize = 16;

/// Bytes of a signature: packed blocks, then the salt.
pub const SIG_BYTES: usize = 186;

/// Entries of the upper triangle over the vinegar variables.
pub const P1_ENTRIES: usize = 2080;

/// Entries of the rectangle of vinegar and oil variables.
pub const P2_ENTRIES: usize = 1088;

/// Entries of the upper triangle over the oil variables.
pub const P3_ENTRIES: usize = 153;

/// Bytes of a compact public key: the seed, then the packed third block.
pub const CPK_BYTES: usize = 4912;

/// The sizes fit together.
pub proof fn law_sizes()
    ensures
        V == N - O,
        SIG_BYTES == K * N / 2 + SALT_BYTES,
        P1_ENTRIES == V * (V + 1) / 2,
        P2_ENTRIES == V * O,
        P3_ENTRIES == O * (O + 1) / 2,
        M_VEC_BYTES * 2 == M,
        CPK_BYTES == PK_SEED_BYTES + P3_ENTRIES * M_VEC_BYTES,
{
}

} // verus!
