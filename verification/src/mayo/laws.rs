//! What commitments, statements and signatures promise as a whole.
use vstd::prelude::*;

use crate::bytes;
use crate::mayo::api;
use crate::mayo::api::{Commitment, PkId};
use crate::mayo::lanes;
use crate::mayo::lanes::PkLanes;
use crate::mayo::statement;
use crate::mayo::statement::{PublicLayout, Statement};
use crate::mayo::verify;
use crate::mayo::verify::Blocks;

verus! {

/// A byte is sixteen times its high nibble and its low one.
proof fn lemma_halves_as_numbers(byte: u8)
    ensures
        byte & 0x0f == byte % 16,
        byte >> 4 == byte / 16,
{
    assert(byte & 0x0f == byte % 16 && byte >> 4 == byte / 16) by (bit_vector);
}

/// Unpacking takes each byte apart, the remainder by sixteen first and the quotient next.
pub proof fn law_unpacking_takes_bytes_apart(packed: Seq<u8>, n: nat)
    requires
        n <= 2 * packed.len(),
    ensures
        lanes::unpacked(packed, n).len() == n,
        forall|i: int|
            0 <= i < n ==> #[trigger] lanes::unpacked(packed, n)[i] == if i % 2 == 0 {
                packed[i / 2] % 16
            } else {
                packed[i / 2] / 16
            },
{
    assert forall|i: int| 0 <= i < n implies #[trigger] lanes::unpacked(packed, n)[i]
        == if i % 2 == 0 {
        packed[i / 2] % 16
    } else {
        packed[i / 2] / 16
    } by {
        lemma_halves_as_numbers(packed[i / 2]);
    }
}

/// A commitment is to the whole payload: Keccak-256 of the tag and of SHAKE-256 of every byte
/// of it. The commitment to a digest of the payload is the same one.
pub proof fn law_commitment_is_to_the_whole_payload(payload: Seq<u8>)
    ensures
        api::c_of(payload) == Commitment(
            api::keccak256_of(
                seq![1u8, 0, 0, 0, 0, 0, 0, 0] + api::shake256_of(payload, 32),
            ),
        ),
        api::c_of(payload) == api::c_of_digest(api::shake256_of(payload, 32)),
{
    assert(api::DOMAIN_TAG_C@ =~= seq![1u8, 0, 0, 0, 0, 0, 0, 0]);
}

/// Commitments and statements tell digests apart as far as the hashes do: equal statements are
/// about payloads of one digest, and payloads of one digest share their commitment.
pub proof fn law_statement_tells_payloads_apart(
    a: &Statement,
    b: &Statement,
    payload: Seq<u8>,
    other: Seq<u8>,
    cpk: Seq<u8>,
)
    requires
        a.is_about(payload, cpk),
        b.is_about(other, cpk),
    ensures
        a.m@ == b.m@ <==> api::shake256_of(payload, 32) == api::shake256_of(other, 32),
        a.m@ == b.m@ ==> api::c_of(payload) == api::c_of(other),
        api::keccak256_of(seq![1u8, 0, 0, 0, 0, 0, 0, 0] + a.m@) == api::c_of(payload).0,
{
    law_commitment_is_to_the_whole_payload(payload);
    law_commitment_is_to_the_whole_payload(other);
}

/// The digest that a statement carries is the one that a signature is checked against: the
/// target is SHAKE-256 of that digest and the salt.
pub proof fn law_statement_and_signature_share_the_digest(
    statement: &Statement,
    payload: Seq<u8>,
    cpk: Seq<u8>,
    packed: Seq<u8>,
    salt: Seq<u8>,
)
    requires
        statement.is_about(payload, cpk),
        packed.len() == 162,
        salt.len() == 24,
    ensures
        verify::target_of(payload, packed + salt) == lanes::unpacked(
            api::shake256_of(statement.m@ + salt, 32),
            64,
        ),
{
    law_signature_is_blocks_and_salt(payload, packed, salt);
}

/// A signature is its packed blocks and then its salt, 162 and 24 bytes: the blocks are the
/// nibbles of the first part, and the target hashes the second behind the digest.
pub proof fn law_signature_is_blocks_and_salt(msg: Seq<u8>, packed: Seq<u8>, salt: Seq<u8>)
    requires
        packed.len() == 162,
        salt.len() == 24,
    ensures
        verify::target_of(msg, packed + salt) == lanes::unpacked(
            api::shake256_of(api::shake256_of(msg, 32) + salt, 32),
            64,
        ),
        forall|s: Blocks| #[trigger]
            verify::blocks_of(packed + salt, s) <==> (forall|col: int, r: int|
                0 <= col < 4 && 0 <= r < 81 ==> #[trigger] s@[col]@[r] == ({
                    let at = col * 81 + r;
                    if at % 2 == 0 {
                        packed[at / 2] % 16
                    } else {
                        packed[at / 2] / 16
                    }
                })),
{
    let sig = packed + salt;
    assert(sig.skip(162) =~= salt);
    assert forall|col: int, r: int| 0 <= col < 4 && 0 <= r < 81 implies #[trigger] lanes::nibble(
        sig,
        col * 81 + r,
    ) == ({
        let at = col * 81 + r;
        if at % 2 == 0 {
            packed[at / 2] % 16
        } else {
            packed[at / 2] / 16
        }
    }) by {
        let at = col * 81 + r;
        assert(sig[at / 2] == packed[at / 2]);
        lemma_halves_as_numbers(packed[at / 2]);
    }
    assert forall|s: Blocks| #[trigger] verify::blocks_of(sig, s) implies (forall|
        col: int,
        r: int,
    |
        0 <= col < 4 && 0 <= r < 81 ==> #[trigger] s@[col]@[r] == ({
            let at = col * 81 + r;
            if at % 2 == 0 {
                packed[at / 2] % 16
            } else {
                packed[at / 2] / 16
            }
        })) by {
        assert forall|col: int, r: int| 0 <= col < 4 && 0 <= r < 81 implies #[trigger] s@[col]@[r]
            == ({
            let at = col * 81 + r;
            if at % 2 == 0 {
                packed[at / 2] % 16
            } else {
                packed[at / 2] / 16
            }
        }) by {
            assert(s@[col]@[r] == lanes::nibble(sig, col * 81 + r));
        }
    }
    assert forall|s: Blocks|
        (forall|col: int, r: int|
            0 <= col < 4 && 0 <= r < 81 ==> #[trigger] s@[col]@[r] == ({
                let at = col * 81 + r;
                if at % 2 == 0 {
                    packed[at / 2] % 16
                } else {
                    packed[at / 2] / 16
                }
            })) implies #[trigger] verify::blocks_of(sig, s) by {
        assert forall|col: int, r: int| 0 <= col < 4 && 0 <= r < 81 implies #[trigger] s@[col]@[r]
            == lanes::nibble(sig, col * 81 + r) by {}
    }
}

/// Signatures that share their last 24 bytes have one target; signatures that share their first
/// 162 bytes have the same blocks.
pub proof fn law_salt_and_blocks_do_not_mix(msg: Seq<u8>, sig: Seq<u8>, other: Seq<u8>, s: Blocks)
    requires
        sig.len() == 186,
        other.len() == 186,
    ensures
        sig.subrange(162, 186) == other.subrange(162, 186) ==> verify::target_of(msg, sig)
            == verify::target_of(msg, other),
        sig.take(162) == other.take(162) ==> (verify::blocks_of(sig, s) <==> verify::blocks_of(
            other,
            s,
        )),
{
    assert(sig =~= sig.take(162) + sig.subrange(162, 186));
    assert(other =~= other.take(162) + other.subrange(162, 186));
    law_signature_is_blocks_and_salt(msg, sig.take(162), sig.subrange(162, 186));
    law_signature_is_blocks_and_salt(msg, other.take(162), other.subrange(162, 186));
}

/// The public input spells out the commitment and the fingerprint: its eight words from the
/// given offset on, each as eight bytes with the least significant first, are the bytes of `c`
/// and then those of `pk_id`. Before them stand the constants, and zeros everywhere else.
pub proof fn law_public_input_spells_commitments(
    layout: &PublicLayout,
    c: Seq<u8>,
    pk_id: Seq<u8>,
)
    requires
        layout.wf(),
        c.len() == 32,
        pk_id.len() == 32,
    ensures
        ({
            let public = statement::public_input_of(layout, c, pk_id);
            let offset = layout.offset_inout as int;
            &&& public.len() == layout.offset_witness
            &&& forall|k: int|
                0 <= k < 64 ==> #[trigger] (c + pk_id)[k] == bytes::le_bytes(
                    public[offset + k / 8] as nat,
                    8,
                )[k % 8]
            &&& forall|i: int|
                0 <= i < layout.constants@.len() ==> #[trigger] public[i]
                    == layout.constants@[i]
            &&& forall|i: int|
                layout.constants@.len() <= i < offset || offset + 8 <= i < public.len()
                    ==> #[trigger] public[i] == 0
        }),
{
    let public = statement::public_input_of(layout, c, pk_id);
    let offset = layout.offset_inout as int;
    assert forall|k: int| 0 <= k < 64 implies #[trigger] (c + pk_id)[k] == bytes::le_bytes(
        public[offset + k / 8] as nat,
        8,
    )[k % 8] by {
        let word = k / 8;
        let part = if word < 4 {
            c.subrange(8 * word, 8 * word + 8)
        } else {
            pk_id.subrange(8 * (word - 4), 8 * (word - 4) + 8)
        };
        bytes::lemma_byte_ranges();
        bytes::lemma_le_bytes(part);
        assert(public[offset + word] == bytes::le_value(part));
        assert(part[k % 8] == (c + pk_id)[k]);
    }
}

/// The key stream has one AES block for each number, and the bytes of an expanded key are the
/// blocks of the numbers `0..6336` under its first sixteen bytes, then the rest of the key.
pub proof fn law_key_expands_by_counting(cpk: Seq<u8>)
    requires
        cpk.len() == 4912,
    ensures
        ({
            let expanded = api::expanded_bytes(cpk);
            &&& expanded.len() == 101376 + 4896
            &&& forall|k: int|
                0 <= k < 6336 ==> #[trigger] expanded.subrange(16 * k, 16 * k + 16)
                    == lanes::aes128_of(
                    cpk.take(16),
                    Seq::new(14, |i: int| 0u8) + seq![(k / 256) as u8, (k % 256) as u8],
                )@
            &&& expanded.skip(101376) == cpk.skip(16)
        }),
{
    let expanded = api::expanded_bytes(cpk);
    let seed = cpk.take(16);
    let stream = api::stream_bytes(seed, 3168);
    lemma_stream(seed, 3168);
    assert(expanded.skip(101376) =~= cpk.skip(16));
    assert forall|k: int| 0 <= k < 6336 implies #[trigger] expanded.subrange(16 * k, 16 * k + 16)
        == lanes::aes128_of(
        seed,
        Seq::new(14, |i: int| 0u8) + seq![(k / 256) as u8, (k % 256) as u8],
    )@ by {
        assert(expanded.subrange(16 * k, 16 * k + 16) =~= stream.subrange(16 * k, 16 * k + 16));
        lemma_counter(k as nat);
    }
}

/// The block of a number below `2^16`.
proof fn lemma_counter(k: nat)
    requires
        k < 0x1_0000,
    ensures
        lanes::counter_block(k) == Seq::new(14, |i: int| 0u8) + seq![(k / 256) as u8, (k % 256) as u8],
{
    reveal_with_fuel(bytes::le_bytes, 5);
    assert(k / 256 / 256 == 0);
    assert(k / 256 / 256 / 256 == 0);
    assert(bytes::le_bytes(k, 4) =~= seq![(k % 256) as u8, (k / 256 % 256) as u8, 0u8, 0u8]);
    assert(lanes::counter_block(k) =~= Seq::new(14, |i: int| 0u8) + seq![(k / 256) as u8, (k % 256) as u8]);
}

/// Block `k` of the key stream stands at `16 * k`.
proof fn lemma_stream(seed: Seq<u8>, n: nat)
    ensures
        api::stream_bytes(seed, n).len() == 32 * n,
        forall|k: int|
            0 <= k < 2 * n ==> #[trigger] api::stream_bytes(seed, n).subrange(16 * k, 16 * k + 16)
                == lanes::stream_block(seed, k as nat),
    decreases n,
{
    if n > 0 {
        let less = (n - 1) as nat;
        lemma_stream(seed, less);
        let before = api::stream_bytes(seed, less);
        let all = api::stream_bytes(seed, n);
        let first = lanes::stream_block(seed, 2 * less);
        let second = lanes::stream_block(seed, 2 * less + 1);
        assert(all == before + (first + second));
        assert forall|k: int| 0 <= k < 2 * n implies #[trigger] all.subrange(16 * k, 16 * k + 16)
            == lanes::stream_block(seed, k as nat) by {
            if k < 2 * less {
                assert(all.subrange(16 * k, 16 * k + 16) =~= before.subrange(
                    16 * k,
                    16 * k + 16,
                ));
            } else if k == 2 * less {
                assert(all.subrange(16 * k, 16 * k + 16) =~= first);
            } else {
                assert(all.subrange(16 * k, 16 * k + 16) =~= second);
            }
        }
    }
}

/// The lanes of a key are the nibbles of its expanded bytes, 64 to an entry, in order: the
/// first 2080 entries, the next 1088 and the last 153.
pub proof fn law_lanes_are_the_expanded_nibbles(cpk: Seq<u8>, of: &PkLanes)
    requires
        cpk.len() == 4912,
        lanes::expands(cpk, of),
    ensures
        of.p1@.len() == 2080,
        of.p2@.len() == 1088,
        of.p3@.len() == 153,
        forall|e: int, l: int|
            0 <= e < 3321 && 0 <= l < 64 ==> {
                let entry = if e < 2080 {
                    of.p1@[e]@
                } else if e < 3168 {
                    of.p2@[e - 2080]@
                } else {
                    of.p3@[e - 3168]@
                };
                let byte = #[trigger] api::expanded_bytes(cpk)[32 * e + l / 2];
                entry[l] == if l % 2 == 0 {
                    byte % 16
                } else {
                    byte / 16
                }
            },
{
    let seed = cpk.take(16);
    let expanded = api::expanded_bytes(cpk);
    let stream = api::stream_bytes(seed, 3168);
    lemma_stream(seed, 3168);
    lanes::lemma_entries(of.p1@);
    lanes::lemma_entries(of.p2@);
    lanes::lemma_entries(of.p3@);
    assert(lanes::entries(of.p1@).len() == 2080);
    assert(lanes::entries(of.p2@).len() == 1088);
    assert(lanes::entries(of.p3@).len() == 153);
    assert forall|e: int, l: int| 0 <= e < 3321 && 0 <= l < 64 implies {
        let entry = if e < 2080 {
            of.p1@[e]@
        } else if e < 3168 {
            of.p2@[e - 2080]@
        } else {
            of.p3@[e - 3168]@
        };
        let byte = #[trigger] expanded[32 * e + l / 2];
        entry[l] == if l % 2 == 0 {
            byte % 16
        } else {
            byte / 16
        }
    } by {
        let byte = expanded[32 * e + l / 2];
        lemma_halves_as_numbers(byte);
        if e < 3168 {
            let k = 2 * e + l / 32;
            let block = lanes::stream_block(seed, k as nat);
            assert(stream.subrange(16 * k, 16 * k + 16) == block);
            assert(stream.subrange(16 * k, 16 * k + 16)[l / 2 - 16 * (l / 32)] == byte);
            assert(lanes::stream_entry(seed, e as nat)[l / 2] == byte);
            if e < 2080 {
                assert(of.p1@[e]@ == lanes::entries(of.p1@)[e]);
                assert(lanes::entries(of.p1@)[e] == lanes::unpacked(
                    lanes::stream_entry(seed, e as nat),
                    64,
                ));
            } else {
                assert(of.p2@[e - 2080]@ == lanes::entries(of.p2@)[e - 2080]);
                assert(lanes::entries(of.p2@)[e - 2080] == lanes::unpacked(
                    lanes::stream_entry(seed, e as nat),
                    64,
                ));
            }
        } else {
            let at = e - 3168;
            let rest = cpk.skip(16);
            assert(of.p3@[at]@ == lanes::entries(of.p3@)[at]);
            assert(lanes::entries(of.p3@)[at] == lanes::unpacked(
                rest.subrange(at * 32, at * 32 + 32),
                64,
            ));
            assert(rest.subrange(at * 32, at * 32 + 32)[l / 2] == byte);
        }
    }
}

/// A fingerprint is Keccak-256 of the tag and the expanded key, whether it is computed from
/// the compact key or from its lanes.
pub proof fn law_fingerprint_is_of_the_expanded_key(cpk: Seq<u8>, of: &PkLanes)
    requires
        cpk.len() == 4912,
        lanes::expands(cpk, of),
    ensures
        api::pk_id_of(cpk) == PkId(
            api::keccak256_of(seq![2u8, 0, 0, 0, 0, 0, 0, 0] + api::expanded_bytes(cpk)),
        ),
        api::pk_id_of_lanes(of) == api::pk_id_of(cpk),
{
    assert(api::DOMAIN_TAG_PK@ =~= seq![2u8, 0, 0, 0, 0, 0, 0, 0]);
    api::law_packing_inverts_expansion(cpk, of);
}

} // verus!
