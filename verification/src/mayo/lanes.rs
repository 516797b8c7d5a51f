//! Nibble lanes of a public key.
use aes::cipher::{Block, BlockCipherEncrypt, KeyInit};
use aes::Aes128;
use vstd::prelude::*;

use crate::bytes;
use crate::mayo::params::{
    CPK_BYTES, M, M_VEC_BYTES, P1_ENTRIES, P2_ENTRIES, P3_ENTRIES, PK_SEED_BYTES,
};

verus! {

/// One nibble per equation.
pub type Entry = [u8; 64];

/// Byte with the given low and high nibbles.
pub open spec fn joined(low: u8, high: u8) -> u8 {
    low | (high << 4)
}

/// Nibble `i` of packed bytes: the low nibble of each byte comes first.
pub open spec fn nibble(packed: Seq<u8>, i: int) -> u8 {
    if i % 2 == 0 {
        packed[i / 2] & 0x0f
    } else {
        packed[i / 2] >> 4
    }
}

/// The first `n` nibbles of packed bytes.
pub open spec fn unpacked(packed: Seq<u8>, n: nat) -> Seq<u8> {
    Seq::new(n, |i: int| nibble(packed, i))
}

/// Nibbles two to a byte, the last byte half full when there is an odd one.
pub open spec fn packed(nibbles: Seq<u8>) -> Seq<u8> {
    Seq::new(
        (nibbles.len() + 1) / 2,
        |i: int|
            if 2 * i + 1 < nibbles.len() {
                joined(nibbles[2 * i], nibbles[2 * i + 1])
            } else {
                nibbles[2 * i]
            },
    )
}

/// Whether every value fits four bits.
pub open spec fn are_nibbles(values: Seq<u8>) -> bool {
    forall|i: int| 0 <= i < values.len() ==> #[trigger] values[i] < 16
}

/// Bytes and their two nibbles.
proof fn lemma_halves(byte: u8, low: u8, high: u8)
    ensures
        byte & 0x0f < 16,
        byte >> 4 < 16,
        joined(byte & 0x0f, byte >> 4) == byte,
        low < 16 && high < 16 ==> joined(low, high) & 0x0f == low && joined(low, high) >> 4 == high,
        low < 16 ==> low & 0x0f == low,
{
    assert(byte & 0x0f < 16 && byte >> 4 < 16 && joined(byte & 0x0f, byte >> 4) == byte)
        by (bit_vector);
    assert(low < 16 && high < 16 ==> joined(low, high) & 0x0f == low && joined(low, high) >> 4
        == high) by (bit_vector);
    assert(low < 16 ==> low & 0x0f == low) by (bit_vector);
}

/// Unpacking what was packed gives the nibbles back.
pub proof fn law_unpack_inverts_pack(nibbles: Seq<u8>)
    requires
        are_nibbles(nibbles),
    ensures
        unpacked(packed(nibbles), nibbles.len()) == nibbles,
{
    assert forall|i: int| 0 <= i < nibbles.len() implies unpacked(
        packed(nibbles),
        nibbles.len(),
    )[i] == nibbles[i] by {
        let at = i / 2;
        if 2 * at + 1 < nibbles.len() {
            lemma_halves(0, nibbles[2 * at], nibbles[2 * at + 1]);
        } else {
            lemma_halves(0, nibbles[2 * at], 0);
        }
    }
    assert(unpacked(packed(nibbles), nibbles.len()) =~= nibbles);
}

/// Packing all nibbles of bytes gives the bytes back.
pub proof fn law_pack_inverts_unpack(bytes: Seq<u8>)
    ensures
        are_nibbles(unpacked(bytes, 2 * bytes.len())),
        packed(unpacked(bytes, 2 * bytes.len())) == bytes,
{
    let nibbles = unpacked(bytes, 2 * bytes.len());
    assert forall|i: int| 0 <= i < nibbles.len() implies #[trigger] nibbles[i] < 16 by {
        lemma_halves(bytes[i / 2], 0, 0);
    }
    assert forall|i: int| 0 <= i < bytes.len() implies packed(nibbles)[i] == bytes[i] by {
        lemma_halves(bytes[i], 0, 0);
        assert(nibbles[2 * i] == bytes[i] & 0x0f);
        assert(nibbles[2 * i + 1] == bytes[i] >> 4);
    }
    assert(packed(nibbles) =~= bytes);
}

/// Unpacks `n_nibbles` low-then-high nibbles from bytes.
pub fn unpack_nibbles(packed: &[u8], n_nibbles: usize) -> (nibbles: Vec<u8>)
    requires
        n_nibbles <= 2 * packed@.len(),
    ensures
        nibbles@ == unpacked(packed@, n_nibbles as nat),
{
    let mut out: Vec<u8> = Vec::new();
    let full: usize = n_nibbles / 2;
    let mut i: usize = 0;
    while i < full
        invariant
            i <= full,
            full == n_nibbles / 2,
            n_nibbles <= 2 * packed@.len(),
            out@ == unpacked(packed@, 2 * i as nat),
        decreases full - i,
    {
        let b: u8 = packed[i];
        out.push(b & 0x0f);
        out.push(b >> 4);
        i += 1;
        assert(out@ =~= unpacked(packed@, 2 * i as nat));
    }
    if n_nibbles % 2 == 1 {
        out.push(packed[full] & 0x0f);
    }
    assert(out@ =~= unpacked(packed@, n_nibbles as nat));
    out
}

/// Packs nibbles into bytes, low then high.
pub fn pack_nibbles(nibbles: &[u8]) -> (bytes: Vec<u8>)
    ensures
        bytes@ == packed(nibbles@),
{
    let n: usize = nibbles.len();
    let full: usize = n / 2;
    let mut out: Vec<u8> = Vec::new();
    let mut i: usize = 0;
    while i < full
        invariant
            i <= full,
            n == nibbles@.len(),
            full == n / 2,
            out@ == packed(nibbles@).take(i as int),
        decreases full - i,
    {
        out.push(nibbles[2 * i] | (nibbles[2 * i + 1] << 4));
        i += 1;
        assert(out@ =~= packed(nibbles@).take(i as int));
    }
    if n % 2 == 1 {
        out.push(nibbles[full * 2]);
    }
    assert(out@ =~= packed(nibbles@));
    out
}

/// Unpacks the bytes of one entry, from `at` on.
fn unpack_entry(packed: &[u8], at: usize) -> (entry: Entry)
    requires
        at + M_VEC_BYTES <= packed@.len(),
    ensures
        entry@ == unpacked(packed@.subrange(at as int, at + M_VEC_BYTES), M as nat),
{
    let len: usize = packed.len();
    let mut entry: Entry = [0u8; 64];
    let ghost bytes = packed@.subrange(at as int, at + M_VEC_BYTES);
    let mut b: usize = 0;
    while b < M_VEC_BYTES
        invariant
            b <= M_VEC_BYTES,
            at + M_VEC_BYTES <= len,
            len == packed@.len(),
            bytes == packed@.subrange(at as int, at + M_VEC_BYTES),
            forall|i: int| 0 <= i < 2 * b ==> #[trigger] entry@[i] == nibble(bytes, i),
        decreases M_VEC_BYTES - b,
    {
        let byte: u8 = packed[at + b];
        assert(byte == bytes[b as int]);
        entry[2 * b] = byte & 0x0f;
        entry[2 * b + 1] = byte >> 4;
        b += 1;
    }
    assert(entry@ =~= unpacked(bytes, M as nat));
    entry
}

/// Entries as sequences of nibbles.
pub open spec fn entries(of: Seq<Entry>) -> Seq<Seq<u8>> {
    Seq::new(of.len(), |i: int| of[i]@)
}

/// Entries are as many as their sequences.
pub proof fn lemma_entries(of: Seq<Entry>)
    ensures
        entries(of).len() == of.len(),
        forall|i: int| 0 <= i < of.len() ==> #[trigger] entries(of)[i] == of[i]@,
{
}

/// One more entry.
proof fn lemma_entries_push(of: Seq<Entry>, entry: Entry)
    ensures
        entries(of.push(entry)) == entries(of).push(entry@),
{
    assert(entries(of.push(entry)) =~= entries(of).push(entry@));
}

/// Entries that packed bytes hold, one after the other.
pub open spec fn unpacked_entries(packed: Seq<u8>, n: nat) -> Seq<Seq<u8>> {
    Seq::new(n, |i: int| unpacked(packed.subrange(i * 32, i * 32 + 32), 64))
}

/// Unpacks bytes into nibble lanes, low then high, one `Entry` for every `M_VEC_BYTES`.
pub fn unpack_m_vec_array(packed: &[u8], n_entries: usize) -> (out: Vec<Entry>)
    requires
        packed@.len() == n_entries * M_VEC_BYTES,
    ensures
        entries(out@) == unpacked_entries(packed@, n_entries as nat),
{
    let len: usize = packed.len();
    let mut out: Vec<Entry> = Vec::new();
    let mut i: usize = 0;
    while i < n_entries
        invariant
            i <= n_entries,
            len == packed@.len(),
            packed@.len() == n_entries * M_VEC_BYTES,
            entries(out@) == unpacked_entries(packed@, i as nat),
            out@.len() == i,
        decreases n_entries - i,
    {
        assert(i * 32 + 32 <= packed@.len());
        let entry = unpack_entry(packed, i * M_VEC_BYTES);
        proof {
            lemma_entries_push(out@, entry);
        }
        out.push(entry);
        i += 1;
        assert(entries(out@) =~= unpacked_entries(packed@, i as nat));
    }
    out
}

/// AES-128 encryption of one block under a key.
pub uninterp spec fn aes128_of(key: Seq<u8>, block: Seq<u8>) -> [u8; 16];

/// `Aes128` of the `aes` crate, keyed with `KeyInit::new`, then `encrypt_block`: the block is
/// replaced by its AES-128 encryption, which depends on the key and the block alone.
#[verifier::external_body]
fn aes128_encrypt(key: &[u8; 16], block: [u8; 16]) -> (out: [u8; 16])
    ensures
        out == aes128_of(key@, block@),
{
    let cipher = Aes128::new(&(*key).into());
    let mut blk = Block::<Aes128>::from(block);
    cipher.encrypt_block(&mut blk);
    blk.into()
}

/// AES input for a counter: twelve zero bytes, then the counter with its most significant byte
/// first.
pub open spec fn counter_block(counter: nat) -> Seq<u8> {
    Seq::new(12, |i: int| 0u8) + bytes::le_bytes(counter, 4).reverse()
}

/// Block `counter` of the key stream of a seed.
pub open spec fn stream_block(seed: Seq<u8>, counter: nat) -> Seq<u8> {
    aes128_of(seed, counter_block(counter))@
}

/// The two blocks of the key stream that make entry `i`.
pub open spec fn stream_entry(seed: Seq<u8>, i: nat) -> Seq<u8> {
    stream_block(seed, 2 * i) + stream_block(seed, 2 * i + 1)
}

/// Entries `from..from + n` of the key stream.
pub open spec fn stream_entries(seed: Seq<u8>, from: nat, n: nat) -> Seq<Seq<u8>> {
    Seq::new(n, |i: int| unpacked(stream_entry(seed, (from + i) as nat), 64))
}

/// Encrypts a counter.
fn encrypt_counter(seed: &[u8; 16], counter: u32) -> (out: [u8; 16])
    ensures
        out@ == stream_block(seed@, counter as nat),
{
    let mut block: [u8; 16] = [0u8; 16];
    block[12] = (counter / 0x100_0000) as u8;
    block[13] = (counter / 0x1_0000 % 256) as u8;
    block[14] = (counter / 0x100 % 256) as u8;
    block[15] = (counter % 256) as u8;
    proof {
        reveal_with_fuel(bytes::le_bytes, 5);
        let n = counter as nat;
        assert(n / 256 / 256 == n / 0x1_0000);
        assert(n / 256 / 256 / 256 == n / 0x100_0000);
        let low = bytes::le_bytes(n, 4);
        assert(low =~= seq![
            (n % 256) as u8,
            (n / 256 % 256) as u8,
            (n / 0x1_0000 % 256) as u8,
            (n / 0x100_0000 % 256) as u8,
        ]);
        assert(block@ =~= counter_block(n));
    }
    aes128_encrypt(seed, block)
}

/// Entry `i` of the key stream.
fn expand_entry(seed: &[u8; 16], i: u32) -> (entry: Entry)
    requires
        2 * i + 1 <= u32::MAX,
    ensures
        entry@ == unpacked(stream_entry(seed@, i as nat), M as nat),
{
    let first = encrypt_counter(seed, 2 * i);
    let second = encrypt_counter(seed, 2 * i + 1);
    let mut both: [u8; 32] = [0u8; 32];
    let mut b: usize = 0;
    while b < 16
        invariant
            b <= 16,
            forall|j: int| 0 <= j < b ==> both@[j] == first@[j],
            forall|j: int| 0 <= j < b ==> #[trigger] both@[16 + j] == second@[j],
        decreases 16 - b,
    {
        both[b] = first[b];
        both[16 + b] = second[b];
        b += 1;
    }
    proof {
        assert forall|j: int| 16 <= j < 32 implies both@[j] == second@[j - 16] by {
            assert(both@[16 + (j - 16)] == second@[j - 16]);
        }
        assert(both@ =~= first@ + second@);
        assert(both@.subrange(0, 32) =~= both@);
    }
    unpack_entry(both.as_slice(), 0)
}

/// Entries `from..from + n` of the key stream.
fn expand_entries(seed: &[u8; 16], from: u32, n: u32) -> (out: Vec<Entry>)
    requires
        2 * (from + n) <= u32::MAX,
    ensures
        entries(out@) == stream_entries(seed@, from as nat, n as nat),
{
    let mut out: Vec<Entry> = Vec::new();
    let mut i: u32 = 0;
    while i < n
        invariant
            i <= n,
            2 * (from + n) <= u32::MAX,
            out@.len() == i,
            entries(out@) == stream_entries(seed@, from as nat, i as nat),
        decreases n - i,
    {
        let entry = expand_entry(seed, from + i);
        proof {
            lemma_entries_push(out@, entry);
        }
        out.push(entry);
        i += 1;
        assert(entries(out@) =~= stream_entries(seed@, from as nat, i as nat));
    }
    out
}

/// Expanded public key.
pub struct PkLanes {
    /// Upper triangle over the vinegar variables, row by row.
    pub p1: Vec<Entry>,
    /// Rectangle of vinegar and oil variables, row by row.
    pub p2: Vec<Entry>,
    /// Upper triangle over the oil variables, row by row.
    pub p3: Vec<Entry>,
}

impl PkLanes {
    /// All entries, in the order in which the key packs them.
    pub open spec fn all(&self) -> Seq<Seq<u8>> {
        entries(self.p1@) + entries(self.p2@) + entries(self.p3@)
    }

    /// As many entries of each block as the key has, all of nibbles.
    pub open spec fn wf(&self) -> bool {
        &&& self.p1@.len() == P1_ENTRIES
        &&& self.p2@.len() == P2_ENTRIES
        &&& self.p3@.len() == P3_ENTRIES
        &&& forall|i: int| 0 <= i < self.all().len() ==> are_nibbles(#[trigger] self.all()[i])
    }
}

/// Whether lanes are those of a compact public key: the key stream of its seed, then the packed
/// rest of the key.
pub open spec fn expands(cpk: Seq<u8>, lanes: &PkLanes) -> bool {
    let seed = cpk.take(16);
    &&& entries(lanes.p1@) == stream_entries(seed, 0, P1_ENTRIES as nat)
    &&& entries(lanes.p2@) == stream_entries(seed, P1_ENTRIES as nat, P2_ENTRIES as nat)
    &&& entries(lanes.p3@) == unpacked_entries(cpk.skip(16), P3_ENTRIES as nat)
}

/// Expands a compact public key into lanes.
pub fn expand_pk_to_lanes(cpk: &[u8; 4912]) -> (lanes: PkLanes)
    ensures
        lanes.wf(),
        expands(cpk@, &lanes),
{
    let mut seed: [u8; 16] = [0u8; 16];
    let mut i: usize = 0;
    while i < PK_SEED_BYTES
        invariant
            i <= PK_SEED_BYTES,
            forall|j: int| 0 <= j < i ==> seed@[j] == cpk@[j],
        decreases PK_SEED_BYTES - i,
    {
        seed[i] = cpk[i];
        i += 1;
    }
    assert(seed@ =~= cpk@.take(16));
    let p1 = expand_entries(&seed, 0, P1_ENTRIES as u32);
    let p2 = expand_entries(&seed, P1_ENTRIES as u32, P2_ENTRIES as u32);
    let rest = vstd::slice::slice_subrange(cpk.as_slice(), PK_SEED_BYTES, CPK_BYTES);
    assert(rest@ =~= cpk@.skip(16));
    let p3 = unpack_m_vec_array(rest, P3_ENTRIES);
    let lanes = PkLanes { p1, p2, p3 };
    proof {
        lemma_expanded(cpk@, &lanes);
    }
    lanes
}

/// Lanes of a key are full, and made of nibbles.
proof fn lemma_expanded(cpk: Seq<u8>, lanes: &PkLanes)
    requires
        expands(cpk, lanes),
    ensures
        lanes.wf(),
{
    let seed = cpk.take(16);
    assert(entries(lanes.p1@).len() == P1_ENTRIES);
    assert(entries(lanes.p2@).len() == P2_ENTRIES);
    assert(entries(lanes.p3@).len() == P3_ENTRIES);
    assert forall|i: int| 0 <= i < lanes.all().len() implies are_nibbles(
        #[trigger] lanes.all()[i],
    ) by {
        if i < P1_ENTRIES {
            assert(lanes.all()[i] == entries(lanes.p1@)[i]);
            lemma_unpacked_nibbles(stream_entry(seed, i as nat), 64);
        } else if i < P1_ENTRIES + P2_ENTRIES {
            assert(lanes.all()[i] == entries(lanes.p2@)[i - P1_ENTRIES]);
            lemma_unpacked_nibbles(stream_entry(seed, i as nat), 64);
        } else {
            let at = i - P1_ENTRIES - P2_ENTRIES;
            assert(lanes.all()[i] == entries(lanes.p3@)[at]);
            lemma_unpacked_nibbles(cpk.skip(16).subrange(at * 32, at * 32 + 32), 64);
        }
    }
}

/// Unpacking gives nibbles.
proof fn lemma_unpacked_nibbles(packed: Seq<u8>, n: nat)
    ensures
        are_nibbles(unpacked(packed, n)),
{
    assert forall|i: int| 0 <= i < n implies #[trigger] unpacked(packed, n)[i] < 16 by {
        lemma_halves(packed[i / 2], 0, 0);
    }
}

} // verus!
