//! Commitments that a proof exposes, and the public input it is checked against.
//!
//! A proof shows that its maker knows a signature that binds the digest commitment `c` to the
//! public key fingerprint `pk_id`. It does not show that those two are the expected ones: compare
//! them with [`compute_c`] and [`compute_pk_id`] before checking a proof.
use sha3::digest::{ExtendableOutput, Update, XofReader};
use sha3::{Digest, Keccak256, Shake256};
use vstd::prelude::*;
use vstd::string::*;

use crate::mayo::lanes;
use crate::mayo::lanes::{expand_pk_to_lanes, pack_nibbles, Entry, PkLanes};
use crate::mayo::params::{P1_ENTRIES, P2_ENTRIES, P3_ENTRIES};
use crate::text;
use crate::text::Describe;

verus! {

/// Commitment to the payload that was signed.
#[derive(Clone, Copy, Debug, Default, PartialEq, Eq, Hash)]
pub struct Commitment(pub [u8; 32]);

/// Fingerprint of a public key.
#[derive(Clone, Copy, Debug, Default, PartialEq, Eq, Hash)]
pub struct PkId(pub [u8; 32]);

/// Opaque proof bytes.
#[derive(Clone, Debug, Default, PartialEq, Eq)]
pub struct Proof(pub Vec<u8>);

/// What the prover sends and what the verifier consumes.
#[derive(Clone, Debug)]
pub struct ProofBundle {
    /// Commitment to the payload.
    pub c: Commitment,
    /// Fingerprint of the public key.
    pub pk_id: PkId,
    /// Proof bytes.
    pub proof: Proof,
}

/// A payload of any length, with a signature over it under a compact public key.
#[derive(Clone, Copy, Debug)]
pub struct SignedMessage<'a> {
    /// What was signed.
    pub payload: &'a [u8],
    /// Compact public key.
    pub cpk: &'a [u8; 4912],
    /// Signature.
    pub sig: &'a [u8; 186],
}

impl Commitment {
    /// Views the commitment as a 32-byte array.
    pub fn as_bytes(&self) -> (bytes: &[u8; 32])
        ensures
            *bytes == self.0,
    {
        &self.0
    }

    /// Consumes the commitment and returns its bytes.
    pub fn into_bytes(self) -> (bytes: [u8; 32])
        ensures
            bytes == self.0,
    {
        self.0
    }
}

impl From<[u8; 32]> for Commitment {
    fn from(bytes: [u8; 32]) -> (commitment: Self) {
        Commitment(bytes)
    }
}

impl vstd::std_specs::convert::FromSpecImpl<[u8; 32]> for Commitment {
    open spec fn obeys_from_spec() -> bool {
        true
    }

    open spec fn from_spec(bytes: [u8; 32]) -> Self {
        Commitment(bytes)
    }
}

impl Describe for Commitment {
    open spec fn text(&self) -> Seq<char> {
        text::hex_bytes(self.0@)
    }

    fn describe(&self) -> (text: String) {
        hex_text(&self.0)
    }
}

impl PkId {
    /// Views the fingerprint as a 32-byte array.
    pub fn as_bytes(&self) -> (bytes: &[u8; 32])
        ensures
            *bytes == self.0,
    {
        &self.0
    }

    /// Consumes the fingerprint and returns its bytes.
    pub fn into_bytes(self) -> (bytes: [u8; 32])
        ensures
            bytes == self.0,
    {
        self.0
    }
}

impl From<[u8; 32]> for PkId {
    fn from(bytes: [u8; 32]) -> (pk_id: Self) {
        PkId(bytes)
    }
}

impl vstd::std_specs::convert::FromSpecImpl<[u8; 32]> for PkId {
    open spec fn obeys_from_spec() -> bool {
        true
    }

    open spec fn from_spec(bytes: [u8; 32]) -> Self {
        PkId(bytes)
    }
}

impl Describe for PkId {
    open spec fn text(&self) -> Seq<char> {
        text::hex_bytes(self.0@)
    }

    fn describe(&self) -> (text: String) {
        hex_text(&self.0)
    }
}

/// Bytes as lowercase hexadecimal.
fn hex_text(bytes: &[u8; 32]) -> (text: String)
    ensures
        text@ == text::hex_bytes(bytes@),
{
    let mut out = String::new();
    text::push_hex_bytes(&mut out, bytes.as_slice());
    assert(out@ =~= text::hex_bytes(bytes@));
    out
}

impl Proof {
    /// Views the proof as a byte slice.
    pub fn as_slice(&self) -> (bytes: &[u8])
        ensures
            bytes@ == self.0@,
    {
        self.0.as_slice()
    }

    /// Mutable view of the bytes.
    pub fn as_mut_slice(&mut self) -> (bytes: &mut [u8])
        ensures
            bytes@ == old(self).0@,
            final(self).0@ == final(bytes)@,
    {
        self.0.as_mut_slice()
    }

    /// Consumes the proof and returns its bytes.
    pub fn into_bytes(self) -> (bytes: Vec<u8>)
        ensures
            bytes == self.0,
    {
        self.0
    }

    /// Number of bytes in the proof.
    pub fn len(&self) -> (len: usize)
        ensures
            len == self.0@.len(),
    {
        self.0.len()
    }

    /// Whether the proof is empty.
    pub fn is_empty(&self) -> (empty: bool)
        ensures
            empty <==> self.0@.len() == 0,
    {
        self.0.len() == 0
    }
}

impl From<Vec<u8>> for Proof {
    fn from(bytes: Vec<u8>) -> (proof: Self) {
        Proof(bytes)
    }
}

impl vstd::std_specs::convert::FromSpecImpl<Vec<u8>> for Proof {
    open spec fn obeys_from_spec() -> bool {
        true
    }

    open spec fn from_spec(bytes: Vec<u8>) -> Self {
        Proof(bytes)
    }
}

/// Keccak-256 of bytes.
pub uninterp spec fn keccak256_of(input: Seq<u8>) -> [u8; 32];

/// `Keccak256::digest` of the `sha3` crate: the Keccak-256 hash of the input, a function of the
/// input alone.
#[verifier::external_body]
fn keccak256(input: &[u8]) -> (out: [u8; 32])
    ensures
        out == keccak256_of(input@),
{
    Keccak256::digest(input).into()
}

/// The first bytes of SHAKE-256 of bytes.
pub uninterp spec fn shake256_of(input: Seq<u8>, output_len: nat) -> Seq<u8>;

/// `Shake256` of the `sha3` crate, one `update`, then one `read` of its `finalize_xof` reader: the
/// first `output_len` bytes of SHAKE-256, a function of the input and that length alone.
#[verifier::external_body]
pub(crate) fn shake256(input: &[u8], output_len: usize) -> (out: Vec<u8>)
    ensures
        out@ == shake256_of(input@, output_len as nat),
        out@.len() == output_len,
{
    let mut hasher = Shake256::default();
    hasher.update(input);
    let mut reader = hasher.finalize_xof();
    let mut out = vec![0u8; output_len];
    reader.read(&mut out);
    out
}

/// Length of the tag before what a commitment hashes.
pub const DOMAIN_TAG_LEN: usize = 8;

/// Tag before what `c` hashes.
pub const DOMAIN_TAG_C: [u8; 8] = [1, 0, 0, 0, 0, 0, 0, 0];

/// Tag before what `pk_id` hashes.
pub const DOMAIN_TAG_PK: [u8; 8] = [2, 0, 0, 0, 0, 0, 0, 0];

/// `c` of a digest: Keccak-256 of the tag and the digest.
pub open spec fn c_of_digest(m: Seq<u8>) -> Commitment {
    Commitment(keccak256_of(DOMAIN_TAG_C@ + m))
}

/// `c` of a payload.
pub open spec fn c_of(payload: Seq<u8>) -> Commitment {
    c_of_digest(shake256_of(payload, 32))
}

/// Entries packed one after the other.
pub open spec fn packed_entries(entries: Seq<Seq<u8>>) -> Seq<u8>
    decreases entries.len(),
{
    if entries.len() == 0 {
        Seq::empty()
    } else {
        packed_entries(entries.drop_last()) + lanes::packed(entries.last())
    }
}

/// `pk_id` of lanes: Keccak-256 of the tag and the packed lanes.
pub open spec fn pk_id_of_lanes(lanes: &PkLanes) -> PkId {
    PkId(keccak256_of(DOMAIN_TAG_PK@ + packed_entries(lanes.all())))
}

/// The key stream of the first `n` entries.
pub open spec fn stream_bytes(seed: Seq<u8>, n: nat) -> Seq<u8>
    decreases n,
{
    if n == 0 {
        Seq::empty()
    } else {
        stream_bytes(seed, (n - 1) as nat) + lanes::stream_entry(seed, (n - 1) as nat)
    }
}

/// The bytes of an expanded key: the key stream of its seed, then the packed rest of the key.
pub open spec fn expanded_bytes(cpk: Seq<u8>) -> Seq<u8> {
    stream_bytes(cpk.take(16), (P1_ENTRIES + P2_ENTRIES) as nat) + cpk.skip(16)
}

/// `pk_id` of a compact public key.
pub open spec fn pk_id_of(cpk: Seq<u8>) -> PkId {
    PkId(keccak256_of(DOMAIN_TAG_PK@ + expanded_bytes(cpk)))
}

/// `SHAKE-256(input, 32)` as a 32-byte digest.
pub fn shake256_32(input: &[u8]) -> (digest: [u8; 32])
    ensures
        digest@ == shake256_of(input@, 32),
{
    let bytes = shake256(input, 32);
    let mut digest: [u8; 32] = [0u8; 32];
    let mut i: usize = 0;
    while i < 32
        invariant
            i <= 32,
            bytes@.len() == 32,
            forall|j: int| 0 <= j < i ==> digest@[j] == bytes@[j],
        decreases 32 - i,
    {
        digest[i] = bytes[i];
        i += 1;
    }
    assert(digest@ =~= bytes@);
    digest
}

/// Computes `c` of a payload of any length, which is hashed to the digest that is signed.
#[must_use]
pub fn compute_c(payload: &[u8]) -> (c: Commitment)
    ensures
        c == c_of(payload@),
        c.0 == keccak256_of(seq![1u8, 0, 0, 0, 0, 0, 0, 0] + shake256_of(payload@, 32)),
{
    assert(DOMAIN_TAG_C@ =~= seq![1u8, 0, 0, 0, 0, 0, 0, 0]);
    compute_c_from_digest(&shake256_32(payload))
}

/// Computes `c` of a digest.
#[must_use]
pub fn compute_c_from_digest(m: &[u8; 32]) -> (c: Commitment)
    ensures
        c == c_of_digest(m@),
        c.0 == keccak256_of(seq![1u8, 0, 0, 0, 0, 0, 0, 0] + m@),
{
    assert(DOMAIN_TAG_C@ =~= seq![1u8, 0, 0, 0, 0, 0, 0, 0]);
    let mut input: Vec<u8> = Vec::new();
    let tag: [u8; 8] = DOMAIN_TAG_C;
    input.extend_from_slice(tag.as_slice());
    input.extend_from_slice(m.as_slice());
    assert(input@ =~= DOMAIN_TAG_C@ + m@);
    Commitment(keccak256(input.as_slice()))
}

/// Computes `pk_id` of a compact public key.
#[must_use]
pub fn compute_pk_id(cpk: &[u8; 4912]) -> (pk_id: PkId)
    ensures
        pk_id == pk_id_of(cpk@),
        pk_id.0 == keccak256_of(seq![2u8, 0, 0, 0, 0, 0, 0, 0] + expanded_bytes(cpk@)),
{
    assert(DOMAIN_TAG_PK@ =~= seq![2u8, 0, 0, 0, 0, 0, 0, 0]);
    let lanes = expand_pk_to_lanes(cpk);
    proof {
        law_packing_inverts_expansion(cpk@, &lanes);
    }
    pk_id_from_lanes(&lanes)
}

/// Appends entries, packed.
fn push_packed(out: &mut Vec<u8>, block: &Vec<Entry>, Ghost(before): Ghost<Seq<Seq<u8>>>, Ghost(
    head,
): Ghost<Seq<u8>>)
    requires
        old(out)@ == head + packed_entries(before),
    ensures
        final(out)@ == head + packed_entries(before + lanes::entries(block@)),
{
    let mut i: usize = 0;
    assert(before + lanes::entries(block@).take(0) =~= before);
    while i < block.len()
        invariant
            i <= block@.len(),
            out@ == head + packed_entries(before + lanes::entries(block@).take(i as int)),
        decreases block@.len() - i,
    {
        let bytes = pack_nibbles(block[i].as_slice());
        out.extend_from_slice(bytes.as_slice());
        i += 1;
        proof {
            let done = before + lanes::entries(block@).take(i as int);
            assert(done.drop_last() =~= before + lanes::entries(block@).take(i - 1));
            assert(done.last() == block@[i - 1]@);
            assert(out@ =~= head + packed_entries(done));
        }
    }
    assert(lanes::entries(block@).take(i as int) =~= lanes::entries(block@));
}

/// Computes `pk_id` of lanes that are already expanded.
pub fn pk_id_from_lanes(lanes: &PkLanes) -> (pk_id: PkId)
    requires
        lanes.wf(),
    ensures
        pk_id == pk_id_of_lanes(lanes),
        pk_id.0 == keccak256_of(seq![2u8, 0, 0, 0, 0, 0, 0, 0] + packed_entries(lanes.all())),
{
    assert(DOMAIN_TAG_PK@ =~= seq![2u8, 0, 0, 0, 0, 0, 0, 0]);
    let mut input: Vec<u8> = Vec::new();
    let tag: [u8; 8] = DOMAIN_TAG_PK;
    input.extend_from_slice(tag.as_slice());
    let ghost head = DOMAIN_TAG_PK@;
    let ghost none = Seq::<Seq<u8>>::empty();
    assert(input@ =~= head + packed_entries(none));
    push_packed(&mut input, &lanes.p1, Ghost(none), Ghost(head));
    let ghost first = none + lanes::entries(lanes.p1@);
    push_packed(&mut input, &lanes.p2, Ghost(first), Ghost(head));
    let ghost second = first + lanes::entries(lanes.p2@);
    push_packed(&mut input, &lanes.p3, Ghost(second), Ghost(head));
    assert(second + lanes::entries(lanes.p3@) =~= lanes.all());
    PkId(keccak256(input.as_slice()))
}

/// Computes both commitments.
#[must_use]
pub fn compute_commitments(payload: &[u8], cpk: &[u8; 4912]) -> (both: (Commitment, PkId))
    ensures
        both == (c_of(payload@), pk_id_of(cpk@)),
        both.0.0 == keccak256_of(seq![1u8, 0, 0, 0, 0, 0, 0, 0] + shake256_of(payload@, 32)),
        both.1.0 == keccak256_of(seq![2u8, 0, 0, 0, 0, 0, 0, 0] + expanded_bytes(cpk@)),
{
    (compute_c(payload), compute_pk_id(cpk))
}

/// Packing the lanes of a key gives the bytes that the key expands to, so lanes and key have the
/// same fingerprint.
pub proof fn law_packing_inverts_expansion(cpk: Seq<u8>, lanes: &PkLanes)
    requires
        cpk.len() == 4912,
        lanes::expands(cpk, lanes),
    ensures
        packed_entries(lanes.all()) == expanded_bytes(cpk),
        pk_id_of_lanes(lanes) == pk_id_of(cpk),
{
    let seed = cpk.take(16);
    let n1 = P1_ENTRIES as nat;
    let n2 = P2_ENTRIES as nat;
    let streamed = lanes::entries(lanes.p1@) + lanes::entries(lanes.p2@);
    assert(streamed =~= lanes::stream_entries(seed, 0, n1 + n2));
    lemma_packed_stream(seed, n1 + n2);
    let rest = cpk.skip(16);
    let last = lanes::unpacked_entries(rest, P3_ENTRIES as nat);
    assert(last == lanes::entries(lanes.p3@));
    lemma_packed_rest(streamed, rest, P3_ENTRIES as nat);
    assert(rest.take(P3_ENTRIES * 32) =~= rest);
}

/// Packing entries of the key stream gives the key stream.
proof fn lemma_packed_stream(seed: Seq<u8>, n: nat)
    ensures
        packed_entries(lanes::stream_entries(seed, 0, n)) == stream_bytes(seed, n),
    decreases n,
{
    let entries = lanes::stream_entries(seed, 0, n);
    if n > 0 {
        lemma_packed_stream(seed, (n - 1) as nat);
        assert(entries.drop_last() =~= lanes::stream_entries(seed, 0, (n - 1) as nat));
        let block = lanes::stream_entry(seed, (n - 1) as nat);
        assert(block.len() == 32);
        lanes::law_pack_inverts_unpack(block);
    }
}

/// Packing entries after others appends the bytes that they were unpacked from.
proof fn lemma_packed_rest(first: Seq<Seq<u8>>, rest: Seq<u8>, n: nat)
    requires
        n * 32 <= rest.len(),
    ensures
        packed_entries(first + lanes::unpacked_entries(rest, n)) == packed_entries(first)
            + rest.take(n as int * 32),
    decreases n,
{
    let last = lanes::unpacked_entries(rest, n);
    if n == 0 {
        assert(first + last =~= first);
        assert(packed_entries(first) + rest.take(0) =~= packed_entries(first));
    } else {
        let start = (n - 1) * 32;
        let fewer = lanes::unpacked_entries(rest, (n - 1) as nat);
        let block = rest.subrange(start, start + 32);
        lemma_packed_rest(first, rest, (n - 1) as nat);
        assert((first + last).drop_last() =~= first + fewer);
        assert((first + last).last() == lanes::unpacked(block, 64));
        assert(lanes::packed(lanes::unpacked(block, 64)) == block) by {
            lanes::law_pack_inverts_unpack(block);
        }
        lemma_append(packed_entries(first), rest, start);
    }
}

/// Taking some bytes and then the next ones is taking all of them.
proof fn lemma_append(head: Seq<u8>, rest: Seq<u8>, start: int)
    requires
        0 <= start,
        start + 32 <= rest.len(),
    ensures
        head + rest.take(start) + rest.subrange(start, start + 32) == head + rest.take(start + 32),
{
    assert(head + rest.take(start) + rest.subrange(start, start + 32) =~= head + rest.take(
        start + 32,
    ));
}

} // verus!
