//! What a snapshot envelope holds and how it is laid out.
use vstd::prelude::*;

use crate::bytes;


verus! {

/// Fixed 8-byte prefix identifying a chainfold snapshot.
pub const SNAPSHOT_MAGIC: [u8; 8] = [0x43, 0x48, 0x4e, 0x46, 0x4f, 0x4c, 0x44, 0x31];

/// Snapshot envelope wire format version.
pub const SNAPSHOT_VERSION: u16 = 1;

/// Largest length-bearing envelope field the codec accepts, in bytes.
pub const MAX_ENVELOPE_FIELD_LEN: usize = 0x4000_0000;

/// Byte length of a block hash.
pub const HASH_LEN: usize = 32;

/// Byte length of the magic prefix.
pub const MAGIC_LEN: usize = 8;

/// Byte length of the checksum trailer.
pub const CRC_LEN: usize = 4;

/// Smallest possible encoded snapshot: magic, version, and trailer with an empty payload.
pub const MIN_ENVELOPE_LEN: usize = 14;

/// The fields of an envelope.
#[verifier::ext_equal]
pub struct EnvelopeModel {
    /// Identifies the format.
    pub magic: Seq<u8>,
    /// Version of the layout.
    pub version: u16,
    /// Identifies the fold and its state format.
    pub tag: Seq<u8>,
    /// Whether the cursor is set.
    pub cursor_set: u8,
    /// Block of the cursor.
    pub cursor_block: u64,
    /// Log index of the cursor.
    pub cursor_log_index: u64,
    /// Numbers of the observed blocks.
    pub ring_numbers: Seq<u64>,
    /// Hashes of the observed blocks, one after the other.
    pub ring_hashes: Seq<u8>,
    /// State of the fold.
    pub state: Seq<u8>,
}

/// A length and the bytes it counts.
pub open spec fn counted_bytes(bytes: Seq<u8>) -> Seq<u8> {
    bytes::le_bytes(bytes.len(), 8) + bytes
}

/// Eight bytes per number.
pub open spec fn number_bytes(numbers: Seq<u64>) -> Seq<u8>
    decreases numbers.len(),
{
    if numbers.len() == 0 {
        Seq::empty()
    } else {
        number_bytes(numbers.drop_last()) + bytes::le_bytes(numbers.last() as nat, 8)
    }
}

/// A count and the numbers it counts.
pub open spec fn counted_numbers(numbers: Seq<u64>) -> Seq<u8> {
    bytes::le_bytes(numbers.len(), 8) + number_bytes(numbers)
}

/// The layout of an envelope: fixed-width little-endian integers, lengths as 64-bit counts.
pub open spec fn envelope_bytes(envelope: EnvelopeModel) -> Seq<u8> {
    envelope.magic + bytes::le_bytes(envelope.version as nat, 2) + counted_bytes(envelope.tag)
        + seq![envelope.cursor_set] + bytes::le_bytes(envelope.cursor_block as nat, 8)
        + bytes::le_bytes(envelope.cursor_log_index as nat, 8) + counted_numbers(
        envelope.ring_numbers,
    ) + counted_bytes(envelope.ring_hashes) + counted_bytes(envelope.state)
}

/// No length-bearing field takes more than `limit` bytes.
pub open spec fn fits_within(envelope: EnvelopeModel, limit: nat) -> bool {
    &&& envelope.magic.len() == MAGIC_LEN
    &&& envelope.tag.len() <= limit
    &&& 8 * envelope.ring_numbers.len() <= limit
    &&& envelope.ring_hashes.len() <= limit
    &&& envelope.state.len() <= limit
}

/// No length-bearing field exceeds the engine-owned ceiling.
pub open spec fn fits(envelope: EnvelopeModel) -> bool {
    fits_within(envelope, MAX_ENVELOPE_FIELD_LEN as nat)
}

/// True when `whole` starts with `part`.
pub open spec fn leads(part: Seq<u8>, whole: Seq<u8>) -> bool {
    part.len() <= whole.len() && whole.take(part.len() as int) == part
}

/// True when bytes start with an envelope within the limit.
pub open spec fn starts_envelope(payload: Seq<u8>, limit: nat) -> bool {
    exists|envelope: EnvelopeModel|
        fits_within(envelope, limit) && leads(#[trigger] envelope_bytes(envelope), payload)
}

/// The envelope that bytes start with.
pub open spec fn parsed(payload: Seq<u8>) -> Option<EnvelopeModel> {
    if starts_envelope(payload, MAX_ENVELOPE_FIELD_LEN as nat) {
        Some(
            choose|envelope: EnvelopeModel|
                fits(envelope) && leads(#[trigger] envelope_bytes(envelope), payload),
        )
    } else {
        None
    }
}

/// When two pairs of parts start the same bytes and their first parts have one length, the
/// first parts are equal and the second parts start the remainder.
pub proof fn lemma_split(a: Seq<u8>, rest_a: Seq<u8>, b: Seq<u8>, rest_b: Seq<u8>, whole: Seq<u8>)
    requires
        leads(a + rest_a, whole),
        leads(b + rest_b, whole),
        a.len() == b.len(),
    ensures
        a == b,
        leads(rest_a, whole.skip(a.len() as int)),
        leads(rest_b, whole.skip(a.len() as int)),
{
    let n = a.len() as int;
    assert(a =~= whole.take(n)) by {
        assert forall|i: int| 0 <= i < n implies a[i] == whole[i] by {
            assert((a + rest_a)[i] == a[i]);
            assert(whole.take((a + rest_a).len() as int)[i] == whole[i]);
        }
    }
    assert(b =~= whole.take(n)) by {
        assert forall|i: int| 0 <= i < n implies b[i] == whole[i] by {
            assert((b + rest_b)[i] == b[i]);
            assert(whole.take((b + rest_b).len() as int)[i] == whole[i]);
        }
    }
    let tail = whole.skip(n);
    assert(rest_a =~= tail.take(rest_a.len() as int)) by {
        assert forall|i: int| 0 <= i < rest_a.len() implies rest_a[i] == tail[i] by {
            assert((a + rest_a)[n + i] == rest_a[i]);
            assert(whole.take((a + rest_a).len() as int)[n + i] == whole[n + i]);
        }
    }
    assert(rest_b =~= tail.take(rest_b.len() as int)) by {
        assert forall|i: int| 0 <= i < rest_b.len() implies rest_b[i] == tail[i] by {
            assert((b + rest_b)[n + i] == rest_b[i]);
            assert(whole.take((b + rest_b).len() as int)[n + i] == whole[n + i]);
        }
    }
}

/// Two integers of one width that start the same bytes are equal.
pub proof fn lemma_split_le(
    a: nat,
    rest_a: Seq<u8>,
    b: nat,
    rest_b: Seq<u8>,
    width: nat,
    whole: Seq<u8>,
)
    requires
        a < bytes::byte_range(width),
        b < bytes::byte_range(width),
        leads(bytes::le_bytes(a, width) + rest_a, whole),
        leads(bytes::le_bytes(b, width) + rest_b, whole),
    ensures
        a == b,
        leads(rest_a, whole.skip(width as int)),
        leads(rest_b, whole.skip(width as int)),
{
    bytes::lemma_le_value(a, width);
    bytes::lemma_le_value(b, width);
    lemma_split(bytes::le_bytes(a, width), rest_a, bytes::le_bytes(b, width), rest_b, whole);
}

/// Two counted byte strings that start the same bytes are equal.
pub proof fn lemma_split_counted(
    a: Seq<u8>,
    rest_a: Seq<u8>,
    b: Seq<u8>,
    rest_b: Seq<u8>,
    whole: Seq<u8>,
)
    requires
        a.len() <= MAX_ENVELOPE_FIELD_LEN,
        b.len() <= MAX_ENVELOPE_FIELD_LEN,
        leads(counted_bytes(a) + rest_a, whole),
        leads(counted_bytes(b) + rest_b, whole),
    ensures
        a == b,
        leads(rest_a, whole.skip(8 + a.len() as int)),
        leads(rest_b, whole.skip(8 + a.len() as int)),
{
    bytes::lemma_byte_ranges();
    assert(counted_bytes(a) + rest_a =~= bytes::le_bytes(a.len(), 8) + (a + rest_a));
    assert(counted_bytes(b) + rest_b =~= bytes::le_bytes(b.len(), 8) + (b + rest_b));
    lemma_split_le(a.len(), a + rest_a, b.len(), b + rest_b, 8, whole);
    lemma_split(a, rest_a, b, rest_b, whole.skip(8));
    bytes::lemma_le_value(a.len(), 8);
    assert((counted_bytes(a) + rest_a).len() == 8 + a.len() + rest_a.len());
    assert(whole.skip(8).skip(a.len() as int) =~= whole.skip(8 + a.len() as int));
}

/// The length of numbers in bytes.
pub proof fn lemma_number_bytes_len(numbers: Seq<u64>)
    ensures
        number_bytes(numbers).len() == 8 * numbers.len(),
    decreases numbers.len(),
{
    if numbers.len() > 0 {
        bytes::lemma_byte_ranges();
        lemma_number_bytes_len(numbers.drop_last());
        bytes::lemma_le_value(numbers.last() as nat, 8);
    }
}

/// Numbers with the same bytes are the same numbers.
pub proof fn lemma_number_bytes_injective(a: Seq<u64>, b: Seq<u64>)
    requires
        a.len() == b.len(),
        number_bytes(a) == number_bytes(b),
    ensures
        a == b,
    decreases a.len(),
{
    if a.len() > 0 {
        bytes::lemma_byte_ranges();
        lemma_number_bytes_len(a.drop_last());
        lemma_number_bytes_len(b.drop_last());
        let n = number_bytes(a.drop_last()).len() as int;
        assert(number_bytes(a).take(n) =~= number_bytes(a.drop_last()));
        assert(number_bytes(b).take(n) =~= number_bytes(b.drop_last()));
        lemma_number_bytes_injective(a.drop_last(), b.drop_last());
        assert(number_bytes(a).skip(n) =~= bytes::le_bytes(a.last() as nat, 8));
        assert(number_bytes(b).skip(n) =~= bytes::le_bytes(b.last() as nat, 8));
        bytes::lemma_le_value(a.last() as nat, 8);
        bytes::lemma_le_value(b.last() as nat, 8);
        assert(a =~= a.drop_last().push(a.last()));
        assert(b =~= b.drop_last().push(b.last()));
    } else {
        assert(a =~= b);
    }
}

/// Two counted number lists that start the same bytes are equal.
pub proof fn lemma_split_numbers(
    a: Seq<u64>,
    rest_a: Seq<u8>,
    b: Seq<u64>,
    rest_b: Seq<u8>,
    whole: Seq<u8>,
)
    requires
        a.len() <= MAX_ENVELOPE_FIELD_LEN,
        b.len() <= MAX_ENVELOPE_FIELD_LEN,
        leads(counted_numbers(a) + rest_a, whole),
        leads(counted_numbers(b) + rest_b, whole),
    ensures
        a == b,
        leads(rest_a, whole.skip(8 + 8 * a.len() as int)),
        leads(rest_b, whole.skip(8 + 8 * a.len() as int)),
{
    bytes::lemma_byte_ranges();
    let na = number_bytes(a);
    let nb = number_bytes(b);
    assert(counted_numbers(a) + rest_a =~= bytes::le_bytes(a.len(), 8) + (na + rest_a));
    assert(counted_numbers(b) + rest_b =~= bytes::le_bytes(b.len(), 8) + (nb + rest_b));
    lemma_split_le(a.len(), na + rest_a, b.len(), nb + rest_b, 8, whole);
    lemma_number_bytes_len(a);
    lemma_number_bytes_len(b);
    lemma_split(na, rest_a, nb, rest_b, whole.skip(8));
    lemma_number_bytes_injective(a, b);
    assert(whole.skip(8).skip(8 * a.len() as int) =~= whole.skip(8 + 8 * a.len() as int));
}

/// The layout from the tag on.
spec fn from_tag(e: EnvelopeModel) -> Seq<u8> {
    counted_bytes(e.tag) + from_cursor_set(e)
}

/// The layout from the cursor flag on.
spec fn from_cursor_set(e: EnvelopeModel) -> Seq<u8> {
    seq![e.cursor_set] + from_cursor_block(e)
}

/// The layout from the cursor block on.
spec fn from_cursor_block(e: EnvelopeModel) -> Seq<u8> {
    bytes::le_bytes(e.cursor_block as nat, 8) + from_cursor_log_index(e)
}

/// The layout from the cursor log index on.
spec fn from_cursor_log_index(e: EnvelopeModel) -> Seq<u8> {
    bytes::le_bytes(e.cursor_log_index as nat, 8) + from_numbers(e)
}

/// The layout from the ring numbers on.
spec fn from_numbers(e: EnvelopeModel) -> Seq<u8> {
    counted_numbers(e.ring_numbers) + from_hashes(e)
}

/// The layout from the ring hashes on.
spec fn from_hashes(e: EnvelopeModel) -> Seq<u8> {
    counted_bytes(e.ring_hashes) + from_state(e)
}

/// The layout from the state on.
spec fn from_state(e: EnvelopeModel) -> Seq<u8> {
    counted_bytes(e.state) + Seq::<u8>::empty()
}

proof fn lemma_layout(e: EnvelopeModel)
    ensures
        envelope_bytes(e) == e.magic + (bytes::le_bytes(e.version as nat, 2) + from_tag(e)),
{
    assert(envelope_bytes(e) =~= e.magic + (bytes::le_bytes(e.version as nat, 2) + from_tag(e)));
}

/// Bytes start with at most one envelope.
pub proof fn lemma_parsed(envelope: EnvelopeModel, payload: Seq<u8>)
    requires
        fits(envelope),
        leads(envelope_bytes(envelope), payload),
    ensures
        parsed(payload) == Some(envelope),
{
    assert(starts_envelope(payload, MAX_ENVELOPE_FIELD_LEN as nat));
    let other = choose|e: EnvelopeModel| fits(e) && leads(#[trigger] envelope_bytes(e), payload);
    lemma_unique(envelope, other, payload);
}

proof fn lemma_unique(a: EnvelopeModel, b: EnvelopeModel, payload: Seq<u8>)
    requires
        fits(a),
        fits(b),
        leads(envelope_bytes(a), payload),
        leads(envelope_bytes(b), payload),
    ensures
        a == b,
{
    bytes::lemma_byte_ranges();
    lemma_layout(a);
    lemma_layout(b);
    lemma_split(
        a.magic,
        bytes::le_bytes(a.version as nat, 2) + from_tag(a),
        b.magic,
        bytes::le_bytes(b.version as nat, 2) + from_tag(b),
        payload,
    );
    let p1 = payload.skip(MAGIC_LEN as int);
    lemma_split_le(a.version as nat, from_tag(a), b.version as nat, from_tag(b), 2, p1);
    let p2 = p1.skip(2);
    lemma_split_counted(a.tag, from_cursor_set(a), b.tag, from_cursor_set(b), p2);
    let p3 = p2.skip(8 + a.tag.len() as int);
    lemma_split(
        seq![a.cursor_set],
        from_cursor_block(a),
        seq![b.cursor_set],
        from_cursor_block(b),
        p3,
    );
    assert(seq![a.cursor_set][0] == seq![b.cursor_set][0]);
    let p4 = p3.skip(1);
    lemma_split_le(
        a.cursor_block as nat,
        from_cursor_log_index(a),
        b.cursor_block as nat,
        from_cursor_log_index(b),
        8,
        p4,
    );
    let p5 = p4.skip(8);
    lemma_split_le(
        a.cursor_log_index as nat,
        from_numbers(a),
        b.cursor_log_index as nat,
        from_numbers(b),
        8,
        p5,
    );
    let p6 = p5.skip(8);
    lemma_split_numbers(a.ring_numbers, from_hashes(a), b.ring_numbers, from_hashes(b), p6);
    let p7 = p6.skip(8 + 8 * a.ring_numbers.len() as int);
    lemma_split_counted(a.ring_hashes, from_state(a), b.ring_hashes, from_state(b), p7);
    let p8 = p7.skip(8 + a.ring_hashes.len() as int);
    lemma_split_counted(a.state, Seq::empty(), b.state, Seq::empty(), p8);
    assert(a =~= b);
}

} // verus!
