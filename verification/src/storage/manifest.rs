//! Fixed 64-byte manifest slot: version, cursor, snapshot id, CRC32C trailer.
use vstd::prelude::*;

use crate::bytes;
use crate::bytes::{push_le, read_le};
use crate::checksum;
use crate::position::Position;
use crate::snapshot::crc32c;

verus! {

/// Byte offset of the cursor-present flag.
pub const CURSOR_FLAG_OFFSET: usize = 8;

/// Byte offset of the cursor block.
pub const CURSOR_BLOCK_OFFSET: usize = 9;

/// Byte offset of the cursor log index.
pub const CURSOR_LOG_INDEX_OFFSET: usize = 17;

/// Byte offset of the snapshot id.
pub const SNAPSHOT_ID_OFFSET: usize = 25;

/// Byte length of the fields before the zero padding.
pub const FIELDS_LEN: usize = 33;

/// Byte length of the CRC-covered region: every field up to the zero padding.
pub const CRC_COVERED_LEN: usize = 60;

/// Byte length of one encoded manifest slot.
pub const SLOT_SIZE: usize = 64;

/// Byte offset between the two slots: one page, so they never share a failure domain.
pub const SLOT_STRIDE: usize = 4096;

/// Byte length of the whole manifest: the second slot one stride in.
pub const MANIFEST_SIZE: usize = 4160;

/// One manifest slot: durability version, cursor position, and active snapshot id.
#[derive(Debug, Clone, Copy, PartialEq, Eq, Structural)]
pub struct SlotRecord {
    /// Rises with each commit.
    pub version: u64,
    /// Cursor the committed snapshot had reached.
    pub cursor: Option<Position>,
    /// Id of the snapshot file.
    pub snapshot_id: u64,
}

/// The cursor flag and fields of a slot.
pub open spec fn cursor_fields(cursor: Option<Position>) -> (u8, u64, u64) {
    match cursor {
        Some(pos) => (1, pos.block, pos.log_index),
        None => (0, 0, 0),
    }
}

/// A run of zero bytes.
pub open spec fn zeros(len: nat) -> Seq<u8> {
    Seq::new(len, |i: int| 0u8)
}

/// The fields of a slot before its padding.
pub open spec fn slot_fields(record: SlotRecord) -> Seq<u8> {
    let (flag, block, log_index) = cursor_fields(record.cursor);
    bytes::le_bytes(record.version as nat, 8) + seq![flag] + bytes::le_bytes(block as nat, 8)
        + bytes::le_bytes(log_index as nat, 8) + bytes::le_bytes(record.snapshot_id as nat, 8)
}

/// The region of a slot that the checksum covers.
pub open spec fn slot_body(record: SlotRecord) -> Seq<u8> {
    slot_fields(record) + zeros((CRC_COVERED_LEN - FIELDS_LEN) as nat)
}

/// A slot under the checksum `crc`.
pub open spec fn slot_bytes(record: SlotRecord, crc: u32) -> Seq<u8> {
    slot_body(record) + bytes::le_bytes(crc as nat, 4)
}

/// The cursor that a slot's flag and fields give, with `None` for a bad flag.
pub open spec fn slot_cursor(flag: u8, block: u64, log_index: u64) -> Option<Option<Position>> {
    if flag == 0 {
        Some(None)
    } else if flag == 1 {
        Some(Some(Position { block, log_index }))
    } else {
        None
    }
}

/// The record in bytes whose covered region has the checksum `crc`, if they hold one.
pub open spec fn slot_in(bytes: Seq<u8>, crc: u32) -> Option<SlotRecord> {
    if bytes.len() != SLOT_SIZE || bytes::le_value(bytes.subrange(60, 64)) != crc {
        None
    } else {
        match slot_cursor(
            bytes[CURSOR_FLAG_OFFSET as int],
            bytes::le_value(bytes.subrange(9, 17)) as u64,
            bytes::le_value(bytes.subrange(17, 25)) as u64,
        ) {
            None => None,
            Some(cursor) => Some(
                SlotRecord {
                    version: bytes::le_value(bytes.subrange(0, 8)) as u64,
                    cursor,
                    snapshot_id: bytes::le_value(bytes.subrange(25, 33)) as u64,
                },
            ),
        }
    }
}

/// The checksum of a slot's covered region.
pub open spec fn slot_crc(bytes: Seq<u8>) -> u32 {
    checksum::crc32c_of(bytes.take(CRC_COVERED_LEN as int))
}

/// Splits a cursor into its slot flag and fields.
fn cursor_flag_and_fields(cursor: Option<Position>) -> (fields: (u8, u64, u64))
    ensures
        fields == cursor_fields(cursor),
{
    match cursor {
        Some(pos) => (1, pos.block, pos.log_index),
        None => (0, 0, 0),
    }
}

/// The lengths of a slot's parts.
pub proof fn lemma_slot_lengths(record: SlotRecord, crc: u32)
    ensures
        slot_fields(record).len() == FIELDS_LEN,
        slot_body(record).len() == CRC_COVERED_LEN,
        slot_bytes(record, crc).len() == SLOT_SIZE,
{
    let (flag, block, log_index) = cursor_fields(record.cursor);
    bytes::lemma_byte_ranges();
    bytes::lemma_le_value(record.version as nat, 8);
    bytes::lemma_le_value(block as nat, 8);
    bytes::lemma_le_value(log_index as nat, 8);
    bytes::lemma_le_value(record.snapshot_id as nat, 8);
    bytes::lemma_le_value(crc as nat, 4);
}

/// Encodes a slot into its fixed layout with a CRC32C trailer over bytes `0..60`.
pub fn encode_slot(record: &SlotRecord) -> (slot: [u8; 64])
    ensures
        slot@ == slot_bytes(*record, checksum::crc32c_of(slot_body(*record))),
{
    let (flag, block, log_index) = cursor_flag_and_fields(record.cursor);
    let mut body: Vec<u8> = Vec::new();
    push_le(&mut body, record.version, 8);
    body.push(flag);
    push_le(&mut body, block, 8);
    push_le(&mut body, log_index, 8);
    push_le(&mut body, record.snapshot_id, 8);
    assert(body@ =~= slot_fields(*record));
    proof {
        lemma_slot_lengths(*record, 0);
    }
    while body.len() < CRC_COVERED_LEN
        invariant
            FIELDS_LEN <= body@.len() <= CRC_COVERED_LEN,
            slot_fields(*record).len() == FIELDS_LEN,
            body@ == slot_fields(*record) + zeros((body@.len() - FIELDS_LEN) as nat),
        decreases CRC_COVERED_LEN - body@.len(),
    {
        body.push(0);
        assert(body@ =~= slot_fields(*record) + zeros((body@.len() - FIELDS_LEN) as nat));
    }
    assert(body@ =~= slot_body(*record));
    let crc = crc32c(body.as_slice());
    push_le(&mut body, crc as u64, 4);
    proof {
        lemma_slot_lengths(*record, crc);
    }
    let mut slot = [0u8;64];
    let mut i: usize = 0;
    while i < SLOT_SIZE
        invariant
            i <= SLOT_SIZE,
            body@.len() == SLOT_SIZE,
            forall|j: int| 0 <= j < i ==> slot@[j] == body@[j],
        decreases SLOT_SIZE - i,
    {
        slot[i] = body[i];
        i += 1;
    }
    assert(slot@ =~= body@);
    slot
}

/// Decodes a slot, returning None on bad length, bad CRC, or an invalid cursor flag.
pub fn decode_slot(bytes: &[u8]) -> (record: Option<SlotRecord>)
    ensures
        record == slot_in(bytes@, slot_crc(bytes@)),
{
    if bytes.len() != SLOT_SIZE {
        return None;
    }
    let covered = vstd::slice::slice_subrange(bytes, 0, CRC_COVERED_LEN);
    assert(covered@ =~= bytes@.take(CRC_COVERED_LEN as int));
    decode_slot_checked(bytes, crc32c(covered))
}

/// Decodes a slot whose covered region has the checksum `computed_crc`.
pub fn decode_slot_checked(bytes: &[u8], computed_crc: u32) -> (record: Option<SlotRecord>)
    ensures
        record == slot_in(bytes@, computed_crc),
{
    if bytes.len() != SLOT_SIZE {
        return None;
    }
    proof {
        bytes::lemma_byte_ranges();
    }
    let expected_crc = read_le(bytes, CRC_COVERED_LEN, 4) as u32;
    if computed_crc != expected_crc {
        return None;
    }
    let version = read_le(bytes, 0, 8);
    let block = read_le(bytes, CURSOR_BLOCK_OFFSET, 8);
    let log_index = read_le(bytes, CURSOR_LOG_INDEX_OFFSET, 8);
    let flag = bytes[CURSOR_FLAG_OFFSET];
    let cursor = if flag == 0 {
        None
    } else if flag == 1 {
        Some(Position::new(block, log_index))
    } else {
        return None;
    };
    let snapshot_id = read_le(bytes, SNAPSHOT_ID_OFFSET, 8);
    Some(SlotRecord { version, cursor, snapshot_id })
}

/// Decoding an encoded slot gives back its record.
pub proof fn law_slot_round_trips(record: SlotRecord, crc: u32)
    ensures
        slot_in(slot_bytes(record, crc), crc) == Some(record),
        slot_bytes(record, crc).take(CRC_COVERED_LEN as int) == slot_body(record),
{
    let (flag, block, log_index) = cursor_fields(record.cursor);
    let slot = slot_bytes(record, crc);
    bytes::lemma_byte_ranges();
    bytes::lemma_le_value(record.version as nat, 8);
    bytes::lemma_le_value(block as nat, 8);
    bytes::lemma_le_value(log_index as nat, 8);
    bytes::lemma_le_value(record.snapshot_id as nat, 8);
    bytes::lemma_le_value(crc as nat, 4);
    lemma_slot_lengths(record, crc);
    assert(slot.subrange(0, 8) =~= bytes::le_bytes(record.version as nat, 8));
    assert(slot[8] == flag);
    assert(slot.subrange(9, 17) =~= bytes::le_bytes(block as nat, 8));
    assert(slot.subrange(17, 25) =~= bytes::le_bytes(log_index as nat, 8));
    assert(slot.subrange(25, 33) =~= bytes::le_bytes(record.snapshot_id as nat, 8));
    assert(slot.subrange(60, 64) =~= bytes::le_bytes(crc as nat, 4));
    assert(slot.take(CRC_COVERED_LEN as int) =~= slot_body(record));
}

/// A valid slot with one byte changed is refused, whichever byte it is.
pub proof fn law_changed_byte_is_refused(slot: Seq<u8>, at: int, byte: u8)
    requires
        slot_in(slot, slot_crc(slot)) is Some,
        0 <= at < slot.len(),
        slot[at] != byte,
    ensures
        ({
            let changed = slot.update(at, byte);
            slot_in(changed, slot_crc(changed)) is None
        }),
{
    let changed = slot.update(at, byte);
    let covered = CRC_COVERED_LEN as int;
    bytes::lemma_le_bytes(slot.subrange(60, 64));
    bytes::lemma_le_bytes(changed.subrange(60, 64));
    if at < covered {
        checksum::law_changed_byte_changes_the_checksum(slot.take(covered), at, byte);
        assert(changed.take(covered) =~= slot.take(covered).update(at, byte));
        assert(changed.subrange(60, 64) =~= slot.subrange(60, 64));
    } else {
        assert(changed.take(covered) =~= slot.take(covered));
        assert(changed.subrange(60, 64)[at - 60] != slot.subrange(60, 64)[at - 60]);
    }
}

/// An encoded slot decodes to its record, and to nothing once any one byte of it is changed.
pub proof fn law_slot_survives_no_changed_byte(record: SlotRecord, at: int, byte: u8)
    requires
        0 <= at < SLOT_SIZE,
        slot_bytes(record, checksum::crc32c_of(slot_body(record)))[at] != byte,
    ensures
        ({
            let slot = slot_bytes(record, checksum::crc32c_of(slot_body(record)));
            let changed = slot.update(at, byte);
            &&& slot_in(slot, slot_crc(slot)) == Some(record)
            &&& slot_in(changed, slot_crc(changed)) is None
        }),
{
    let crc = checksum::crc32c_of(slot_body(record));
    lemma_slot_lengths(record, crc);
    law_slot_round_trips(record, crc);
    law_changed_byte_is_refused(slot_bytes(record, crc), at, byte);
}

} // verus!
