//! Engine-owned snapshot envelope: canonical bytes framed with a CRC32C trailer.
use vstd::prelude::*;
use vstd::string::*;

use crate::batch;
use crate::batch::{first_descent, Ordinal};
use crate::bytes;
use crate::bytes::{push_le, read_le, ByteSeq};
use crate::checkpoint;
use crate::checksum;
use crate::engine;
use crate::engine::{Engine, EngineConfig};
use crate::engine_model::EngineState;
use crate::error::ConfigError;
use crate::fold::Fold;
use crate::position::{BlockRef, Position};
use crate::ring;
use crate::ring::BlockRing;
use crate::snapshot_model;
use crate::snapshot_model::{
    EnvelopeModel, CRC_LEN, HASH_LEN, MAGIC_LEN, MAX_ENVELOPE_FIELD_LEN, MIN_ENVELOPE_LEN,
    SNAPSHOT_MAGIC, SNAPSHOT_VERSION,
};
use crate::text;
use crate::text::{push_decimal, push_hex, Describe};

verus! {

/// Fold state with a canonical byte encoding and an identity tag.
pub trait Persist: Fold {
    /// Identifies the fold type and its state format; mismatch refuses to load.
    const STATE_TAG: &'static str;

    /// Failure decoding state bytes back into the fold.
    type PersistError;

    /// The canonical bytes of the state.
    spec fn state_bytes(&self) -> ByteSeq;

    /// What decoding bytes may give; anything, unless the fold says more.
    open spec fn decodes(bytes: ByteSeq, result: Result<Self, Self::PersistError>) -> bool {
        true
    }

    /// Appends canonical state bytes; identical state must yield identical bytes.
    fn encode_state(&self, out: &mut Vec<u8>)
        ensures
            final(out)@ == old(out)@ + self.state_bytes(),
    ;

    /// Decodes state bytes produced by `encode_state`.
    fn decode_state(bytes: &[u8]) -> (result: Result<Self, Self::PersistError>)
        ensures
            Self::decodes(bytes@, result),
    ;
}

/// The fields of an envelope, in the order they are laid out: magic, version, tag, cursor
/// flag, cursor block, cursor log index, ring numbers, ring hashes, state.
pub type Envelope = ([u8; 8], u16, Vec<u8>, u8, u64, u64, Vec<u64>, Vec<u8>, Vec<u8>);

/// What the fields of an envelope hold.
pub open spec fn model_of(fields: Envelope) -> EnvelopeModel {
    EnvelopeModel {
        magic: fields.0@,
        version: fields.1,
        tag: fields.2@,
        cursor_set: fields.3,
        cursor_block: fields.4,
        cursor_log_index: fields.5,
        ring_numbers: fields.6@,
        ring_hashes: fields.7@,
        state: fields.8@,
    }
}

/// Write failure of the codec.
#[verifier::external_type_specification]
#[verifier::external_body]
pub struct ExWriteError(wincode::WriteError);

/// Read failure of the codec.
#[verifier::external_type_specification]
#[verifier::external_body]
pub struct ExReadError(wincode::ReadError);

/// `wincode::config::serialize_into` on the envelope fields, with a preallocation limit of
/// `LIMIT` bytes: it appends the fields in order, integers as fixed-width little-endian bytes
/// and vectors behind a 64-bit count. It fails exactly when the elements of a vector take more
/// than `LIMIT` bytes, and may then leave part of the fields behind what was there before.
#[verifier::external_body]
fn serialize_fields<const LIMIT: usize>(fields: &Envelope, out: &mut Vec<u8>) -> (result: Result<
    (),
    wincode::WriteError,
>)
    ensures
        result is Ok <==> snapshot_model::fits_within(model_of(*fields), LIMIT as nat),
        result is Ok ==> final(out)@ == old(out)@ + snapshot_model::envelope_bytes(
            model_of(*fields),
        ),
        snapshot_model::leads(old(out)@, final(out)@),
{
    let config = wincode::config::Configuration::<true, LIMIT>::new();
    wincode::config::serialize_into(out, fields, config)
}

/// `wincode::config::deserialize` into the envelope fields, with a preallocation limit of
/// `LIMIT` bytes: it reads the fields off the front of the bytes and ignores what follows
/// them. It fails exactly when the bytes start with no envelope within the limit.
#[verifier::external_body]
fn deserialize_fields<const LIMIT: usize>(payload: &[u8]) -> (result: Result<
    Envelope,
    wincode::ReadError,
>)
    ensures
        match result {
            Ok(fields) => snapshot_model::fits_within(model_of(fields), LIMIT as nat)
                && snapshot_model::leads(
                snapshot_model::envelope_bytes(model_of(fields)),
                payload@,
            ),
            Err(_) => !snapshot_model::starts_envelope(payload@, LIMIT as nat),
        },
{
    let config = wincode::config::Configuration::<true, LIMIT>::new();
    wincode::config::deserialize(payload, config)
}

/// `crc_fast::crc32_iscsi`: the CRC-32/ISCSI checksum of the bytes, with the polynomial
/// `0x1edc6f41`, both reflections, and a register that starts and ends on all bits flipped.
#[verifier::external_body]
fn crc32_iscsi(bytes: &[u8]) -> (crc: u32)
    ensures
        crc == checksum::crc32c_of(bytes@),
{
    crc_fast::crc32_iscsi(bytes)
}

/// Computes the CRC32C of a byte slice; the envelope trailer and manifest slots share it.
pub fn crc32c(bytes: &[u8]) -> (crc: u32)
    ensures
        crc == checksum::crc32c_of(bytes@),
{
    crc32_iscsi(bytes)
}

/// Errors from encoding or decoding a snapshot envelope.
#[derive(Debug, PartialEq, Eq)]
pub enum SnapshotError<E> {
    /// Input is shorter than magic, version, and trailer together.
    TooShort,
    /// Leading bytes are not `SNAPSHOT_MAGIC`.
    BadMagic,
    /// Wire format version differs from `SNAPSHOT_VERSION`.
    BadVersion {
        /// Version read from the input.
        got: u16,
    },
    /// State tag differs from the fold's `STATE_TAG`.
    BadTag,
    /// Trailer checksum disagrees with the payload.
    Crc {
        /// Checksum stored in the trailer.
        expected: u32,
        /// Checksum recomputed over the payload.
        got: u32,
    },
    /// Payload does not decode as an envelope.
    Envelope,
    /// An envelope field exceeds the engine-owned length ceiling.
    TooLarge {
        /// Longest field length the codec accepts, in bytes.
        limit: usize,
    },
    /// Stored ring holds more entries than the configured capacity.
    RingExceedsCapacity {
        /// Entries the stored ring holds.
        len: usize,
        /// Entries the configuration allows.
        capacity: usize,
    },
    /// Stored ring block numbers are not strictly ascending.
    RingNotAscending,
    /// Stored hash bytes do not match the ring entry count.
    RingHashLenMismatch,
    /// Stored ring's newest block differs from the stored cursor block.
    RingCursorMismatch,
    /// Caller configuration is invalid.
    Config(ConfigError),
    /// Fold refused its own state bytes.
    State(E),
}

impl<E: Describe> Describe for SnapshotError<E> {
    open spec fn text(&self) -> Seq<char> {
        match self {
            SnapshotError::TooShort => "snapshot is shorter than the minimum envelope size"@,
            SnapshotError::BadMagic => "snapshot magic bytes do not match"@,
            SnapshotError::BadVersion { got } => "snapshot version "@ + text::decimal(
                *got as nat,
            ) + " is unsupported"@,
            SnapshotError::BadTag => "snapshot state tag does not match the fold's tag"@,
            SnapshotError::Crc { expected, got } => "snapshot crc mismatch: expected 0x"@
                + text::hex_digits(*expected as nat, 8) + ", got 0x"@ + text::hex_digits(
                *got as nat,
                8,
            ),
            SnapshotError::Envelope => "snapshot envelope failed to decode"@,
            SnapshotError::TooLarge { limit } => "snapshot envelope field exceeds the "@
                + text::decimal(*limit as nat) + " byte limit"@,
            SnapshotError::RingExceedsCapacity { len, capacity } => "snapshot ring holds "@
                + text::decimal(*len as nat) + " entries, exceeding capacity "@ + text::decimal(
                *capacity as nat,
            ),
            SnapshotError::RingNotAscending =>
            "snapshot ring block numbers are not strictly ascending"@,
            SnapshotError::RingHashLenMismatch =>
            "snapshot ring hash bytes do not match the number of ring entries"@,
            SnapshotError::RingCursorMismatch =>
            "snapshot ring's newest block does not match the cursor block"@,
            SnapshotError::Config(error) => "snapshot config invalid: "@ + error.text(),
            SnapshotError::State(error) => "snapshot state failed to decode: "@ + error.text(),
        }
    }

    fn describe(&self) -> (text: String) {
        match self {
            SnapshotError::TooShort => String::from_str(
                "snapshot is shorter than the minimum envelope size",
            ),
            SnapshotError::BadMagic => String::from_str("snapshot magic bytes do not match"),
            SnapshotError::BadVersion { got } => {
                let mut out = String::from_str("snapshot version ");
                push_decimal(&mut out, *got as u64);
                out.append(" is unsupported");
                out
            },
            SnapshotError::BadTag => String::from_str(
                "snapshot state tag does not match the fold's tag",
            ),
            SnapshotError::Crc { expected, got } => {
                let mut out = String::from_str("snapshot crc mismatch: expected 0x");
                push_hex(&mut out, *expected as u64, 8);
                out.append(", got 0x");
                push_hex(&mut out, *got as u64, 8);
                out
            },
            SnapshotError::Envelope => String::from_str("snapshot envelope failed to decode"),
            SnapshotError::TooLarge { limit } => {
                let mut out = String::from_str("snapshot envelope field exceeds the ");
                push_decimal(&mut out, *limit as u64);
                out.append(" byte limit");
                out
            },
            SnapshotError::RingExceedsCapacity { len, capacity } => {
                let mut out = String::from_str("snapshot ring holds ");
                push_decimal(&mut out, *len as u64);
                out.append(" entries, exceeding capacity ");
                push_decimal(&mut out, *capacity as u64);
                out
            },
            SnapshotError::RingNotAscending => String::from_str(
                "snapshot ring block numbers are not strictly ascending",
            ),
            SnapshotError::RingHashLenMismatch => String::from_str(
                "snapshot ring hash bytes do not match the number of ring entries",
            ),
            SnapshotError::RingCursorMismatch => String::from_str(
                "snapshot ring's newest block does not match the cursor block",
            ),
            SnapshotError::Config(error) => {
                let mut out = String::from_str("snapshot config invalid: ");
                out.append(error.describe().as_str());
                out
            },
            SnapshotError::State(error) => {
                let mut out = String::from_str("snapshot state failed to decode: ");
                out.append(error.describe().as_str());
                out
            },
        }
    }
}

/// Numbers of blocks, in order.
pub open spec fn number_lane(blocks: Seq<BlockRef>) -> Seq<u64> {
    blocks.map_values(|block: BlockRef| block.number)
}

/// Hash bytes of blocks, one after the other.
pub open spec fn hash_lane(blocks: Seq<BlockRef>) -> Seq<u8>
    decreases blocks.len(),
{
    if blocks.len() == 0 {
        Seq::empty()
    } else {
        hash_lane(blocks.drop_last()) + blocks.last().hash@
    }
}

/// The envelope of a fold's state, its cursor and its observed blocks.
pub open spec fn sealed<F: Persist>(
    fold: F,
    cursor: Option<Position>,
    blocks: Seq<BlockRef>,
) -> EnvelopeModel {
    EnvelopeModel {
        magic: SNAPSHOT_MAGIC@,
        version: SNAPSHOT_VERSION,
        tag: F::STATE_TAG.spec_bytes(),
        cursor_set: if cursor is Some {
            1
        } else {
            0
        },
        cursor_block: if cursor is Some {
            cursor->0.block
        } else {
            0
        },
        cursor_log_index: if cursor is Some {
            cursor->0.log_index
        } else {
            0
        },
        ring_numbers: number_lane(blocks),
        ring_hashes: hash_lane(blocks),
        state: fold.state_bytes(),
    }
}

/// A payload behind its checksum trailer.
pub open spec fn framed(payload: Seq<u8>, crc: u32) -> Seq<u8> {
    payload + bytes::le_bytes(crc as nat, 4)
}

/// The hash at an index of a hash lane.
pub open spec fn hash_of_lane(hashes: Seq<u8>, i: int) -> [u8; 32] {
    choose|hash: [u8; 32]| #[trigger] hash@ == hashes.subrange(32 * i, 32 * i + 32)
}

/// The blocks that the two lanes describe.
pub open spec fn blocks_of_lanes(numbers: Seq<u64>, hashes: Seq<u8>) -> Seq<BlockRef> {
    Seq::new(
        numbers.len(),
        |i: int| BlockRef { number: numbers[i], hash: hash_of_lane(hashes, i) },
    )
}

/// What a snapshot says of an engine.
#[verifier::ext_equal]
pub struct SnapshotParts {
    /// Cursor of the engine.
    pub cursor: Option<Position>,
    /// Observed blocks, oldest first.
    pub window: Seq<BlockRef>,
    /// State bytes of the fold.
    pub state: Seq<u8>,
}

/// The cursor of an envelope.
pub open spec fn cursor_of(envelope: EnvelopeModel) -> Option<Position> {
    if envelope.cursor_set != 0 {
        Some(
            Position { block: envelope.cursor_block, log_index: envelope.cursor_log_index },
        )
    } else {
        None
    }
}

/// Reads an envelope, or says why it is refused.
pub open spec fn opened<E>(envelope: EnvelopeModel, tag: Seq<u8>, capacity: usize) -> Result<
    SnapshotParts,
    SnapshotError<E>,
> {
    let numbers = envelope.ring_numbers;
    if envelope.tag != tag {
        Err(SnapshotError::BadTag)
    } else if numbers.len() > capacity {
        Err(SnapshotError::RingExceedsCapacity { len: numbers.len() as usize, capacity })
    } else if !batch::strictly_ascending(numbers.map_values(|number: u64| number.rank())) {
        Err(SnapshotError::RingNotAscending)
    } else if envelope.ring_hashes.len() != HASH_LEN * numbers.len() {
        Err(SnapshotError::RingHashLenMismatch)
    } else if cursor_of(envelope) is Some && (numbers.len() == 0 || numbers.last()
        != envelope.cursor_block) {
        Err(SnapshotError::RingCursorMismatch)
    } else {
        Ok(
            SnapshotParts {
                cursor: cursor_of(envelope),
                window: blocks_of_lanes(numbers, envelope.ring_hashes),
                state: envelope.state,
            },
        )
    }
}

/// The bytes before the trailer.
pub open spec fn payload_of(bytes: Seq<u8>) -> Seq<u8> {
    bytes.take(bytes.len() - CRC_LEN)
}

/// Reads snapshot bytes whose payload has the checksum `crc`, or says why they are refused.
pub open spec fn unframed<E>(
    bytes: Seq<u8>,
    crc: u32,
    tag: Seq<u8>,
    config: EngineConfig,
) -> Result<SnapshotParts, SnapshotError<E>> {
    match engine::config_error(config) {
        Some(error) => Err(SnapshotError::Config(error)),
        None => if bytes.len() < MIN_ENVELOPE_LEN {
            Err(SnapshotError::TooShort)
        } else if bytes.take(MAGIC_LEN as int) != SNAPSHOT_MAGIC@ {
            Err(SnapshotError::BadMagic)
        } else {
            let version = bytes::le_value(bytes.subrange(8, 10)) as u16;
            let expected = bytes::le_value(bytes.skip(bytes.len() - CRC_LEN)) as u32;
            if version != SNAPSHOT_VERSION {
                Err(SnapshotError::BadVersion { got: version })
            } else if crc != expected {
                Err(SnapshotError::Crc { expected, got: crc })
            } else {
                match snapshot_model::parsed(payload_of(bytes)) {
                    None => Err(SnapshotError::Envelope),
                    Some(envelope) => opened(envelope, tag, config.ring_capacity),
                }
            }
        },
    }
}

/// What rebuilding an engine from snapshot parts gives, with the fold's own reading of its
/// state bytes left to the fold.
pub open spec fn rebuilt<F: Persist>(
    parts: Result<SnapshotParts, SnapshotError<F::PersistError>>,
    config: EngineConfig,
    result: Result<Engine<F>, SnapshotError<F::PersistError>>,
) -> bool {
    match parts {
        Err(error) => result == Err::<Engine<F>, _>(error),
        Ok(parts) => match result {
            Ok(engine) => {
                &&& F::decodes(parts.state, Ok(engine.state().fold))
                &&& engine.wf()
                &&& engine.state() == (EngineState {
                    cursor: parts.cursor,
                    window: parts.window,
                    ..engine::genesis(
                        engine.state().fold,
                        config.ring_capacity as nat,
                        config.checkpoint_slots as nat,
                    )
                })
            },
            Err(error) => error matches SnapshotError::State(error) && F::decodes(
                parts.state,
                Err(error),
            ),
        },
    }
}

/// What sealing an envelope behind `out` gives.
pub open spec fn appended<T, E>(
    before: Seq<u8>,
    envelope: EnvelopeModel,
    after: Seq<u8>,
    value: T,
    result: Result<T, SnapshotError<E>>,
) -> bool {
    let payload = snapshot_model::envelope_bytes(envelope);
    if snapshot_model::fits(envelope) {
        &&& result == Ok::<T, SnapshotError<E>>(value)
        &&& after == before + framed(payload, checksum::crc32c_of(payload))
    } else {
        &&& result == Err::<T, _>(
            SnapshotError::<E>::TooLarge { limit: MAX_ENVELOPE_FIELD_LEN },
        )
        &&& after == before
    }
}

/// What sealing the oldest retained checkpoint of an engine behind `out` gives.
pub open spec fn durable_appended<F: Persist>(
    state: EngineState<F>,
    before: Seq<u8>,
    after: Seq<u8>,
    result: Result<Option<Position>, SnapshotError<F::PersistError>>,
) -> bool {
    match checkpoint::oldest_live(state.slots, state.window) {
        Some(slot) if slot.cursor is Some => appended(
            before,
            sealed(
                slot.fold,
                slot.cursor,
                ring::at_or_below(state.window, slot.cursor->0.block),
            ),
            after,
            slot.cursor,
            result,
        ),
        _ => result == Ok::<Option<Position>, SnapshotError<F::PersistError>>(None) && after
            == before,
    }
}

/// Compares two byte strings.
fn same_bytes(a: &[u8], b: &[u8]) -> (yes: bool)
    ensures
        yes == (a@ == b@),
{
    if a.len() != b.len() {
        return false;
    }
    let mut i: usize = 0;
    while i < a.len()
        invariant
            i <= a@.len(),
            a@.len() == b@.len(),
            forall|j: int| 0 <= j < i ==> a@[j] == b@[j],
        decreases a@.len() - i,
    {
        if a[i] != b[i] {
            return false;
        }
        i += 1;
    }
    assert(a@ =~= b@);
    true
}

/// Copies 32 bytes out of a hash lane.
fn hash_chunk(hashes: &[u8], at: usize) -> (hash: [u8; 32])
    requires
        at + 32 <= hashes@.len(),
    ensures
        hash@ == hashes@.subrange(at as int, at + 32),
{
    let total = hashes.len();
    let mut hash = [0u8;32];
    let mut i: usize = 0;
    while i < 32
        invariant
            i <= 32,
            at + 32 <= total,
            total == hashes@.len(),
            forall|j: int| 0 <= j < i ==> hash@[j] == hashes@[at + j],
        decreases 32 - i,
    {
        hash[i] = hashes[at + i];
        i += 1;
    }
    assert(hash@ =~= hashes@.subrange(at as int, at + 32));
    hash
}

/// Builds the ring lanes of an envelope from a block sequence.
fn ring_lanes(blocks: &Vec<BlockRef>) -> (lanes: (Vec<u64>, Vec<u8>))
    ensures
        lanes.0@ == number_lane(blocks@),
        lanes.1@ == hash_lane(blocks@),
{
    let mut numbers: Vec<u64> = Vec::new();
    let mut hashes: Vec<u8> = Vec::new();
    let mut i: usize = 0;
    assert(number_lane(blocks@.take(0)) =~= Seq::<u64>::empty());
    while i < blocks.len()
        invariant
            i <= blocks@.len(),
            numbers@ == number_lane(blocks@.take(i as int)),
            hashes@ == hash_lane(blocks@.take(i as int)),
        decreases blocks@.len() - i,
    {
        numbers.push(blocks[i].number);
        let hash = blocks[i].hash;
        let mut j: usize = 0;
        let ghost led = hashes@;
        while j < 32
            invariant
                j <= 32,
                hashes@ == led + hash@.take(j as int),
            decreases 32 - j,
        {
            hashes.push(hash[j]);
            j += 1;
            assert(hashes@ =~= led + hash@.take(j as int));
        }
        assert(hash@.take(32) =~= hash@);
        i += 1;
        assert(blocks@.take(i as int).drop_last() =~= blocks@.take(i - 1));
        assert(numbers@ =~= number_lane(blocks@.take(i as int)));
    }
    assert(blocks@.take(i as int) =~= blocks@);
    (numbers, hashes)
}

/// Splits a cursor into its envelope flag and fields.
fn cursor_fields(cursor: Option<Position>) -> (fields: (u8, u64, u64))
    ensures
        fields == (match cursor {
            Some(pos) => (1u8, pos.block, pos.log_index),
            None => (0u8, 0u64, 0u64),
        }),
{
    match cursor {
        Some(pos) => (1, pos.block, pos.log_index),
        None => (0, 0, 0),
    }
}

/// Serializes an envelope and appends its CRC32C trailer.
///
/// The codec refuses a field longer than `MAX_ENVELOPE_FIELD_LEN`, which is the only
/// way a fixed-shape envelope fails to serialize into a growable buffer.
pub fn write_envelope<E>(envelope: &Envelope, out: &mut Vec<u8>) -> (result: Result<
    (),
    SnapshotError<E>,
>)
    ensures
        appended(old(out)@, model_of(*envelope), final(out)@, (), result),
{
    let start = out.len();
    let ghost before = out@;
    match serialize_fields::<MAX_ENVELOPE_FIELD_LEN>(envelope, out) {
        Ok(()) => {},
        Err(_) => {
            out.truncate(start);
            assert(out@ =~= before);
            return Err(SnapshotError::TooLarge { limit: MAX_ENVELOPE_FIELD_LEN });
        },
    }
    let payload = vstd::slice::slice_subrange(out.as_slice(), start, out.len());
    assert(payload@ =~= snapshot_model::envelope_bytes(model_of(*envelope)));
    let crc = crc32c(payload);
    push_le(out, crc as u64, CRC_LEN);
    assert(out@ =~= before + framed(
        snapshot_model::envelope_bytes(model_of(*envelope)),
        crc,
    ));
    Ok(())
}

/// Builds and frames one envelope from fold state, cursor, and observed blocks.
fn encode_envelope<F: Persist>(
    fold: &F,
    cursor: Option<Position>,
    blocks: &Vec<BlockRef>,
    out: &mut Vec<u8>,
) -> (result: Result<(), SnapshotError<F::PersistError>>)
    ensures
        appended(old(out)@, sealed(*fold, cursor, blocks@), final(out)@, (), result),
{
    let (ring_numbers, ring_hashes) = ring_lanes(blocks);
    let (cursor_set, cursor_block, cursor_log_index) = cursor_fields(cursor);
    let mut state: Vec<u8> = Vec::new();
    fold.encode_state(&mut state);
    let tag = vstd::slice::slice_to_vec(F::STATE_TAG.as_bytes());
    let envelope: Envelope = (
        SNAPSHOT_MAGIC,
        SNAPSHOT_VERSION,
        tag,
        cursor_set,
        cursor_block,
        cursor_log_index,
        ring_numbers,
        ring_hashes,
        state,
    );
    assert(model_of(envelope) =~= sealed(*fold, cursor, blocks@));
    write_envelope(&envelope, out)
}

/// Rebuilds the observed ring from its lanes.
fn ring_from_lanes(numbers: &Vec<u64>, hashes: &Vec<u8>, capacity: usize) -> (ring: BlockRing)
    requires
        0 < capacity,
        numbers@.len() <= capacity,
        hashes@.len() == HASH_LEN * numbers@.len(),
        batch::strictly_ascending(numbers@.map_values(|number: u64| number.rank())),
    ensures
        ring.wf(),
        ring.limit() == capacity,
        ring@ == blocks_of_lanes(numbers@, hashes@),
{
    let mut ring = BlockRing::with_capacity(capacity);
    let ghost blocks = blocks_of_lanes(numbers@, hashes@);
    let ghost ranks = numbers@.map_values(|number: u64| number.rank());
    let total = hashes.len();
    let mut i: usize = 0;
    assert(blocks.take(0) =~= Seq::<BlockRef>::empty());
    while i < numbers.len()
        invariant
            i <= numbers@.len() <= capacity,
            total == hashes@.len(),
            hashes@.len() == HASH_LEN * numbers@.len(),
            blocks == blocks_of_lanes(numbers@, hashes@),
            ranks == numbers@.map_values(|number: u64| number.rank()),
            batch::strictly_ascending(ranks),
            ring.wf(),
            ring.limit() == capacity,
            ring@ == blocks.take(i as int),
        decreases numbers@.len() - i,
    {
        let at = HASH_LEN * i;
        let hash = hash_chunk(hashes.as_slice(), at);
        let block = BlockRef { number: numbers[i], hash };
        proof {
            let named = hash_of_lane(hashes@, i as int);
            assert(hash@ == hashes@.subrange(32 * i as int, 32 * i as int + 32));
            assert(named@ == hash@);
            assert(named =~= hash);
            assert(blocks[i as int] == block);
            if i > 0 {
                assert(ring@.last() == blocks[i - 1]);
                assert(ranks[i - 1] < ranks[i as int]);
            }
        }
        ring.push(block);
        i += 1;
        assert(ring@ =~= blocks.take(i as int));
    }
    assert(blocks.take(i as int) =~= blocks);
    ring
}

impl<F: Persist> Engine<F> {
    /// Appends the framed envelope: codec payload plus a CRC32C trailer.
    ///
    /// Fails with `TooLarge` when a field exceeds the engine-owned length ceiling,
    /// leaving `out` as it found it.
    pub fn encode_snapshot(&self, out: &mut Vec<u8>) -> (result: Result<
        (),
        SnapshotError<F::PersistError>,
    >)
        requires
            self.wf(),
        ensures
            appended(
                old(out)@,
                sealed(self.state().fold, self.state().cursor, self.state().window),
                final(out)@,
                (),
                result,
            ),
    {
        let blocks = self.observed().to_vec();
        encode_envelope(self.fold(), self.cursor(), &blocks, out)
    }

    /// Encodes the oldest retained checkpoint; Ok(None) means nothing is retained and
    /// nothing was appended.
    ///
    /// The returned point is the encoded snapshot's cursor, trailing the live cursor by
    /// the ring's checkpoint coverage.
    pub fn encode_durable_snapshot(&self, out: &mut Vec<u8>) -> (result: Result<
        Option<Position>,
        SnapshotError<F::PersistError>,
    >)
        requires
            self.wf(),
        ensures
            durable_appended(self.state(), old(out)@, final(out)@, result),
    {
        let slot = match self.oldest_checkpoint() {
            Some(slot) => slot,
            None => return Ok(None),
        };
        let point = match slot.cursor {
            Some(point) => point,
            None => return Ok(None),
        };
        let mut blocks = self.observed().to_vec();
        let ghost window = blocks@;
        while blocks.len() > 0 && blocks[blocks.len() - 1].number > point.block
            invariant
                ring::count_at_or_below(blocks@, point.block) == ring::count_at_or_below(
                    window,
                    point.block,
                ),
                blocks@.len() <= window.len(),
                blocks@ == window.take(blocks@.len() as int),
            decreases blocks@.len(),
        {
            let ghost here = blocks@;
            blocks.pop();
            assert(blocks@ =~= here.drop_last());
            assert(blocks@ =~= window.take(blocks@.len() as int));
        }
        assert(blocks@ =~= ring::at_or_below(window, point.block));
        match encode_envelope(&slot.fold, slot.cursor, &blocks, out) {
            Ok(()) => Ok(Some(point)),
            Err(error) => Err(error),
        }
    }

    /// Rebuilds an engine from an envelope; checkpoints, skips, freshness start empty.
    pub fn decode_snapshot(bytes: &[u8], config: EngineConfig) -> (result: Result<
        Self,
        SnapshotError<F::PersistError>,
    >)
        ensures
            rebuilt(
                unframed(
                    bytes@,
                    checksum::crc32c_of(payload_of(bytes@)),
                    F::STATE_TAG.spec_bytes(),
                    config,
                ),
                config,
                result,
            ),
    {
        if bytes.len() < CRC_LEN {
            return Self::decode_checked(bytes, 0, config);
        }
        let payload = vstd::slice::slice_subrange(bytes, 0, bytes.len() - CRC_LEN);
        assert(payload@ =~= payload_of(bytes@));
        Self::decode_checked(bytes, crc32c(payload), config)
    }

    /// Rebuilds an engine from an envelope whose payload has the checksum `computed_crc`.
    pub fn decode_checked(bytes: &[u8], computed_crc: u32, config: EngineConfig) -> (result: Result<
        Self,
        SnapshotError<F::PersistError>,
    >)
        ensures
            rebuilt(
                unframed(bytes@, computed_crc, F::STATE_TAG.spec_bytes(), config),
                config,
                result,
            ),
    {
        match config.validate() {
            Ok(()) => {},
            Err(error) => return Err(SnapshotError::Config(error)),
        }
        let len = bytes.len();
        if len < MIN_ENVELOPE_LEN {
            return Err(SnapshotError::TooShort);
        }
        let lead = vstd::slice::slice_subrange(bytes, 0, MAGIC_LEN);
        assert(lead@ =~= bytes@.take(MAGIC_LEN as int));
        if !same_bytes(lead, &SNAPSHOT_MAGIC) {
            return Err(SnapshotError::BadMagic);
        }
        proof {
            bytes::lemma_byte_ranges();
        }
        let version = read_le(bytes, MAGIC_LEN, 2) as u16;
        if version != SNAPSHOT_VERSION {
            return Err(SnapshotError::BadVersion { got: version });
        }
        let expected_crc = read_le(bytes, len - CRC_LEN, CRC_LEN) as u32;
        assert(bytes@.subrange(len - CRC_LEN, len as int) =~= bytes@.skip(len - CRC_LEN));
        if computed_crc != expected_crc {
            return Err(SnapshotError::Crc { expected: expected_crc, got: computed_crc });
        }
        let payload = vstd::slice::slice_subrange(bytes, 0, len - CRC_LEN);
        assert(payload@ =~= payload_of(bytes@));
        let envelope = match deserialize_fields::<MAX_ENVELOPE_FIELD_LEN>(payload) {
            Ok(fields) => fields,
            Err(_) => return Err(SnapshotError::Envelope),
        };
        proof {
            snapshot_model::lemma_parsed(model_of(envelope), payload@);
        }
        Self::decode_envelope(&envelope, config)
    }

    /// Rebuilds an engine from the fields of an envelope.
    pub fn decode_envelope(envelope: &Envelope, config: EngineConfig) -> (result: Result<
        Self,
        SnapshotError<F::PersistError>,
    >)
        requires
            engine::config_error(config) is None,
        ensures
            rebuilt(
                opened(model_of(*envelope), F::STATE_TAG.spec_bytes(), config.ring_capacity),
                config,
                result,
            ),
    {
        let (_, _, tag, cursor_set, cursor_block, cursor_log_index, ring_numbers, ring_hashes,
            state) = envelope;
        if !same_bytes(tag.as_slice(), F::STATE_TAG.as_bytes()) {
            return Err(SnapshotError::BadTag);
        }
        if ring_numbers.len() > config.ring_capacity {
            return Err(
                SnapshotError::RingExceedsCapacity {
                    len: ring_numbers.len(),
                    capacity: config.ring_capacity,
                },
            );
        }
        let found = first_descent(ring_numbers.as_slice());
        proof {
            batch::lemma_descent(ring_numbers@.map_values(|number: u64| number.rank()));
        }
        if found.is_some() {
            return Err(SnapshotError::RingNotAscending);
        }
        if ring_hashes.len() != HASH_LEN * ring_numbers.len() {
            return Err(SnapshotError::RingHashLenMismatch);
        }
        let cursor = if *cursor_set != 0 {
            Some(Position::new(*cursor_block, *cursor_log_index))
        } else {
            None
        };
        if cursor.is_some() && (ring_numbers.len() == 0 || ring_numbers[ring_numbers.len() - 1]
            != *cursor_block) {
            return Err(SnapshotError::RingCursorMismatch);
        }
        let fold = match F::decode_state(state.as_slice()) {
            Ok(fold) => fold,
            Err(error) => return Err(SnapshotError::State(error)),
        };
        let ring = ring_from_lanes(ring_numbers, ring_hashes, config.ring_capacity);
        match Engine::new(fold, config) {
            Ok(mut engine) => {
                engine.restore_cursor_and_ring(cursor, ring);
                Ok(engine)
            },
            Err(error) => Err(SnapshotError::Config(error)),
        }
    }
}

} // verus!
