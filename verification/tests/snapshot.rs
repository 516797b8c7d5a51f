use chainfold::bytes::ByteSeq;
use chainfold::snapshot::{crc32c, write_envelope, Envelope};
use chainfold::{
    Batch, BlockRef, ConfigError, Describe, Engine, EngineConfig, Fold, FoldError, Persist,
    Position, SnapshotError, SNAPSHOT_MAGIC, SNAPSHOT_VERSION,
};

/// Fold that records every applied event and can fail on a scripted position.
#[derive(Debug, Clone, Default, PartialEq)]
pub struct RecordingFold {
    /// Every position the fold accepted, with its event.
    pub applied: Vec<(Position, u64)>,
    /// Position the fold fails at, and how.
    pub fail_at: Option<(Position, FailKind)>,
}

/// Scripted failure the recording fold raises at its `fail_at` position.
#[derive(Debug, Clone, Copy, PartialEq, Eq)]
pub enum FailKind {
    /// Declares the event not mine.
    Skip,
    /// Refuses the event with clean state below it.
    Halt,
    /// Records the event, then refuses it.
    Poison,
}

impl Fold for RecordingFold {
    type Event = u64;
    type View = Vec<(Position, u64)>;
    type Error = FailKind;

    fn apply(&mut self, pos: Position, event: &u64) -> Result<(), FoldError<FailKind>> {
        if let Some((scripted_pos, kind)) = self.fail_at {
            if scripted_pos == pos {
                return match kind {
                    FailKind::Skip => Err(FoldError::Skip(kind)),
                    FailKind::Halt => Err(FoldError::Halt(kind)),
                    FailKind::Poison => {
                        self.applied.push((pos, *event));
                        Err(FoldError::Poison(kind))
                    }
                };
            }
        }
        self.applied.push((pos, *event));
        Ok(())
    }

    fn view(&self) -> Vec<(Position, u64)> {
        self.applied.clone()
    }
}

impl Persist for RecordingFold {
    const STATE_TAG: &'static str = "chainfold.test.recording";
    type PersistError = ();

    fn state_bytes(&self) -> ByteSeq {
        unreachable!("only contracts speak of it")
    }

    fn encode_state(&self, out: &mut Vec<u8>) {
        let count = u64::try_from(self.applied.len()).expect("recorded entry count fits in u64");
        out.extend_from_slice(&count.to_le_bytes());
        for (pos, event) in &self.applied {
            out.extend_from_slice(&pos.block.to_le_bytes());
            out.extend_from_slice(&pos.log_index.to_le_bytes());
            out.extend_from_slice(&event.to_le_bytes());
        }
    }

    fn decode_state(bytes: &[u8]) -> Result<Self, ()> {
        const ENTRY_LEN: usize = 24;
        let (count, entries) = bytes.split_first_chunk::<8>().ok_or(())?;
        let count = usize::try_from(u64::from_le_bytes(*count)).map_err(|_| ())?;
        if entries.len() != count.checked_mul(ENTRY_LEN).ok_or(())? {
            return Err(());
        }
        // The length check above makes every chunk exactly three 8-byte lanes.
        let lane = |e: &[u8], i: usize| {
            u64::from_le_bytes(e[i * 8..][..8].try_into().expect("three lanes"))
        };
        let entry = |e: &[u8]| (Position::new(lane(e, 0), lane(e, 1)), lane(e, 2));
        Ok(Self {
            applied: entries.chunks_exact(ENTRY_LEN).map(entry).collect(),
            fail_at: None,
        })
    }
}

/// Hand-builds and frames an envelope with caller-chosen fields.
fn encode_custom(tag: &[u8], cursor: Option<Position>, ring: &[BlockRef], state: Vec<u8>) -> Vec<u8> {
    let ring_numbers: Vec<u64> = ring.iter().map(|block| block.number).collect();
    let mut ring_hashes = Vec::new();
    for block in ring {
        ring_hashes.extend_from_slice(&block.hash);
    }
    let (cursor_set, cursor_block, cursor_log_index) = match cursor {
        Some(pos) => (1, pos.block, pos.log_index),
        None => (0, 0, 0),
    };
    let envelope: Envelope = (
        SNAPSHOT_MAGIC,
        SNAPSHOT_VERSION,
        tag.to_vec(),
        cursor_set,
        cursor_block,
        cursor_log_index,
        ring_numbers,
        ring_hashes,
        state,
    );
    let mut out = Vec::new();
    write_envelope::<()>(&envelope, &mut out).expect("test envelope fits the limit");
    out
}


const CRC_LEN: usize = 4;

fn block(number: u64, salt: u8) -> BlockRef {
    let mut hash = [0u8; 32];
    hash[..8].copy_from_slice(&number.to_le_bytes());
    hash[8] = salt;
    BlockRef { number, hash }
}

fn test_config() -> EngineConfig {
    EngineConfig {
        ring_capacity: 8,
        checkpoint_slots: 0,
    }
}

fn batch_of(boundary: Option<BlockRef>, spans: Vec<(BlockRef, Vec<u32>)>) -> Batch<u64> {
    let mut batch = Batch::new();
    for (block, log_indices) in spans {
        batch.push_block(
            block,
            log_indices.into_iter().map(|index| (index, u64::from(index))).collect(),
        );
    }
    batch.boundary = boundary;
    batch
}

fn test_engine() -> Engine<RecordingFold> {
    Engine::new(RecordingFold::default(), test_config()).unwrap()
}

fn checkpointed_config(slots: usize) -> EngineConfig {
    EngineConfig {
        ring_capacity: 8,
        checkpoint_slots: slots,
    }
}

/// Engine checkpointed at block 2, then folded on to block 4.
fn engine_checkpointed_at_block_two() -> Engine<RecordingFold> {
    let mut engine =
        Engine::new(RecordingFold::default(), checkpointed_config(2)).unwrap();
    engine
        .apply_batch(&batch_of(
            None,
            vec![(block(1, 0), vec![0]), (block(2, 0), vec![0])],
        ))
        .unwrap();
    engine
}

fn fold_on_to_block_four(engine: &mut Engine<RecordingFold>) {
    engine
        .apply_batch(&batch_of(
            Some(block(2, 0)),
            vec![(block(3, 0), vec![0]), (block(4, 0), vec![0])],
        ))
        .unwrap();
}

#[test]
fn crc32c_matches_the_iscsi_check_value() {
    // given the check input the CRC catalogue publishes for CRC-32/ISCSI
    let input = b"123456789";
    // when the configured backend hashes it
    let sum = crc32c(input);
    // then it is the published check value, so both backends frame the same bytes
    assert_eq!(sum, 0xe306_9283);
}

#[test]
fn encode_durable_snapshot_matches_a_snapshot_of_the_checkpointed_engine() {
    // given a snapshot captured at the block 2 checkpoint, then folding on to block 4
    let mut engine = engine_checkpointed_at_block_two();
    engine.checkpoint();
    let mut at_checkpoint = Vec::new();
    engine.encode_snapshot(&mut at_checkpoint).unwrap();
    fold_on_to_block_four(&mut engine);
    // when the durable snapshot encodes
    let mut durable = Vec::new();
    let point = engine.encode_durable_snapshot(&mut durable).unwrap();
    // then the bytes are identical and the point is the checkpoint's cursor
    assert_eq!(durable, at_checkpoint);
    assert_eq!(point, Some(Position::new(2, 0)));
}

#[test]
fn encode_durable_snapshot_without_checkpoints_appends_nothing() {
    // given an engine with no retained slots and one whose oldest slot has no cursor
    let empty = test_engine();
    let mut cursorless =
        Engine::new(RecordingFold::default(), checkpointed_config(2)).unwrap();
    cursorless.checkpoint();
    // when both encode into the same buffer
    let mut out = Vec::new();
    let empty_point = empty.encode_durable_snapshot(&mut out).unwrap();
    let cursorless_point = cursorless.encode_durable_snapshot(&mut out).unwrap();
    // then both report Ok(None) and the buffer is still empty
    assert_eq!(empty_point, None);
    assert_eq!(cursorless_point, None);
    assert!(out.is_empty());
}

#[test]
fn durable_snapshot_round_trips_through_decode() {
    // given a durable snapshot taken at the block 2 checkpoint after folding to block 4
    let mut engine = engine_checkpointed_at_block_two();
    engine.checkpoint();
    let checkpoint_view = engine.view();
    let checkpoint_ring: Vec<BlockRef> = engine.observed().to_vec();
    fold_on_to_block_four(&mut engine);
    let mut durable = Vec::new();
    engine.encode_durable_snapshot(&mut durable).unwrap();
    // when decoded with the same config
    let decoded =
        Engine::<RecordingFold>::decode_snapshot(&durable, checkpointed_config(2))
            .unwrap();
    // then cursor, view, and observed ring equal the checkpoint-time state
    assert_eq!(decoded.cursor(), Some(Position::new(2, 0)));
    assert_eq!(decoded.view(), checkpoint_view);
    assert_eq!(decoded.observed().to_vec(), checkpoint_ring);
}

#[test]
fn envelope_layout_pins_magic_and_version_offsets() {
    // given an encoded snapshot of a fresh engine
    let engine = test_engine();
    let mut bytes = Vec::new();
    engine.encode_snapshot(&mut bytes).unwrap();
    // when reading the fixed header offsets
    let magic = &bytes[0..8];
    let version = u16::from_le_bytes([bytes[8], bytes[9]]);
    // then bytes 0..8 equal SNAPSHOT_MAGIC and bytes 8..10 equal the version LE
    assert_eq!(magic, SNAPSHOT_MAGIC);
    assert_eq!(version, SNAPSHOT_VERSION);
}

#[test]
fn encode_decode_round_trips_cursor_ring_and_state() {
    // given an engine with applied events across two blocks
    let mut engine = test_engine();
    engine
        .apply_batch(&batch_of(
            None,
            vec![(block(1, 0), vec![0, 1]), (block(2, 0), vec![0])],
        ))
        .unwrap();
    let mut encoded = Vec::new();
    // when encoded and decoded with the same config
    engine.encode_snapshot(&mut encoded).unwrap();
    let decoded =
        Engine::<RecordingFold>::decode_snapshot(&encoded, test_config()).unwrap();
    // then cursor, observed ring, and view all match and a re-encode is byte-identical
    assert_eq!(decoded.cursor(), engine.cursor());
    assert_eq!(
        decoded.observed().to_vec(),
        engine.observed().to_vec()
    );
    assert_eq!(decoded.view(), engine.view());
    let mut re_encoded = Vec::new();
    decoded.encode_snapshot(&mut re_encoded).unwrap();
    assert_eq!(re_encoded, encoded);
}

#[test]
fn empty_engine_round_trips() {
    // given a fresh engine
    let engine = test_engine();
    let mut encoded = Vec::new();
    // when encoded and decoded
    engine.encode_snapshot(&mut encoded).unwrap();
    let decoded =
        Engine::<RecordingFold>::decode_snapshot(&encoded, test_config()).unwrap();
    // then cursor None and empty ring
    assert_eq!(decoded.cursor(), None);
    assert_eq!(decoded.observed().len(), 0);
}

#[test]
fn state_far_above_the_codec_default_limit_round_trips() {
    // given a fold state of 200_000 entries, well past a 4 MiB field
    const ENTRIES: u64 = 200_000;
    let applied = (0..ENTRIES)
        .map(|index| (Position::new(index + 1, 0), index))
        .collect::<Vec<_>>();
    let fold = RecordingFold {
        applied,
        fail_at: None,
    };
    let engine = Engine::new(fold, test_config()).unwrap();
    let mut encoded = Vec::new();
    // when encoded and decoded
    engine.encode_snapshot(&mut encoded).unwrap();
    let decoded =
        Engine::<RecordingFold>::decode_snapshot(&encoded, test_config()).unwrap();
    // then the payload exceeds 4 MiB and the view survives the round trip
    assert!(encoded.len() > 4 << 20);
    assert_eq!(decoded.view(), engine.view());
}

#[test]
fn invalid_config_is_refused_before_any_ring_allocation() {
    // given a valid envelope and a ring capacity that is not a power of two
    let engine = test_engine();
    let mut encoded = Vec::new();
    engine.encode_snapshot(&mut encoded).unwrap();
    let bad_config = EngineConfig {
        ring_capacity: 12,
        checkpoint_slots: 0,
    };
    // when decoded with it
    let result = Engine::<RecordingFold>::decode_snapshot(&encoded, bad_config);
    // then Config carries the typed capacity error, never a debug assertion
    assert_eq!(
        result.unwrap_err(),
        SnapshotError::Config(ConfigError::RingCapacityNotPowerOfTwo { got: 12 })
    );
}

#[test]
fn wrong_tag_is_refused_before_state_decode() {
    // given an envelope encoded for a fold with a different STATE_TAG
    let bytes = encode_custom(b"some-other-fold-tag", None, &[], Vec::new());
    // when decoded
    let result = Engine::<RecordingFold>::decode_snapshot(&bytes, test_config());
    // then BadTag
    assert_eq!(result.unwrap_err(), SnapshotError::BadTag);
}

#[test]
fn flipped_bit_fails_crc() {
    // given an encoded snapshot with one bit flipped in the payload
    let engine = test_engine();
    let mut bytes = Vec::new();
    engine.encode_snapshot(&mut bytes).unwrap();
    bytes[10] ^= 0x01;
    // when decoded
    let result = Engine::<RecordingFold>::decode_snapshot(&bytes, test_config());
    // then Crc
    assert!(matches!(result, Err(SnapshotError::Crc { .. })));
}

#[test]
fn truncated_envelope_is_too_short_or_crc() {
    // given prefixes of every length below the full encoding
    let engine = test_engine();
    let mut encoded = Vec::new();
    engine.encode_snapshot(&mut encoded).unwrap();
    // when decoded
    for len in 0..encoded.len() {
        let result =
            Engine::<RecordingFold>::decode_snapshot(&encoded[..len], test_config());
        // then every result is a typed error, never a panic
        assert!(result.is_err());
    }
}

#[test]
fn ring_larger_than_capacity_is_refused() {
    // given an envelope from ring capacity 16
    let wide_config = EngineConfig {
        ring_capacity: 16,
        checkpoint_slots: 0,
    };
    let mut engine = Engine::new(RecordingFold::default(), wide_config).unwrap();
    let mut boundary = None;
    for number in 1..=9u64 {
        engine
            .apply_batch(&batch_of(boundary, vec![(block(number, 0), vec![0])]))
            .unwrap();
        boundary = Some(block(number, 0));
    }
    let mut encoded = Vec::new();
    engine.encode_snapshot(&mut encoded).unwrap();
    // when decoded with capacity 8 config
    let narrow_config = EngineConfig {
        ring_capacity: 8,
        checkpoint_slots: 0,
    };
    let result = Engine::<RecordingFold>::decode_snapshot(&encoded, narrow_config);
    // then RingExceedsCapacity
    assert_eq!(
        result.unwrap_err(),
        SnapshotError::RingExceedsCapacity {
            len: 9,
            capacity: 8
        }
    );
}

#[test]
fn corrupt_length_rejects_at_crc_before_decode() {
    // given the state length field corrupted to a huge value, trailer left stale
    let engine = test_engine();
    let mut encoded = Vec::new();
    engine.encode_snapshot(&mut encoded).unwrap();
    let mut state_bytes = Vec::new();
    engine.fold().encode_state(&mut state_bytes);
    let state_len_prefix_start = encoded.len() - CRC_LEN - state_bytes.len() - 8;
    encoded[state_len_prefix_start..state_len_prefix_start + 8]
        .copy_from_slice(&u64::MAX.to_le_bytes());
    // when decoded
    let result = Engine::<RecordingFold>::decode_snapshot(&encoded, test_config());
    // then the error is Crc; length-driven preallocation is unreachable behind the checksum
    assert!(matches!(result, Err(SnapshotError::Crc { .. })));
}

#[test]
fn cursor_ring_mismatch_is_refused() {
    // given a hand-built envelope whose newest ring number differs from the cursor block
    let mut state = Vec::new();
    RecordingFold::default().encode_state(&mut state);
    let bytes = encode_custom(
        RecordingFold::STATE_TAG.as_bytes(),
        Some(Position::new(5, 0)),
        &[block(3, 0)],
        state,
    );
    // when decoded
    let result = Engine::<RecordingFold>::decode_snapshot(&bytes, test_config());
    // then RingCursorMismatch
    assert_eq!(result.unwrap_err(), SnapshotError::RingCursorMismatch);
}

#[test]
fn hash_bytes_that_do_not_match_the_ring_are_refused() {
    // given an envelope with one ring number and 31 hash bytes
    let mut state = Vec::new();
    RecordingFold::default().encode_state(&mut state);
    let envelope: Envelope = (
        SNAPSHOT_MAGIC,
        SNAPSHOT_VERSION,
        RecordingFold::STATE_TAG.as_bytes().to_vec(),
        1,
        3,
        0,
        vec![3],
        vec![0u8; 31],
        state,
    );
    let mut bytes = Vec::new();
    write_envelope::<()>(&envelope, &mut bytes).unwrap();
    // when decoded
    let result = Engine::<RecordingFold>::decode_snapshot(&bytes, test_config());
    // then RingHashLenMismatch
    assert_eq!(result.unwrap_err(), SnapshotError::RingHashLenMismatch);
}

#[test]
fn descending_ring_is_refused() {
    // given an envelope whose ring descends
    let mut state = Vec::new();
    RecordingFold::default().encode_state(&mut state);
    let bytes = encode_custom(
        RecordingFold::STATE_TAG.as_bytes(),
        Some(Position::new(3, 0)),
        &[block(5, 0), block(3, 0)],
        state,
    );
    // when decoded
    let result = Engine::<RecordingFold>::decode_snapshot(&bytes, test_config());
    // then RingNotAscending
    assert_eq!(result.unwrap_err(), SnapshotError::RingNotAscending);
}

#[test]
fn other_magic_and_other_version_are_refused() {
    // given a snapshot with its magic changed, and one with its version changed
    let engine = test_engine();
    let mut bytes = Vec::new();
    engine.encode_snapshot(&mut bytes).unwrap();
    let mut other_magic = bytes.clone();
    other_magic[0] ^= 0xff;
    let mut other_version = bytes.clone();
    other_version[8] ^= 0xff;
    // when decoded
    let magic = Engine::<RecordingFold>::decode_snapshot(&other_magic, test_config());
    let version = Engine::<RecordingFold>::decode_snapshot(&other_version, test_config());
    let short = Engine::<RecordingFold>::decode_snapshot(&bytes[..5], test_config());
    // then each is refused for its own reason
    assert_eq!(magic.unwrap_err(), SnapshotError::BadMagic);
    assert_eq!(
        version.unwrap_err(),
        SnapshotError::BadVersion {
            got: SNAPSHOT_VERSION ^ 0xff
        }
    );
    assert_eq!(short.unwrap_err(), SnapshotError::TooShort);
}

#[test]
fn refused_state_bytes_surface() {
    // given a well-framed envelope whose state the fold refuses
    let bytes = encode_custom(RecordingFold::STATE_TAG.as_bytes(), None, &[], vec![1, 2, 3]);
    // when decoded
    let result = Engine::<RecordingFold>::decode_snapshot(&bytes, test_config());
    // then State
    assert_eq!(result.unwrap_err(), SnapshotError::State(()));
}

#[test]
fn snapshot_errors_describe_themselves() {
    assert_eq!(
        SnapshotError::<ConfigError>::Crc {
            expected: 1,
            got: 0xab
        }
        .describe(),
        "snapshot crc mismatch: expected 0x00000001, got 0x000000ab"
    );
}

/// CRC-32/ISCSI bit by bit: reflected polynomial, register all ones, flipped at the end.
fn crc32c_bit_by_bit(bytes: &[u8]) -> u32 {
    let mut register = 0xffff_ffffu32;
    for byte in bytes {
        register ^= u32::from(*byte);
        for _ in 0..8 {
            register = if register & 1 == 1 {
                (register >> 1) ^ 0x82f6_3b78
            } else {
                register >> 1
            };
        }
    }
    register ^ 0xffff_ffff
}

#[test]
fn crc32c_is_the_checksum_bit_by_bit() {
    let mut bytes = Vec::new();
    let mut value = 1u32;
    for len in 0..600usize {
        assert_eq!(crc32c(&bytes), crc32c_bit_by_bit(&bytes), "at length {len}");
        value = value.wrapping_mul(1_664_525).wrapping_add(1_013_904_223);
        bytes.push((value >> 24) as u8);
    }
    assert_eq!(crc32c_bit_by_bit(b"123456789"), 0xe306_9283);
}

#[test]
fn a_changed_byte_changes_the_checksum() {
    let bytes = [7u8; 60];
    for index in 0..bytes.len() {
        for change in 1..=255u8 {
            let mut changed = bytes;
            changed[index] ^= change;
            assert_ne!(crc32c(&changed), crc32c(&bytes));
        }
    }
}

#[test]
fn a_snapshot_with_any_byte_changed_is_refused() {
    let engine = test_engine();
    let mut encoded = Vec::new();
    engine.encode_snapshot(&mut encoded).unwrap();
    for index in 0..encoded.len() {
        let mut changed = encoded.clone();
        changed[index] = !changed[index];
        assert!(Engine::<RecordingFold>::decode_snapshot(&changed, test_config()).is_err());
    }
}
