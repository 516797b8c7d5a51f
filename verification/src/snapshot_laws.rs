//! What snapshots promise as a whole.
use vstd::prelude::*;
use vstd::string::*;

use crate::batch;
use crate::batch::Ordinal;
use crate::bytes;
use crate::checkpoint;
use crate::checksum;
use crate::checkpoint::Slot;
use crate::driver_laws;
use crate::engine;
use crate::engine::EngineConfig;
use crate::engine_model;
use crate::engine_model::EngineState;
use crate::position::{BlockRef, Position};
use crate::retention_laws;
use crate::retention_laws::Applied;
use crate::ring;
use crate::snapshot;
use crate::snapshot::{Persist, SnapshotError, SnapshotParts};
use crate::snapshot_model;
use crate::snapshot_model::{EnvelopeModel, CRC_LEN, MAGIC_LEN, SNAPSHOT_MAGIC};

verus! {

/// The hash lane of blocks has 32 bytes per block, in order.
pub proof fn lemma_hash_lane(blocks: Seq<BlockRef>)
    ensures
        snapshot::hash_lane(blocks).len() == 32 * blocks.len(),
        forall|i: int|
            0 <= i < blocks.len() ==> snapshot::hash_lane(blocks).subrange(32 * i, 32 * i + 32)
                == (#[trigger] blocks[i]).hash@,
    decreases blocks.len(),
{
    if blocks.len() > 0 {
        let rest = blocks.drop_last();
        lemma_hash_lane(rest);
        let lane = snapshot::hash_lane(blocks);
        assert forall|i: int| 0 <= i < blocks.len() implies lane.subrange(32 * i, 32 * i + 32) == (
        #[trigger] blocks[i]).hash@ by {
            if i < rest.len() {
                assert(rest[i] == blocks[i]);
                assert(lane.subrange(32 * i, 32 * i + 32) =~= snapshot::hash_lane(rest).subrange(
                    32 * i,
                    32 * i + 32,
                ));
            } else {
                assert(lane.subrange(32 * i, 32 * i + 32) =~= blocks[i].hash@);
            }
        }
    }
}

/// Lanes built from blocks describe those blocks.
pub proof fn lemma_lanes(blocks: Seq<BlockRef>)
    ensures
        snapshot::blocks_of_lanes(snapshot::number_lane(blocks), snapshot::hash_lane(blocks))
            == blocks,
{
    lemma_hash_lane(blocks);
    let lane = snapshot::hash_lane(blocks);
    let back = snapshot::blocks_of_lanes(snapshot::number_lane(blocks), lane);
    assert forall|i: int| 0 <= i < blocks.len() implies back[i] == blocks[i] by {
        let named = snapshot::hash_of_lane(lane, i);
        assert(blocks[i].hash@ == lane.subrange(32 * i, 32 * i + 32));
        assert(named@ == blocks[i].hash@);
        assert(named =~= blocks[i].hash);
    }
    assert(back =~= blocks);
}

/// A sealed envelope opens to what was sealed: fold state, cursor and observed blocks come
/// back under every configuration whose window has room for the blocks.
pub proof fn law_open_inverts_seal<F: Persist>(
    fold: F,
    cursor: Option<Position>,
    blocks: Seq<BlockRef>,
    capacity: usize,
)
    requires
        ring::ascending(blocks),
        blocks.len() <= capacity,
        cursor matches Some(cursor) ==> blocks.len() > 0 && blocks.last().number == cursor.block,
    ensures
        snapshot::opened::<F::PersistError>(
            snapshot::sealed(fold, cursor, blocks),
            F::STATE_TAG.spec_bytes(),
            capacity,
        ) == Ok::<SnapshotParts, snapshot::SnapshotError<F::PersistError>>(
            SnapshotParts { cursor, window: blocks, state: fold.state_bytes() },
        ),
{
    let envelope = snapshot::sealed(fold, cursor, blocks);
    lemma_lanes(blocks);
    lemma_hash_lane(blocks);
    let ranks = envelope.ring_numbers.map_values(|number: u64| number.rank());
    assert forall|i: int, j: int| 0 <= i < j < ranks.len() implies ranks[i] < ranks[j] by {
        assert(blocks[i].number < blocks[j].number);
    }
}

/// A frame gives back the payload it was put around.
pub proof fn lemma_frame(envelope: EnvelopeModel, crc: u32)
    requires
        snapshot_model::fits(envelope),
        envelope.magic == SNAPSHOT_MAGIC@,
    ensures
        ({
            let payload = snapshot_model::envelope_bytes(envelope);
            let frame = snapshot::framed(payload, crc);
            &&& frame.len() == payload.len() + 4
            &&& payload.len() >= 10
            &&& snapshot::payload_of(frame) == payload
            &&& frame.take(8) == SNAPSHOT_MAGIC@
            &&& bytes::le_value(frame.subrange(8, 10)) == envelope.version
            &&& bytes::le_value(frame.skip(frame.len() - CRC_LEN)) == crc
        }),
{
    let payload = snapshot_model::envelope_bytes(envelope);
    let frame = snapshot::framed(payload, crc);
    bytes::lemma_byte_ranges();
    bytes::lemma_le_value(crc as nat, 4);
    bytes::lemma_le_value(envelope.version as nat, 2);
    let version = bytes::le_bytes(envelope.version as nat, 2);
    assert(payload.len() >= 10);
    assert(snapshot::payload_of(frame) =~= payload);
    assert(frame.take(8) =~= envelope.magic);
    assert(frame.subrange(8, 10) =~= version);
    assert(frame.skip(frame.len() - CRC_LEN) =~= bytes::le_bytes(crc as nat, 4));
}

/// Decoding the bytes of a snapshot gives back the fold's state bytes, the cursor and the
/// observed blocks of the engine, under every valid configuration whose window has room.
pub proof fn law_decode_inverts_encode<F: Persist>(
    state: EngineState<F>,
    crc: u32,
    config: EngineConfig,
)
    requires
        ring::ascending(state.window),
        engine_model::anchored(state),
        state.window.len() <= config.ring_capacity,
        engine::config_error(config) is None,
        snapshot_model::fits(snapshot::sealed(state.fold, state.cursor, state.window)),
    ensures
        ({
            let payload = snapshot_model::envelope_bytes(
                snapshot::sealed(state.fold, state.cursor, state.window),
            );
            snapshot::unframed::<F::PersistError>(
                snapshot::framed(payload, crc),
                crc,
                F::STATE_TAG.spec_bytes(),
                config,
            ) == Ok::<SnapshotParts, snapshot::SnapshotError<F::PersistError>>(
                SnapshotParts {
                    cursor: state.cursor,
                    window: state.window,
                    state: state.fold.state_bytes(),
                },
            )
        }),
{
    let envelope = snapshot::sealed(state.fold, state.cursor, state.window);
    let payload = snapshot_model::envelope_bytes(envelope);
    lemma_frame(envelope, crc);
    assert(payload.take(payload.len() as int) =~= payload);
    snapshot_model::lemma_parsed(envelope, payload);
    law_open_inverts_seal(state.fold, state.cursor, state.window, config.ring_capacity);
}

/// A frame whose trailer differs from the checksum of its payload is refused as such, so no
/// field of it is read.
pub proof fn law_wrong_checksum_is_refused<E>(
    frame: Seq<u8>,
    crc: u32,
    tag: Seq<u8>,
    config: EngineConfig,
)
    requires
        engine::config_error(config) is None,
        frame.len() >= snapshot_model::MIN_ENVELOPE_LEN,
        frame.take(MAGIC_LEN as int) == SNAPSHOT_MAGIC@,
        bytes::le_value(frame.subrange(8, 10)) == snapshot_model::SNAPSHOT_VERSION,
        bytes::le_value(frame.skip(frame.len() - CRC_LEN)) != crc,
    ensures
        snapshot::unframed::<E>(frame, crc, tag, config) is Err,
        snapshot::unframed::<E>(frame, crc, tag, config)->Err_0 is Crc,
{
    bytes::lemma_byte_ranges();
    bytes::lemma_le_bytes(frame.skip(frame.len() - CRC_LEN));
}

/// The durable snapshot of an engine decodes to the oldest retained checkpoint: its state
/// bytes, its cursor and the blocks observed up to it.
pub proof fn law_durable_snapshot_decodes<F: Persist>(
    state: EngineState<F>,
    slot: checkpoint::Slot<F>,
    crc: u32,
    config: EngineConfig,
)
    requires
        ring::ascending(state.window),
        checkpoint::oldest_live(state.slots, state.window) == Some(slot),
        slot.cursor is Some,
        state.window.len() <= config.ring_capacity,
        engine::config_error(config) is None,
        snapshot_model::fits(
            snapshot::sealed(
                slot.fold,
                slot.cursor,
                ring::at_or_below(state.window, slot.cursor->0.block),
            ),
        ),
    ensures
        ({
            let blocks = ring::at_or_below(state.window, slot.cursor->0.block);
            let payload = snapshot_model::envelope_bytes(
                snapshot::sealed(slot.fold, slot.cursor, blocks),
            );
            snapshot::unframed::<F::PersistError>(
                snapshot::framed(payload, crc),
                crc,
                F::STATE_TAG.spec_bytes(),
                config,
            ) == Ok::<SnapshotParts, snapshot::SnapshotError<F::PersistError>>(
                SnapshotParts {
                    cursor: slot.cursor,
                    window: blocks,
                    state: slot.fold.state_bytes(),
                },
            )
        }),
{
    lemma_oldest_is_live(state.slots, state.window);
    ring::lemma_at_or_below(state.window, slot.cursor->0.block);
    let blocks = ring::at_or_below(state.window, slot.cursor->0.block);
    law_decode_inverts_encode(
        EngineState { fold: slot.fold, cursor: slot.cursor, window: blocks, ..state },
        crc,
        config,
    );
}

/// The oldest live slot is live.
pub proof fn lemma_oldest_is_live<F>(
    slots: Seq<Option<checkpoint::Slot<F>>>,
    window: Seq<BlockRef>,
)
    ensures
        checkpoint::oldest_live(slots, window) is Some ==> checkpoint::live_in(
            checkpoint::oldest_live(slots, window),
            window,
        ),
    decreases slots.len(),
{
    if slots.len() > 0 {
        lemma_oldest_is_live(slots.drop_first(), window);
    }
}

/// The durable snapshot is the snapshot of the checkpointed engine, byte for byte: whatever
/// batches came after the checkpoint, as long as no observed block has left the window and the
/// checkpoint is the oldest one retained.
pub proof fn law_durable_snapshot_is_the_checkpointed_one<F: Persist>(
    before: EngineState<F>,
    states: Seq<EngineState<F>>,
    batches: Seq<Applied<F>>,
    point: Position,
    taken: Seq<u8>,
    out: Seq<u8>,
    after: Seq<u8>,
    result: Result<Option<Position>, SnapshotError<F::PersistError>>,
)
    requires
        retention_laws::orderly(before),
        before.status is Active,
        before.slots.len() > 0,
        before.cursor == Some(point),
        snapshot::appended::<(), F::PersistError>(
            Seq::empty(),
            snapshot::sealed(before.fold, before.cursor, before.window),
            taken,
            (),
            Ok(()),
        ),
        retention_laws::batches_applied(states, batches),
        states[0] == (EngineState {
            slots: checkpoint::stored(
                before.slots,
                Slot { fold: before.fold, cursor: before.cursor },
            ),
            ..before
        }),
        retention_laws::nothing_left(states),
        checkpoint::oldest_live(states.last().slots, states.last().window) == Some(
            Slot { fold: before.fold, cursor: before.cursor },
        ),
        snapshot::durable_appended(states.last(), out, after, result),
    ensures
        result == Ok::<Option<Position>, SnapshotError<F::PersistError>>(Some(point)),
        after == out + taken,
{
    retention_laws::law_rollback_gives_back_the_checkpoint(
        before,
        before.fold,
        states,
        batches,
        point.block,
    );
    assert(Seq::<u8>::empty() + snapshot::framed(
        snapshot_model::envelope_bytes(
            snapshot::sealed(before.fold, before.cursor, before.window),
        ),
        checksum::crc32c_of(
            snapshot_model::envelope_bytes(
                snapshot::sealed(before.fold, before.cursor, before.window),
            ),
        ),
    ) =~= taken);
}

/// A snapshot that is accepted is refused once any one byte of it is changed.
pub proof fn law_changed_byte_is_refused<E>(
    frame: Seq<u8>,
    tag: Seq<u8>,
    config: EngineConfig,
    at: int,
    byte: u8,
)
    requires
        snapshot::unframed::<E>(
            frame,
            checksum::crc32c_of(snapshot::payload_of(frame)),
            tag,
            config,
        ) is Ok,
        0 <= at < frame.len(),
        frame[at] != byte,
    ensures
        ({
            let changed = frame.update(at, byte);
            snapshot::unframed::<E>(
                changed,
                checksum::crc32c_of(snapshot::payload_of(changed)),
                tag,
                config,
            ) is Err
        }),
{
    let changed = frame.update(at, byte);
    let payload = snapshot::payload_of(frame);
    let split = payload.len() as int;
    let old = frame.skip(split);
    let new = changed.skip(split);
    bytes::lemma_byte_ranges();
    bytes::lemma_le_bytes(old);
    bytes::lemma_le_bytes(new);
    if at < split {
        checksum::law_changed_byte_changes_the_checksum(payload, at, byte);
        assert(snapshot::payload_of(changed) =~= payload.update(at, byte));
        assert(new =~= old);
    } else {
        assert(snapshot::payload_of(changed) =~= payload);
        assert(new[at - split] != old[at - split]);
    }
}

/// What a sealed envelope says, field by field: the format's name and version, the fold's tag,
/// whether there is a cursor and where, the numbers and hashes of the observed blocks from the
/// oldest on, and the fold's state.
pub proof fn law_sealed_envelope_tells_the_engine<F: Persist>(
    fold: F,
    cursor: Option<Position>,
    blocks: Seq<BlockRef>,
)
    ensures
        ({
            let envelope = snapshot::sealed(fold, cursor, blocks);
            &&& envelope.magic == seq![
                0x43u8,
                0x48u8,
                0x4eu8,
                0x46u8,
                0x4fu8,
                0x4cu8,
                0x44u8,
                0x31u8,
            ]
            &&& envelope.version == 1
            &&& envelope.tag == F::STATE_TAG.spec_bytes()
            &&& match cursor {
                Some(at) => envelope.cursor_set == 1 && envelope.cursor_block == at.block
                    && envelope.cursor_log_index == at.log_index,
                None => envelope.cursor_set == 0 && envelope.cursor_block == 0
                    && envelope.cursor_log_index == 0,
            }
            &&& envelope.ring_numbers.len() == blocks.len()
            &&& envelope.ring_hashes.len() == 32 * blocks.len()
            &&& forall|i: int|
                0 <= i < blocks.len() ==> envelope.ring_numbers[i] == (
                #[trigger] blocks[i]).number && envelope.ring_hashes.subrange(32 * i, 32 * i + 32)
                    == blocks[i].hash@
            &&& envelope.state == fold.state_bytes()
        }),
{
    lemma_hash_lane(blocks);
    assert(SNAPSHOT_MAGIC@ =~= seq![
        0x43u8,
        0x48u8,
        0x4eu8,
        0x46u8,
        0x4fu8,
        0x4cu8,
        0x44u8,
        0x31u8,
    ]);
}

/// An envelope is accepted exactly when it carries the fold's tag, no more blocks than the
/// window has room for, their numbers ascending, 32 hash bytes for each, and, with a cursor,
/// the cursor's block as the newest. What is read are its fields.
pub proof fn law_envelope_is_accepted_when_it_fits<E>(
    envelope: EnvelopeModel,
    tag: Seq<u8>,
    capacity: usize,
)
    ensures
        snapshot::opened::<E>(envelope, tag, capacity) is Ok <==> {
            let numbers = envelope.ring_numbers;
            &&& envelope.tag == tag
            &&& numbers.len() <= capacity
            &&& forall|i: int, j: int|
                0 <= i < j < numbers.len() ==> #[trigger] numbers[i] < #[trigger] numbers[j]
            &&& envelope.ring_hashes.len() == 32 * numbers.len()
            &&& envelope.cursor_set != 0 ==> numbers.len() > 0 && numbers[numbers.len() - 1]
                == envelope.cursor_block
        },
        snapshot::opened::<E>(envelope, tag, capacity) matches Ok(parts) ==> {
            &&& parts.state == envelope.state
            &&& parts.cursor is Some <==> envelope.cursor_set != 0
            &&& parts.cursor matches Some(at) ==> at.block == envelope.cursor_block
                && at.log_index == envelope.cursor_log_index
            &&& parts.window.len() == envelope.ring_numbers.len()
            &&& forall|i: int|
                0 <= i < parts.window.len() ==> (#[trigger] parts.window[i]).number
                    == envelope.ring_numbers[i]
        },
        envelope.tag != tag ==> snapshot::opened::<E>(envelope, tag, capacity) == Err::<
            SnapshotParts,
            SnapshotError<E>,
        >(SnapshotError::BadTag),
{
    let numbers = envelope.ring_numbers;
    let ranks = numbers.map_values(|number: u64| number.rank());
    if batch::strictly_ascending(ranks) {
        assert forall|i: int, j: int| 0 <= i < j < numbers.len() implies #[trigger] numbers[i]
            < #[trigger] numbers[j] by {
            assert(ranks[i] < ranks[j]);
        }
    }
    if forall|i: int, j: int|
        0 <= i < j < numbers.len() ==> #[trigger] numbers[i] < #[trigger] numbers[j] {
        assert forall|i: int, j: int| 0 <= i < j < ranks.len() implies ranks[i] < ranks[j] by {
            assert(numbers[i] < numbers[j]);
        }
    }
}

/// Bytes are read as a snapshot exactly when the configuration is valid, there are at least
/// fourteen, they start with the format's name and its version in two bytes, end with the
/// checksum in four, and what lies before that starts with an envelope that is accepted.
pub proof fn law_snapshot_bytes_are_accepted_when_they_fit<E>(
    frame: Seq<u8>,
    crc: u32,
    tag: Seq<u8>,
    config: EngineConfig,
)
    ensures
        snapshot::unframed::<E>(frame, crc, tag, config) is Ok <==> {
            &&& 2 <= config.ring_capacity <= 0x10_0000
            &&& exists|e: nat|
                config.ring_capacity == #[trigger] vstd::arithmetic::power2::pow2(e)
            &&& frame.len() >= 14
            &&& frame.subrange(0, 8) == seq![
                0x43u8,
                0x48u8,
                0x4eu8,
                0x46u8,
                0x4fu8,
                0x4cu8,
                0x44u8,
                0x31u8,
            ]
            &&& bytes::le_value(frame.subrange(8, 10)) == 1
            &&& bytes::le_value(frame.subrange(frame.len() - 4, frame.len() as int)) == crc
            &&& snapshot_model::parsed(frame.subrange(0, frame.len() - 4)) matches Some(envelope)
                && snapshot::opened::<E>(envelope, tag, config.ring_capacity) is Ok
        },
        snapshot::unframed::<E>(frame, crc, tag, config) matches Ok(parts) ==> (
        snapshot_model::parsed(frame.subrange(0, frame.len() - 4)) matches Some(envelope)
            && snapshot::opened::<E>(envelope, tag, config.ring_capacity) == Ok::<
            SnapshotParts,
            SnapshotError<E>,
        >(parts)),
{
    assert(SNAPSHOT_MAGIC@ =~= seq![
        0x43u8,
        0x48u8,
        0x4eu8,
        0x46u8,
        0x4fu8,
        0x4cu8,
        0x44u8,
        0x31u8,
    ]);
    bytes::lemma_byte_ranges();
    if frame.len() >= 14 {
        assert(frame.take(8) =~= frame.subrange(0, 8));
        assert(frame.skip(frame.len() - 4) =~= frame.subrange(
            frame.len() - 4,
            frame.len() as int,
        ));
        assert(frame.take(frame.len() - 4) =~= frame.subrange(0, frame.len() - 4));
        bytes::lemma_le_bytes(frame.subrange(8, 10));
        bytes::lemma_le_bytes(frame.skip(frame.len() - 4));
    }
}

/// The durable snapshot is that of the oldest slot that can be restored: its fold, its cursor
/// and the observed blocks up to the cursor's. Without such a slot, or when that slot has no
/// cursor, nothing is written.
pub proof fn law_durable_snapshot_is_of_the_oldest_slot<F: Persist>(
    state: EngineState<F>,
    before: Seq<u8>,
    after: Seq<u8>,
    result: Result<Option<Position>, SnapshotError<F::PersistError>>,
)
    requires
        ring::ascending(state.window),
        snapshot::durable_appended(state, before, after, result),
    ensures
        forall|k: int, block: u64| #[trigger]
            driver_laws::durable_at(state, k, block) ==> exists|count: int|
                {
                    let slot = state.slots[k]->0;
                    &&& 0 <= count <= state.window.len()
                    &&& forall|i: int|
                        0 <= i < state.window.len() ==> (i < count <==> (
                        #[trigger] state.window[i]).number <= block)
                    &&& snapshot::appended(
                        before,
                        snapshot::sealed(
                            slot.fold,
                            slot.cursor,
                            #[trigger] state.window.take(count),
                        ),
                        after,
                        slot.cursor,
                        result,
                    )
                },
        (forall|k: int, block: u64| !#[trigger] driver_laws::durable_at(state, k, block)) ==> result
            == Ok::<Option<Position>, SnapshotError<F::PersistError>>(None) && after == before,
{
    if checkpoint::oldest_live(state.slots, state.window) is Some {
        let at = retention_laws::lemma_oldest_index(state.slots, state.window);
        assert forall|k: int| 0 <= k < state.slots.len() implies #[trigger]
            driver_laws::restorable(state, k) == checkpoint::live_in(
            state.slots[k],
            state.window,
        ) by {}
        assert(driver_laws::restorable(state, at));
        assert forall|k: int, block: u64| #[trigger]
            driver_laws::durable_at(state, k, block) implies k == at by {
            if k < at {
                assert(!checkpoint::live_in(state.slots[k], state.window));
                assert(driver_laws::restorable(state, k));
            }
        }
        match state.slots[at]->0.cursor {
            Some(point) => {
                assert forall|j: int| 0 <= j < at implies !#[trigger] driver_laws::restorable(
                    state,
                    j,
                ) by {
                    assert(!checkpoint::live_in(state.slots[j], state.window));
                }
                assert(driver_laws::durable_at(state, at, point.block));
                ring::lemma_count_at_or_below(state.window, point.block);
                let count = ring::count_at_or_below(state.window, point.block) as int;
                assert(ring::at_or_below(state.window, point.block) == state.window.take(count));
            },
            None => {},
        }
    } else {
        lemma_none_live(state, state.slots, 0);
    }
}

/// Without a live slot there is no durable one.
pub proof fn lemma_none_live<F>(state: EngineState<F>, part: Seq<Option<Slot<F>>>, from: int)
    requires
        0 <= from <= state.slots.len(),
        part =~= state.slots.skip(from),
        checkpoint::oldest_live(part, state.window) is None,
    ensures
        forall|k: int| from <= k ==> !#[trigger] driver_laws::restorable(state, k),
    decreases part.len(),
{
    if part.len() > 0 {
        assert(part[0] == state.slots[from]);
        lemma_none_live(state, part.drop_first(), from + 1);
        assert(!driver_laws::restorable(state, from));
    }
}

} // verus!
