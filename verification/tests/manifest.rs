use chainfold::storage::manifest::{decode_slot, encode_slot, SlotRecord, SLOT_SIZE};
use chainfold::Position;


#[test]
fn slot_round_trips_through_encode_decode() {
    // given a record with a cursor and a record without one
    let with_cursor = SlotRecord {
        version: 7,
        cursor: Some(Position::new(100, 3)),
        snapshot_id: 12,
    };
    let without_cursor = SlotRecord {
        version: 1,
        cursor: None,
        snapshot_id: 0,
    };
    // when encoded and decoded
    let decoded_with = decode_slot(&encode_slot(&with_cursor));
    let decoded_without = decode_slot(&encode_slot(&without_cursor));
    // then both round trip equal
    assert_eq!(decoded_with, Some(with_cursor));
    assert_eq!(decoded_without, Some(without_cursor));
}

#[test]
fn slot_rejects_torn_bytes() {
    // given an encoded slot
    let record = SlotRecord {
        version: 3,
        cursor: Some(Position::new(9, 1)),
        snapshot_id: 5,
    };
    let bytes = encode_slot(&record);
    // when any single byte is flipped
    for index in 0..SLOT_SIZE {
        let mut torn = bytes;
        torn[index] = !torn[index];
        // then decode returns None
        assert_eq!(
            decode_slot(&torn),
            None,
            "byte {index} should invalidate the slot"
        );
    }
}

#[test]
fn slot_rejects_wrong_length() {
    // given 63 bytes
    let short = [0u8; SLOT_SIZE - 1];
    // when decoded
    let result = decode_slot(&short);
    // then None
    assert_eq!(result, None);
}

#[test]
fn a_slot_with_any_byte_flipped_is_refused() {
    let record = SlotRecord {
        version: 7,
        cursor: Some(Position::new(11, 3)),
        snapshot_id: 7,
    };
    let slot = encode_slot(&record);
    for index in 0..slot.len() {
        let mut changed = slot;
        changed[index] = !changed[index];
        assert_eq!(decode_slot(&changed), None);
    }
}
