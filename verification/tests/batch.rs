use chainfold::{Batch, BatchShapeError, BlockRef};


fn block(number: u64) -> BlockRef {
    BlockRef {
        number,
        hash: [0; 32],
    }
}

/// Builds a batch from one (block number, log indices) pair per span.
fn batch_of(spans: &[(u64, &[u32])]) -> Batch<u64> {
    let mut batch = Batch::new();
    for (number, indices) in spans {
        batch.push_block(
            block(*number),
            indices.iter().map(|index| (*index, u64::from(*index))).collect(),
        );
    }
    batch
}

#[test]
fn valid_batch_passes_validation() {
    // given two spans covering four events
    let batch = batch_of(&[(1, &[0, 1]), (2, &[0, 1])]);
    // when validated
    let result = batch.validate();
    // then Ok
    assert_eq!(result, Ok(()));
}

#[test]
fn batch_with_descending_blocks_fails() {
    // given spans at blocks 7 then 5
    let batch = batch_of(&[(7, &[0]), (5, &[0])]);
    // when validated
    let result = batch.validate();
    // then BlocksNotAscending at span 1
    assert_eq!(result, Err(BatchShapeError::BlocksNotAscending { span: 1 }));
}

#[test]
fn batch_with_repeated_log_index_fails() {
    // given one span with log indices 3, 3
    let batch = batch_of(&[(1, &[3, 3])]);
    // when validated
    let result = batch.validate();
    // then LogIndexNotAscending at span 0, event index 1
    assert_eq!(
        result,
        Err(BatchShapeError::LogIndexNotAscending { span: 0, index: 1 })
    );
}

#[test]
fn batch_with_an_eventless_span_fails() {
    // given a second span pushed with no events
    let batch = batch_of(&[(1, &[0]), (2, &[])]);
    // when validated
    let result = batch.validate();
    // then SpanEmpty at span 1
    assert_eq!(result, Err(BatchShapeError::SpanEmpty { span: 1 }));
}

#[test]
fn spans_yield_their_own_event_slices() {
    // given three spans of differing width
    let batch = batch_of(&[(1, &[0, 1, 2]), (4, &[7]), (9, &[0, 5])]);
    // when iterating the spans
    let mut seen: Vec<(u64, Vec<u32>, Vec<u64>)> = Vec::new();
    let mut spans = batch.spans();
    while let Some(span) = spans.next() {
        seen.push((span.number, span.log_indices.to_vec(), span.events.to_vec()));
    }
    // then each span carries exactly the events pushed with its block
    assert_eq!(
        seen,
        [
            (1, [0, 1, 2].to_vec(), [0u64, 1, 2].to_vec()),
            (4, [7].to_vec(), [7u64].to_vec()),
            (9, [0, 5].to_vec(), [0u64, 5].to_vec()),
        ]
    );
    assert_eq!(batch.spans().len(), batch.span_count());
}

#[test]
fn batch_clear_keeps_capacity() {
    // given a filled batch
    let mut batch = batch_of(&[(1, &[0])]);
    batch.boundary = Some(block(1));
    let spans_capacity = batch.blocks.capacity();
    let events_capacity = batch.events.capacity();
    // when cleared
    batch.clear();
    // then empty with prior capacities
    assert!(batch.is_empty());
    assert_eq!(batch.boundary, None);
    assert_eq!(batch.spans().len(), 0);
    assert_eq!(batch.blocks.capacity(), spans_capacity);
    assert_eq!(batch.events.capacity(), events_capacity);
}
