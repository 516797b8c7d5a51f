use chainfold::{BlockRef, BlockRing};


fn block(number: u64) -> BlockRef {
    let mut hash = [0u8; 32];
    hash[..8].copy_from_slice(&number.to_le_bytes());
    BlockRef { number, hash }
}

#[test]
fn push_and_newest_round_trip() {
    // given three pushed blocks
    let mut ring = BlockRing::with_capacity(4);
    ring.push(block(1));
    ring.push(block(2));
    ring.push(block(3));
    // when reading newest
    let newest = ring.newest();
    // then the last push returns
    assert_eq!(newest, Some(block(3)));
}

#[test]
fn wraparound_overwrites_oldest() {
    // given capacity 4 and six pushes
    let mut ring = BlockRing::with_capacity(4);
    for number in 1..=6 {
        ring.push(block(number));
    }
    // when iterating
    let observed: Vec<BlockRef> = ring.iter().to_vec();
    // then exactly the last four blocks appear oldest-first
    assert_eq!(observed, vec![block(3), block(4), block(5), block(6)]);
}

#[test]
fn hash_at_finds_only_retained_numbers() {
    // given a wrapped ring
    let mut ring = BlockRing::with_capacity(4);
    for number in 1..=6 {
        ring.push(block(number));
    }
    // when querying an evicted number
    let evicted = ring.hash_at(2);
    // then None; a retained number returns its hash
    assert_eq!(evicted, None);
    assert_eq!(ring.hash_at(5), Some(block(5).hash));
}

#[test]
fn clone_is_independent() {
    // given a cloned ring
    let mut ring = BlockRing::with_capacity(4);
    ring.push(block(1));
    let clone = ring.clone();
    // when pushing to the original
    ring.push(block(2));
    // then the clone is unchanged
    assert_eq!(clone.newest(), Some(block(1)));
    assert_eq!(ring.newest(), Some(block(2)));
}
