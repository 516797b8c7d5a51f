use chainfold::rotortree::chunked_level::{
    Chunk, ChunkedLevel, TreeError, CHUNKS_PER_SEGMENT, CHUNK_BYTES, CHUNK_SIZE,
};

type Digest = [u8; 32];

fn hash(number: usize) -> Digest {
    let mut hash: Digest = [0u8; 32];
    hash[..8].copy_from_slice(&(number as u64).to_le_bytes());
    hash
}

fn level(len: usize) -> ChunkedLevel {
    let mut level = ChunkedLevel::new();
    level.extend_with(len, hash).unwrap();
    level
}

fn hashes(level: &ChunkedLevel) -> Vec<Digest> {
    (0..level.len()).map(|i| level.get(i).unwrap()).collect()
}

fn expected(len: usize) -> Vec<Digest> {
    (0..len).map(hash).collect()
}

#[test]
fn extending_across_chunks_and_segments_keeps_every_hash() {
    // given a level grown past a segment in uneven steps
    let mut level = ChunkedLevel::new();
    let total = CHUNK_SIZE * CHUNKS_PER_SEGMENT + 300;
    let mut len = 0;
    while len < total {
        let step = (len % 1000 + 1).min(total - len);
        level.extend_with(step, |i| hash(len + i)).unwrap();
        len += step;
    }
    // then every hash is where it was put
    assert_eq!(level.len(), total);
    assert_eq!(level.chunk_count(), CHUNKS_PER_SEGMENT + 3);
    assert_eq!(hashes(&level), expected(total));
}

#[test]
fn reading_past_the_end_is_typed() {
    let level = level(3);
    assert_eq!(level.get(2), Ok(hash(2)));
    assert_eq!(
        level.get(3),
        Err(TreeError::IndexOutOfRange { index: 3, size: 3 })
    );
}

#[test]
fn growth_beyond_the_machine_is_refused() {
    let mut level = level(1);
    assert_eq!(level.extend_with(usize::MAX, hash), Err(TreeError::MathError));
    assert_eq!(hashes(&level), expected(1));
}

#[test]
fn set_grows_with_zeros() {
    let mut level = level(2);
    level.set(200, hash(7)).unwrap();
    assert_eq!(level.len(), 201);
    assert_eq!(level.get(1), Ok(hash(1)));
    assert_eq!(level.get(2), Ok([0; 32]));
    assert_eq!(level.get(199), Ok([0; 32]));
    assert_eq!(level.get(200), Ok(hash(7)));
    level.set(0, hash(9)).unwrap();
    assert_eq!(level.get(0), Ok(hash(9)));
    assert_eq!(level.len(), 201);
}

#[test]
fn ensure_len_never_shrinks() {
    let mut level = level(5);
    level.ensure_len(3).unwrap();
    assert_eq!(hashes(&level), expected(5));
    level.ensure_len(6).unwrap();
    assert_eq!(level.get(5), Ok([0; 32]));
}

#[test]
fn a_copy_is_apart_from_its_original() {
    // given a level with a frozen segment, and a copy of it
    let total = CHUNK_SIZE * CHUNKS_PER_SEGMENT + 10;
    let mut level = level(total);
    let copy = level.clone();
    // when the original is written in the segment and beyond it
    level.set_preallocated(3, hash(1000));
    level.set_preallocated(total - 1, hash(1001));
    level.push(hash(1002)).unwrap();
    // then the copy is unchanged
    assert_eq!(hashes(&copy), expected(total));
    assert_eq!(level.get(3), Ok(hash(1000)));
    assert_eq!(level.get(total - 1), Ok(hash(1001)));
    assert_eq!(level.get(total), Ok(hash(1002)));
}

#[test]
fn runs_are_cut_where_chunks_end() {
    let level = level(400);
    let runs = level.runs(100, 200);
    let lens: Vec<usize> = runs.iter().map(|run| run.len()).collect();
    assert_eq!(lens, vec![28, 128, 44]);
    let joined: Vec<Digest> = runs.concat();
    assert_eq!(joined, (100..300).map(hash).collect::<Vec<_>>());
    assert!(level.runs(400, 0).is_empty());
}

#[test]
fn a_group_is_copied_to_the_front() {
    let level = level(400);
    let mut out = [[0xffu8; 32]; 210];
    level.get_group(100, 200, &mut out);
    assert_eq!(out[..200].to_vec(), (100..300).map(hash).collect::<Vec<_>>());
    assert_eq!(out[200..], [[0xffu8; 32]; 10]);
}

#[test]
fn write_with_overwrites_its_range_alone() {
    let mut level = level(400);
    level.write_with(120, 20, |i| hash(5000 + i));
    let mut wanted = expected(400);
    for i in 0..20 {
        wanted[120 + i] = hash(5000 + i);
    }
    assert_eq!(hashes(&level), wanted);
}

#[test]
fn extend_copies_values() {
    let mut level = level(127);
    level.extend(&[hash(127), hash(128), hash(129)]).unwrap();
    assert_eq!(hashes(&level), expected(130));
}

#[test]
fn chunks_make_the_level_again() {
    let level = level(CHUNK_SIZE * CHUNKS_PER_SEGMENT + 130);
    let chunks = level.chunks_since(0);
    assert_eq!(chunks.len(), level.chunk_count());
    let again = ChunkedLevel::from_parts(chunks, level.len());
    assert_eq!(hashes(&again), hashes(&level));
    assert_eq!(level.chunks_since(level.chunk_count() - 1).len(), 1);
    assert!(level.chunks_since(level.chunk_count()).is_empty());
}

#[test]
fn remapping_replaces_the_first_chunks() {
    let mut level = level(300);
    level.remap_chunks(vec![Chunk::new([hash(9); 128])]);
    assert_eq!(level.len(), 300);
    assert_eq!(level.get(0), Ok(hash(9)));
    assert_eq!(level.get(127), Ok(hash(9)));
    assert_eq!(level.get(128), Ok(hash(128)));
    assert_eq!(level.get(299), Ok(hash(299)));
    let more: Vec<Chunk> = (0..5).map(|i| Chunk::new([hash(i); 128])).collect();
    level.remap_chunks(more);
    assert_eq!(level.chunk_count(), 3);
    assert_eq!(level.get(299), Ok(hash(2)));
}

#[test]
fn a_region_holds_the_hashes_of_a_chunk() {
    let region: Vec<u8> = (0..CHUNK_BYTES + 7).map(|i| (i % 251) as u8).collect();
    let chunk = Chunk::new_mapped(&region, 7);
    assert_eq!(chunk.as_slice()[0], region[7..39]);
    assert_eq!(chunk.as_slice()[127], region[CHUNK_BYTES - 25..]);
}
