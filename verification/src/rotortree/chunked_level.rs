//! A level of a merkle tree in shared chunks.
use std::sync::Arc;

use rayon::iter::{IntoParallelIterator, ParallelIterator};
use vstd::prelude::*;

verus! {

/// Hash of a tree node.
pub type Hash = [u8; 32];

/// Failure reading or growing a level.
#[derive(Debug, Clone, Copy, PartialEq, Eq, Structural)]
pub enum TreeError {
    /// Index is at or past the size of the level.
    IndexOutOfRange {
        /// Index asked for.
        index: u64,
        /// Hashes in the level.
        size: u64,
    },
    /// Sizes do not fit the machine.
    MathError,
}

/// Number of hashes per chunk for structural sharing.
pub const CHUNK_SIZE: usize = 128;

/// Number of bytes that the hashes of a chunk take up.
pub const CHUNK_BYTES: usize = 4096;

/// Number of chunks per immutable segment.
pub const CHUNKS_PER_SEGMENT: usize = 256;

/// Minimum chunks to parallelize.
pub const PAR_MIN_CHUNKS: usize = 16;

/// `Arc::make_mut`: a mutable reference to the value behind the pointer, which is cloned first
/// when the pointer is shared.
#[verifier::external_body]
fn make_own<T: Clone>(shared: &mut Arc<T>) -> (own: &mut T)
    ensures
        cloned(**old(shared), *own),
        **final(shared) == *final(own),
{
    Arc::make_mut(shared)
}

/// Fixed run of hashes, shared until one holder writes to it.
pub struct Chunk(Arc<[Hash; 128]>);

impl View for Chunk {
    type V = Seq<Hash>;

    closed spec fn view(&self) -> Seq<Hash> {
        (*self.0)@
    }
}

impl Clone for Chunk {
    fn clone(&self) -> (copy: Self)
        ensures
            copy == *self,
    {
        Chunk(self.0.clone())
    }
}

impl Chunk {
    /// A chunk holds `CHUNK_SIZE` hashes.
    pub proof fn lemma_len(&self)
        ensures
            self@.len() == CHUNK_SIZE,
    {
    }

    /// Shares the given hashes.
    pub fn new(hashes: [Hash; 128]) -> (chunk: Self)
        ensures
            chunk@ == hashes@,
    {
        Chunk(Arc::new(hashes))
    }

    /// Chunk of the hashes that lie at a byte offset of a region.
    pub fn new_mapped(region: &[u8], offset: usize) -> (chunk: Self)
        requires
            offset + CHUNK_BYTES <= region@.len(),
        ensures
            forall|i: int|
                0 <= i < CHUNK_SIZE ==> (#[trigger] chunk@[i])@ == region@.subrange(
                    offset + 32 * i,
                    offset + 32 * i + 32,
                ),
    {
        let len: usize = region.len();
        let mut hashes: [Hash; 128] = [[0u8; 32]; 128];
        let mut at: usize = 0;
        while at < CHUNK_SIZE
            invariant
                at <= CHUNK_SIZE,
                offset + CHUNK_BYTES <= len,
                len == region@.len(),
                forall|i: int|
                    0 <= i < at ==> (#[trigger] hashes@[i])@ == region@.subrange(
                        offset + 32 * i,
                        offset + 32 * i + 32,
                    ),
            decreases CHUNK_SIZE - at,
        {
            let mut hash: Hash = [0u8; 32];
            let start: usize = offset + 32 * at;
            let mut b: usize = 0;
            while b < 32
                invariant
                    b <= 32,
                    start + 32 <= len,
                    len == region@.len(),
                    forall|j: int| 0 <= j < b ==> hash@[j] == region@[start + j],
                decreases 32 - b,
            {
                hash[b] = region[start + b];
                b += 1;
            }
            assert(hash@ =~= region@.subrange(start as int, start + 32));
            hashes[at] = hash;
            at += 1;
        }
        Chunk::new(hashes)
    }

    /// Borrows the hashes.
    pub fn as_slice(&self) -> (hashes: &[Hash; 128])
        ensures
            hashes@ == self@,
    {
        &self.0
    }

    /// Borrows the hashes for writing, apart from other holders.
    pub fn make_mut(&mut self) -> (hashes: &mut [Hash; 128])
        ensures
            hashes@ == old(self)@,
            final(self)@ == final(hashes)@,
    {
        let own = make_own(&mut self.0);
        proof {
            assert forall|i: int| 0 <= i < 128 implies own@[i] == old(self)@[i] by {
                assert(cloned((*old(self).0)@[i], own@[i]));
                assert(own@[i]@ =~= old(self)@[i]@);
                assert(own@[i] =~= old(self)@[i]);
            }
            assert(own@ =~= old(self)@);
        }
        own
    }
}

/// Chunks `0..n` made by `build`, on rayon's thread pool: `ParallelIterator::map` over an indexed
/// range, collected in the order of the range.
#[verifier::external_body]
fn build_parallel<B: Fn(usize) -> Chunk + Send + Sync>(n: usize, build: B) -> (chunks: Vec<Chunk>)
    requires
        forall|i: usize| i < n ==> call_requires(build, (i,)),
    ensures
        chunks@.len() == n,
        forall|i: int| 0 <= i < n ==> call_ensures(build, (i as usize,), #[trigger] chunks@[i]),
{
    (0..n).into_par_iter().map(build).collect()
}

/// Chunks `0..n` made by `build`, in order; many are built in parallel.
fn build_chunks<B: Fn(usize) -> Chunk + Send + Sync>(n: usize, build: B) -> (chunks: Vec<Chunk>)
    requires
        forall|i: usize| i < n ==> call_requires(build, (i,)),
    ensures
        chunks@.len() == n,
        forall|i: int| 0 <= i < n ==> call_ensures(build, (i as usize,), #[trigger] chunks@[i]),
{
    if n >= PAR_MIN_CHUNKS {
        return build_parallel(n, build);
    }
    let mut chunks: Vec<Chunk> = Vec::new();
    let mut i: usize = 0;
    while i < n
        invariant
            i <= n,
            forall|i: usize| i < n ==> call_requires(build, (i,)),
            chunks@.len() == i,
            forall|j: int| 0 <= j < i ==> call_ensures(build, (j as usize,), #[trigger] chunks@[j]),
        decreases n - i,
    {
        let chunk = build(i);
        chunks.push(chunk);
        i += 1;
    }
    chunks
}

/// Hash of zero bytes, which fills slots nothing was written to.
pub open spec fn is_zero(hash: Hash) -> bool {
    hash@ == Seq::new(32, |i: int| 0u8)
}

/// Whether `hashes` is what `fill` gives for the `count` positions from `base`.
pub open spec fn filled<F: Fn(usize) -> Hash>(
    fill: F,
    base: int,
    count: int,
    hashes: Seq<Hash>,
) -> bool {
    &&& hashes.len() == count
    &&& forall|i: int|
        0 <= i < count ==> call_ensures(fill, ((base + i) as usize,), #[trigger] hashes[i])
}

/// New chunk: `take` hashes that `fill` gives from `base`, then zeros.
fn fill_chunk<F: Fn(usize) -> Hash>(fill: &F, base: usize, take: usize) -> (chunk: Chunk)
    requires
        take <= CHUNK_SIZE,
        base + take <= usize::MAX,
        forall|i: usize| base <= i < base + take ==> call_requires(*fill, (i,)),
    ensures
        filled(*fill, base as int, take as int, chunk@.take(take as int)),
        forall|i: int| take <= i < CHUNK_SIZE ==> is_zero(#[trigger] chunk@[i]),
{
    let zero: Hash = [0u8; 32];
    assert(zero@ =~= Seq::new(32, |i: int| 0u8));
    let mut hashes: [Hash; 128] = [zero; 128];
    let mut at: usize = 0;
    while at < take
        invariant
            at <= take <= CHUNK_SIZE,
            base + take <= usize::MAX,
            forall|i: usize| base <= i < base + take ==> call_requires(*fill, (i,)),
            forall|i: int|
                0 <= i < at ==> call_ensures(*fill, ((base + i) as usize,), #[trigger] hashes@[i]),
            forall|i: int| at <= i < CHUNK_SIZE ==> is_zero(#[trigger] hashes@[i]),
        decreases take - at,
    {
        let hash = fill(base + at);
        hashes[at] = hash;
        at += 1;
    }
    Chunk::new(hashes)
}

/// A single level of the tree, stored as segmented chunks.
pub struct ChunkedLevel {
    /// Full segments of committed chunks, shared with snapshots.
    segments: Vec<Arc<Vec<Chunk>>>,
    /// Committed chunks not yet frozen into a segment.
    pending: Vec<Chunk>,
    /// Total number of hashes in this level.
    len: usize,
}

/// Chunks that `len` hashes take up.
pub open spec fn chunks_for(len: int) -> int {
    (len + CHUNK_SIZE - 1) / CHUNK_SIZE as int
}

/// The first `len` hashes held by `chunks`.
pub open spec fn hashes_of(chunks: Seq<Chunk>, len: int) -> Seq<Hash> {
    Seq::new(len as nat, |i: int| chunks[i / CHUNK_SIZE as int]@[i % CHUNK_SIZE as int])
}

/// `count` hashes from `start`, cut where a chunk ends.
pub open spec fn runs_of(hashes: Seq<Hash>, start: int, count: int) -> Seq<Seq<Hash>>
    decreases count,
{
    if start < 0 || count <= 0 {
        Seq::empty()
    } else {
        let room = CHUNK_SIZE - start % CHUNK_SIZE as int;
        let take = if room < count {
            room
        } else {
            count
        };
        seq![hashes.subrange(start, start + take)] + runs_of(hashes, start + take, count - take)
    }
}

impl ChunkedLevel {
    /// Chunks in frozen segments.
    closed spec fn committed(&self) -> int {
        self.segments@.len() * CHUNKS_PER_SEGMENT
    }

    /// Chunks of the level, in order.
    pub closed spec fn chunks(&self) -> Seq<Chunk> {
        Seq::new(
            (self.committed() + self.pending@.len()) as nat,
            |i: int|
                if i < self.committed() {
                    (*self.segments@[i / CHUNKS_PER_SEGMENT as int])@[i % CHUNKS_PER_SEGMENT as int]
                } else {
                    self.pending@[i - self.committed()]
                },
        )
    }

    /// Segments are full, and fewer than a segment of chunks is pending.
    closed spec fn shaped(&self) -> bool {
        &&& self.pending@.len() < CHUNKS_PER_SEGMENT
        &&& forall|i: int|
            0 <= i < self.segments@.len() ==> (#[trigger] self.segments@[i])@.len()
                == CHUNKS_PER_SEGMENT
        &&& self.chunks().len() <= usize::MAX
    }

    /// Number of hashes.
    pub closed spec fn size(&self) -> int {
        self.len as int
    }

    /// The chunks are those that the hashes take up.
    pub closed spec fn wf(&self) -> bool {
        &&& self.shaped()
        &&& self.chunks().len() == chunks_for(self.len as int)
    }
}

impl View for ChunkedLevel {
    type V = Seq<Hash>;

    open spec fn view(&self) -> Seq<Hash> {
        hashes_of(self.chunks(), self.size())
    }
}

impl Clone for ChunkedLevel {
    fn clone(&self) -> (copy: Self)
        ensures
            self.wf() ==> copy.wf(),
            copy.chunks() == self.chunks(),
            copy.size() == self.size(),
    {
        let mut segments: Vec<Arc<Vec<Chunk>>> = Vec::new();
        for segment in it: self.segments.iter()
            invariant
                it.seq().len() == self.segments@.len(),
                forall|i: int|
                    0 <= i < it.seq().len() ==> *(#[trigger] it.seq()[i]) == self.segments@[i],
                segments@ == self.segments@.take(it.index()),
        {
            segments.push(segment.clone());
            assert(segments@ =~= self.segments@.take(it.index() + 1));
        }
        let copy = ChunkedLevel { segments, pending: self.pending.clone(), len: self.len };
        proof {
            assert(copy.segments@ =~= self.segments@);
            assert forall|i: int| 0 <= i < self.pending@.len() implies copy.pending@[i]
                == self.pending@[i] by {
                assert(cloned(self.pending@[i], copy.pending@[i]));
            }
            assert(copy.pending@ =~= self.pending@);
            assert(copy.chunks() =~= self.chunks());
        }
        copy
    }
}

impl ChunkedLevel {
    /// Empty level.
    pub fn new() -> (level: Self)
        ensures
            level.wf(),
            level@ == Seq::<Hash>::empty(),
            level.chunks() == Seq::<Chunk>::empty(),
    {
        let level = ChunkedLevel { segments: Vec::new(), pending: Vec::new(), len: 0 };
        assert(level.chunks() =~= Seq::empty());
        assert(level@ =~= Seq::empty());
        level
    }

    /// Total number of hashes in this level.
    pub fn len(&self) -> (len: usize)
        ensures
            len == self.size(),
            len == self@.len(),
    {
        self.len
    }

    /// Total number of chunks, i.e. `len` rounded up to a whole chunk.
    pub fn chunk_count(&self) -> (count: usize)
        requires
            self.wf(),
        ensures
            count == self.chunks().len(),
            count == chunks_for(self@.len() as int),
            128 * (count - 1) < self@.len() <= 128 * count,
    {
        self.segments.len() * CHUNKS_PER_SEGMENT + self.pending.len()
    }

    /// Chunk at an index below `chunk_count`.
    pub fn chunk(&self, chunk_idx: usize) -> (chunk: &Chunk)
        requires
            self.wf(),
            chunk_idx < self.chunks().len(),
        ensures
            *chunk == self.chunks()[chunk_idx as int],
            forall|o: int|
                0 <= o < 128 && 128 * chunk_idx + o < self@.len() ==> #[trigger] chunk@[o]
                    == self@[128 * chunk_idx + o],
    {
        let committed: usize = self.segments.len() * CHUNKS_PER_SEGMENT;
        if chunk_idx < committed {
            let segment: &Vec<Chunk> = &self.segments[chunk_idx / CHUNKS_PER_SEGMENT];
            &segment[chunk_idx % CHUNKS_PER_SEGMENT]
        } else {
            &self.pending[chunk_idx - committed]
        }
    }

    /// Read a hash at the given index.
    pub fn get(&self, index: usize) -> (hash: Result<Hash, TreeError>)
        requires
            self.wf(),
        ensures
            hash == (if index < self@.len() {
                Ok::<Hash, TreeError>(self@[index as int])
            } else {
                Err(
                    TreeError::IndexOutOfRange { index: index as u64, size: self@.len() as u64 },
                )
            }),
    {
        if index >= self.len {
            return Err(
                TreeError::IndexOutOfRange { index: index as u64, size: self.len as u64 },
            );
        }
        Ok(self.chunk(index / CHUNK_SIZE).as_slice()[index % CHUNK_SIZE])
    }

    /// Puts a hash into a chunk, apart from other holders of the chunk.
    fn put(&mut self, chunk_idx: usize, offset: usize, value: Hash)
        requires
            old(self).shaped(),
            chunk_idx < old(self).chunks().len(),
            offset < CHUNK_SIZE,
        ensures
            final(self).shaped(),
            final(self).len == old(self).len,
            final(self).chunks().len() == old(self).chunks().len(),
            forall|i: int|
                0 <= i < old(self).chunks().len() && i != chunk_idx
                    ==> #[trigger] final(self).chunks()[i] == old(self).chunks()[i],
            final(self).chunks()[chunk_idx as int]@ == old(self).chunks()[chunk_idx as int]@.update(
                offset as int,
                value,
            ),
    {
        let committed: usize = self.segments.len() * CHUNKS_PER_SEGMENT;
        if chunk_idx < committed {
            let seg_idx: usize = chunk_idx / CHUNKS_PER_SEGMENT;
            let seg_off: usize = chunk_idx % CHUNKS_PER_SEGMENT;
            let segment = make_own(&mut self.segments[seg_idx]);
            let hashes = segment[seg_off].make_mut();
            hashes[offset] = value;
        } else {
            let hashes = self.pending[chunk_idx - committed].make_mut();
            hashes[offset] = value;
        }
    }
}

impl ChunkedLevel {
    /// Pushes a chunk to pending, freezing into a segment when full.
    fn push_chunk(&mut self, chunk: Chunk)
        requires
            old(self).shaped(),
            old(self).chunks().len() < usize::MAX,
        ensures
            final(self).shaped(),
            final(self).len == old(self).len,
            final(self).chunks() == old(self).chunks().push(chunk),
    {
        self.pending.push(chunk);
        if self.pending.len() == CHUNKS_PER_SEGMENT {
            self.freeze_pending();
        }
        assert(self.chunks() =~= old(self).chunks().push(chunk));
    }

    /// Freezes the full pending buffer into a segment.
    fn freeze_pending(&mut self)
        requires
            old(self).pending@.len() == CHUNKS_PER_SEGMENT,
            old(self).chunks().len() <= usize::MAX,
            forall|i: int|
                0 <= i < old(self).segments@.len() ==> (#[trigger] old(self).segments@[i])@.len()
                    == CHUNKS_PER_SEGMENT,
        ensures
            final(self).shaped(),
            final(self).len == old(self).len,
            final(self).chunks() == old(self).chunks(),
    {
        let mut pending: Vec<Chunk> = Vec::new();
        std::mem::swap(&mut pending, &mut self.pending);
        self.segments.push(Arc::new(pending));
        assert(self.chunks() =~= old(self).chunks());
    }

    /// Level of `len` hashes from the chunks that hold them.
    pub fn from_parts(chunks: Vec<Chunk>, len: usize) -> (level: Self)
        requires
            chunks@.len() == chunks_for(len as int),
        ensures
            level.wf(),
            level.size() == len,
            level.chunks() == chunks@,
            level@.len() == len,
            forall|c: int, o: int|
                0 <= c && 0 <= o < 128 && 128 * c + o < len ==> #[trigger] chunks@[c]@[o]
                    == level@[128 * c + o],
    {
        let mut level = ChunkedLevel { segments: Vec::new(), pending: Vec::new(), len };
        level.push_chunks(chunks);
        assert(level.chunks() =~= chunks@);
        level
    }

    /// Pushes chunks in order.
    fn push_chunks(&mut self, chunks: Vec<Chunk>)
        requires
            old(self).shaped(),
            old(self).chunks().len() + chunks@.len() <= usize::MAX,
        ensures
            final(self).shaped(),
            final(self).len == old(self).len,
            final(self).chunks() == old(self).chunks() + chunks@,
    {
        let ghost before = self.chunks();
        let ghost all = chunks@;
        for chunk in it: chunks
            invariant
                self.shaped(),
                self.len == old(self).len,
                before.len() + all.len() <= usize::MAX,
                it.seq() == all,
                self.chunks() == before + all.take(it.index()),
        {
            self.push_chunk(chunk);
            assert(self.chunks() =~= before + all.take(it.index() + 1));
        }
        assert(all.take(all.len() as int) =~= all);
    }

    /// Collects chunks from index `already` onward.
    pub fn chunks_since(&self, already: usize) -> (chunks: Vec<Chunk>)
        requires
            self.wf(),
        ensures
            chunks@ == (if already < self.chunks().len() {
                self.chunks().skip(already as int)
            } else {
                Seq::empty()
            }),
    {
        let mut chunks: Vec<Chunk> = Vec::new();
        let total: usize = self.chunk_count();
        let mut at: usize = already;
        while at < total
            invariant
                self.wf(),
                total == self.chunks().len(),
                already <= at,
                already < total ==> at <= total && chunks@ == self.chunks().subrange(
                    already as int,
                    at as int,
                ),
                already >= total ==> chunks@.len() == 0,
            decreases total - at,
        {
            chunks.push(self.chunk(at).clone());
            at += 1;
            assert(chunks@ =~= self.chunks().subrange(already as int, at as int));
        }
        assert(already < total ==> chunks@ =~= self.chunks().skip(already as int));
        assert(already >= total ==> chunks@ =~= Seq::empty());
        chunks
    }

    /// Replaces the first chunks by `mapped`, as far as there are chunks to replace.
    pub fn remap_chunks(&mut self, mapped: Vec<Chunk>)
        requires
            old(self).wf(),
        ensures
            final(self).wf(),
            final(self).size() == old(self).size(),
            final(self).chunks() == (if mapped@.len() < old(self).chunks().len() {
                mapped@ + old(self).chunks().skip(mapped@.len() as int)
            } else {
                mapped@.take(old(self).chunks().len() as int)
            }),
    {
        let total: usize = self.chunk_count();
        let remap_count: usize = if mapped.len() < total {
            mapped.len()
        } else {
            total
        };
        let ghost replaced = mapped@.take(remap_count as int);
        let unmapped: Vec<Chunk> = self.chunks_since(remap_count);
        let mut mapped = mapped;
        mapped.truncate(remap_count);
        self.segments.clear();
        self.pending.clear();
        assert(self.chunks() =~= Seq::empty());
        self.push_chunks(mapped);
        self.push_chunks(unmapped);
        assert(self.chunks() =~= replaced + unmapped@);
        assert(replaced.len() < total ==> replaced =~= mapped@);
    }
}

/// Overwrites `take` hashes from `offset` with what `fill` gives from `base`.
fn write_run<F: Fn(usize) -> Hash>(
    hashes: &mut [Hash; 128],
    offset: usize,
    take: usize,
    fill: &F,
    base: usize,
)
    requires
        offset + take <= CHUNK_SIZE,
        base + take <= usize::MAX,
        forall|i: usize| base <= i < base + take ==> call_requires(*fill, (i,)),
    ensures
        written(old(hashes)@, final(hashes)@, offset as int, take as int, *fill, base as int),
{
    let mut at: usize = 0;
    while at < take
        invariant
            at <= take,
            offset + take <= CHUNK_SIZE,
            base + take <= usize::MAX,
            forall|i: usize| base <= i < base + take ==> call_requires(*fill, (i,)),
            written(old(hashes)@, hashes@, offset as int, at as int, *fill, base as int),
        decreases take - at,
    {
        let hash = fill(base + at);
        let ghost before = hashes@;
        hashes[offset + at] = hash;
        at += 1;
        assert(hashes@ =~= before.update(offset + at - 1, hash));
        assert forall|i: int| offset <= i < offset + at implies call_ensures(
            *fill,
            ((base + i - offset) as usize,),
            #[trigger] hashes@[i],
        ) by {
            if i < offset + at - 1 {
                assert(hashes@[i] == before[i]);
            }
        }
    }
}

/// Whether `after` is `before` with `count` hashes from `start` replaced by what `fill` gives
/// from `base`.
pub open spec fn written<F: Fn(usize) -> Hash>(
    before: Seq<Hash>,
    after: Seq<Hash>,
    start: int,
    count: int,
    fill: F,
    base: int,
) -> bool {
    &&& after.len() == before.len()
    &&& forall|i: int|
        0 <= i < before.len() && !(start <= i < start + count) ==> #[trigger] after[i] == before[i]
    &&& forall|i: int|
        start <= i < start + count ==> call_ensures(
            fill,
            ((base + i - start) as usize,),
            #[trigger] after[i],
        )
}

impl ChunkedLevel {
    /// Overwrites part of a chunk, apart from other holders of the chunk.
    fn write_chunk<F: Fn(usize) -> Hash>(
        &mut self,
        chunk_idx: usize,
        offset: usize,
        take: usize,
        fill: &F,
        base: usize,
    )
        requires
            old(self).shaped(),
            chunk_idx < old(self).chunks().len(),
            offset + take <= CHUNK_SIZE,
            base + take <= usize::MAX,
            forall|i: usize| base <= i < base + take ==> call_requires(*fill, (i,)),
        ensures
            final(self).shaped(),
            final(self).len == old(self).len,
            final(self).chunks().len() == old(self).chunks().len(),
            forall|i: int|
                0 <= i < old(self).chunks().len() && i != chunk_idx
                    ==> #[trigger] final(self).chunks()[i] == old(self).chunks()[i],
            written(
                old(self).chunks()[chunk_idx as int]@,
                final(self).chunks()[chunk_idx as int]@,
                offset as int,
                take as int,
                *fill,
                base as int,
            ),
    {
        let committed: usize = self.segments.len() * CHUNKS_PER_SEGMENT;
        if chunk_idx < committed {
            let seg_idx: usize = chunk_idx / CHUNKS_PER_SEGMENT;
            let seg_off: usize = chunk_idx % CHUNKS_PER_SEGMENT;
            let segment = make_own(&mut self.segments[seg_idx]);
            write_run(segment[seg_off].make_mut(), offset, take, fill, base);
        } else {
            write_run(self.pending[chunk_idx - committed].make_mut(), offset, take, fill, base);
        }
    }

    /// Writes a hash at an index below `len`.
    pub fn set_preallocated(&mut self, index: usize, value: Hash)
        requires
            old(self).wf(),
            index < old(self)@.len(),
        ensures
            final(self).wf(),
            final(self)@ == old(self)@.update(index as int, value),
    {
        self.put(index / CHUNK_SIZE, index % CHUNK_SIZE, value);
        proof {
            assert forall|i: int| 0 <= i < self@.len() implies self@[i] == old(self)@.update(
                index as int,
                value,
            )[i] by {
                assert(i / 128 == index / 128 && i % 128 == index % 128 ==> i == index);
                assert(self.chunks()[i / 128]@.len() == 128) by {
                    self.chunks()[i / 128].lemma_len();
                }
            }
            assert(self@ =~= old(self)@.update(index as int, value));
        }
    }

    /// Overwrites `[start, start + count)` with hashes produced by `fill`.
    pub fn write_with<F: Fn(usize) -> Hash>(&mut self, start: usize, count: usize, fill: F)
        requires
            old(self).wf(),
            start + count <= old(self)@.len(),
            forall|i: usize| i < count ==> call_requires(fill, (i,)),
        ensures
            final(self).wf(),
            written(old(self)@, final(self)@, start as int, count as int, fill, 0),
            final(self)@.len() == old(self)@.len(),
            forall|i: int|
                0 <= i < old(self)@.len() && (i < start || start + count <= i)
                    ==> #[trigger] final(self)@[i] == old(self)@[i],
            forall|i: int|
                start <= i < start + count ==> call_ensures(
                    fill,
                    ((i - start) as usize,),
                    #[trigger] final(self)@[i],
                ),
    {
        let mut done: usize = 0;
        while done < count
            invariant
                self.wf(),
                start + count <= self@.len(),
                done <= count,
                forall|i: usize| i < count ==> call_requires(fill, (i,)),
                written(old(self)@, self@, start as int, done as int, fill, 0),
            decreases count - done,
        {
            let idx: usize = start + done;
            let offset: usize = idx % CHUNK_SIZE;
            let room: usize = CHUNK_SIZE - offset;
            let take: usize = if room < count - done {
                room
            } else {
                count - done
            };
            let ghost before = self@;
            let ghost chunks = self.chunks();
            self.write_chunk(idx / CHUNK_SIZE, offset, take, &fill, done);
            proof {
                lemma_chunk_written(
                    chunks,
                    self.chunks(),
                    self.size(),
                    idx as int,
                    take as int,
                    fill,
                    done as int,
                );
                assert forall|i: int| start <= i < start + done + take implies call_ensures(
                    fill,
                    ((0 + i - start) as usize,),
                    #[trigger] self@[i],
                ) by {
                    if i < idx {
                        assert(self@[i] == before[i]);
                    }
                }
                assert forall|i: int|
                    0 <= i < before.len() && !(start <= i < start + done
                        + take) implies #[trigger] self@[i] == old(self)@[i] by {
                    assert(self@[i] == before[i]);
                }
            }
            done += take;
        }
    }
}

/// Writing a run of one chunk writes the same hashes of the level.
proof fn lemma_chunk_written<F: Fn(usize) -> Hash>(
    before: Seq<Chunk>,
    after: Seq<Chunk>,
    len: int,
    start: int,
    take: int,
    fill: F,
    base: int,
)
    requires
        0 <= start,
        0 <= take,
        0 <= len,
        start % 128 + take <= CHUNK_SIZE,
        after.len() == before.len(),
        start / 128 < before.len(),
        forall|i: int|
            0 <= i < before.len() && i != start / 128 ==> #[trigger] after[i] == before[i],
        written(before[start / 128]@, after[start / 128]@, start % 128, take, fill, base),
        chunks_for(len) <= before.len(),
    ensures
        hashes_of(after, len).len() == len,
        forall|i: int|
            0 <= i < len && !(start <= i < start + take) ==> #[trigger] hashes_of(after, len)[i]
                == hashes_of(before, len)[i],
        forall|i: int|
            start <= i < start + take && i < len ==> call_ensures(
                fill,
                ((base + i - start) as usize,),
                #[trigger] hashes_of(after, len)[i],
            ),
{
    let chunk = start / 128;
    before[chunk].lemma_len();
    assert forall|i: int|
        0 <= i < len && !(start <= i < start + take) implies #[trigger] hashes_of(after, len)[i]
        == hashes_of(before, len)[i] by {
        if i / 128 == chunk {
            assert(after[chunk]@[i % 128] == before[chunk]@[i % 128]);
        }
    }
    assert forall|i: int| start <= i < start + take && i < len implies call_ensures(
        fill,
        ((base + i - start) as usize,),
        #[trigger] hashes_of(after, len)[i],
    ) by {
        assert(i / 128 == chunk);
        assert(i % 128 - start % 128 == i - start);
        assert(call_ensures(
            fill,
            ((base + i % 128 - start % 128) as usize,),
            after[chunk]@[i % 128],
        ));
    }
}

/// Whether chunk `ci` of those appended after the first `done` of `count` hashes holds its share.
spec fn chunk_filled<F: Fn(usize) -> Hash>(
    fill: &F,
    done: int,
    count: int,
    ci: int,
    hashes: Seq<Hash>,
) -> bool {
    let base = done + ci * 128;
    let take = if count - base < 128 {
        count - base
    } else {
        128
    };
    filled(*fill, base, take, hashes.take(take))
}

/// Whether `chunks` hold what `first` held of `len` hashes, and then what `fill` gives for `done`
/// more.
spec fn grown<F: Fn(usize) -> Hash>(
    first: Seq<Chunk>,
    chunks: Seq<Chunk>,
    len: int,
    done: int,
    fill: &F,
) -> bool {
    let hashes = hashes_of(chunks, len + done);
    &&& forall|i: int| 0 <= i < len ==> #[trigger] hashes[i] == hashes_of(first, len)[i]
    &&& forall|i: int|
        len <= i < len + done ==> call_ensures(*fill, ((i - len) as usize,), #[trigger] hashes[i])
}

impl ChunkedLevel {
    /// Fills the free slots of the last chunk with the first of `count` hashes; returns how many
    /// there were.
    fn fill_last<F: Fn(usize) -> Hash>(&mut self, count: usize, fill: &F) -> (done: usize)
        requires
            old(self).wf(),
            old(self).len + count <= usize::MAX,
            forall|i: usize| i < count ==> call_requires(*fill, (i,)),
        ensures
            final(self).shaped(),
            final(self).len == old(self).len,
            final(self).chunks().len() == old(self).chunks().len(),
            done <= count,
            done < count ==> old(self).chunks().len() * 128 == old(self).len + done,
            chunks_for(old(self).len + done) == old(self).chunks().len(),
            grown(
                old(self).chunks(),
                final(self).chunks(),
                old(self).len as int,
                done as int,
                fill,
            ),
    {
        let ghost len = self.len as int;
        let ghost first = self.chunks();
        let offset: usize = self.len % CHUNK_SIZE;
        if offset == 0 {
            return 0;
        }
        let room: usize = CHUNK_SIZE - offset;
        let done: usize = if room < count {
            room
        } else {
            count
        };
        self.write_chunk(self.len / CHUNK_SIZE, offset, done, fill, 0);
        proof {
            lemma_chunk_written(first, self.chunks(), len + done, len, done as int, *fill, 0);
            let hashes = hashes_of(self.chunks(), len + done);
            assert forall|i: int| 0 <= i < len implies #[trigger] hashes[i] == hashes_of(
                first,
                len,
            )[i] by {
                assert(hashes[i] == hashes_of(first, len + done)[i]);
            }
            assert forall|i: int| len <= i < len + done implies call_ensures(
                *fill,
                ((i - len) as usize,),
                #[trigger] hashes[i],
            ) by {
                assert(call_ensures(*fill, ((0 + i - len) as usize,), hashes[i]));
            }
        }
        done
    }

    /// Appends new chunks with all of `count` hashes but the first `done`.
    fn append_chunks<F: Fn(usize) -> Hash + Sync>(&mut self, done: usize, count: usize, fill: &F)
        requires
            old(self).shaped(),
            done < count,
            old(self).len + count <= usize::MAX,
            old(self).chunks().len() * 128 == old(self).len + done,
            forall|i: usize| i < count ==> call_requires(*fill, (i,)),
        ensures
            final(self).shaped(),
            final(self).len == old(self).len,
            final(self).chunks().len() == chunks_for(old(self).len + count),
            old(self).chunks() == final(self).chunks().take(old(self).chunks().len() as int),
            forall|i: int|
                old(self).len + done <= i < old(self).len + count ==> call_ensures(
                    *fill,
                    ((i - old(self).len) as usize,),
                    #[trigger] hashes_of(final(self).chunks(), old(self).len + count)[i],
                ),
    {
        let ghost first = self.chunks();
        let rest: usize = count - done;
        let n: usize = rest / CHUNK_SIZE + (if rest % CHUNK_SIZE > 0 {
            1
        } else {
            0
        });
        assert((n - 1) * 128 < rest <= n * 128);
        let build = |ci: usize| -> (chunk: Chunk)
            requires
                ci < n,
            ensures
                chunk_filled(fill, done as int, count as int, ci as int, chunk@),
            {
                let base: usize = done + ci * CHUNK_SIZE;
                let take: usize = if count - base < CHUNK_SIZE {
                    count - base
                } else {
                    CHUNK_SIZE
                };
                fill_chunk(fill, base, take)
            };
        let built = build_chunks(n, build);
        proof {
            assert forall|ci: int| 0 <= ci < built@.len() implies chunk_filled(
                fill,
                done as int,
                count as int,
                ci,
                #[trigger] built@[ci]@,
            ) by {
                assert(call_ensures(build, (ci as usize,), built@[ci]));
            }
            lemma_appended(fill, first, built@, self.len as int, done as int, count as int);
        }
        self.push_chunks(built);
        assert(first =~= self.chunks().take(first.len() as int));
    }

    /// Appends `count` hashes produced by `fill`; hash `i` of those is `fill(i)`.
    pub fn extend_with<F: Fn(usize) -> Hash + Sync>(
        &mut self,
        count: usize,
        fill: F,
    ) -> (extended: Result<(), TreeError>)
        requires
            old(self).wf(),
            forall|i: usize| i < count ==> call_requires(fill, (i,)),
        ensures
            final(self).wf(),
            extended is Ok <==> old(self)@.len() + count <= usize::MAX,
            extended is Err ==> extended->Err_0 == TreeError::MathError && *final(self)
                == *old(self),
            extended is Ok ==> {
                &&& final(self)@.len() == old(self)@.len() + count
                &&& final(self)@.take(old(self)@.len() as int) == old(self)@
                &&& filled(fill, 0, count as int, final(self)@.skip(old(self)@.len() as int))
                &&& forall|i: int|
                    old(self)@.len() <= i < old(self)@.len() + count ==> call_ensures(
                        fill,
                        ((i - old(self)@.len()) as usize,),
                        #[trigger] final(self)@[i],
                    )
            },
    {
        if count == 0 {
            assert(self@.take(self@.len() as int) =~= self@);
            return Ok(());
        }
        let ghost first = self.chunks();
        let ghost len = self.len as int;
        let new_len: usize = match self.len.checked_add(count) {
            Some(new_len) => new_len,
            None => {
                return Err(TreeError::MathError);
            },
        };
        let done: usize = self.fill_last(count, &fill);
        let ghost tailed = self.chunks();
        if done < count {
            self.append_chunks(done, count, &fill);
        }
        self.len = new_len;
        proof {
            if done == count {
                assert(tailed =~= self.chunks().take(tailed.len() as int));
            }
            lemma_grown(first, tailed, self.chunks(), len, done as int, count as int, &fill);
            let tail = self@.skip(len);
            assert forall|i: int| len <= i < len + count implies call_ensures(
                fill,
                ((i - len) as usize,),
                #[trigger] self@[i],
            ) by {
                assert(tail[i - len] == self@[i]);
            }
        }
        Ok(())
    }
}

/// A level that kept its hashes and grew by `count` is its former hashes and what `fill` gives.
proof fn lemma_grown<F: Fn(usize) -> Hash>(
    first: Seq<Chunk>,
    tailed: Seq<Chunk>,
    chunks: Seq<Chunk>,
    len: int,
    done: int,
    count: int,
    fill: &F,
)
    requires
        0 <= len,
        0 <= done <= count,
        grown(first, tailed, len, done, fill),
        chunks_for(len + done) == tailed.len(),
        tailed.len() <= chunks.len(),
        tailed == chunks.take(tailed.len() as int),
        forall|i: int|
            len + done <= i < len + count ==> call_ensures(
                *fill,
                ((i - len) as usize,),
                #[trigger] hashes_of(chunks, len + count)[i],
            ),
    ensures
        hashes_of(chunks, len + count).take(len) == hashes_of(first, len),
        filled(*fill, 0, count, hashes_of(chunks, len + count).skip(len)),
{
    let hashes = hashes_of(chunks, len + count);
    assert forall|i: int| 0 <= i < len + done implies #[trigger] hashes[i] == hashes_of(
        tailed,
        len + done,
    )[i] by {
        assert(i / 128 < tailed.len());
        assert(chunks.take(tailed.len() as int)[i / 128] == chunks[i / 128]);
    }
    assert(hashes.take(len) =~= hashes_of(first, len));
    assert forall|i: int| 0 <= i < count implies call_ensures(
        *fill,
        ((0 + i) as usize,),
        #[trigger] hashes.skip(len)[i],
    ) by {
        let j = len + i;
        assert(hashes.skip(len)[i] == hashes[j]);
        if i < done {
            assert(hashes_of(tailed, len + done)[j] == hashes[j]);
        }
        assert(call_ensures(*fill, ((j - len) as usize,), hashes[j]));
    }
}

/// Chunks appended after a level's last full chunk hold the rest of what `fill` gives.
proof fn lemma_appended<F: Fn(usize) -> Hash>(
    fill: &F,
    first: Seq<Chunk>,
    built: Seq<Chunk>,
    len: int,
    done: int,
    count: int,
)
    requires
        0 <= len,
        0 <= done < count,
        (len + done) % 128 == 0,
        first.len() * 128 == len + done,
        (built.len() - 1) * 128 < count - done <= built.len() * 128,
        forall|ci: int|
            0 <= ci < built.len() ==> chunk_filled(fill, done, count, ci, #[trigger] built[ci]@),
    ensures
        chunks_for(len + count) == (first + built).len(),
        forall|i: int|
            len + done <= i < len + count ==> call_ensures(
                *fill,
                ((i - len) as usize,),
                #[trigger] hashes_of(first + built, len + count)[i],
            ),
{
    assert forall|i: int| len + done <= i < len + count implies call_ensures(
        *fill,
        ((i - len) as usize,),
        #[trigger] hashes_of(first + built, len + count)[i],
    ) by {
        let ci = i / 128 - first.len();
        let base = done + ci * 128;
        let take = if count - base < 128 {
            count - base
        } else {
            128
        };
        assert((first + built)[i / 128] == built[ci]);
        assert(chunk_filled(fill, done, count, ci, built[ci]@));
        built[ci].lemma_len();
        assert(built[ci]@.take(take)[i % 128] == built[ci]@[i % 128]);
        assert(base + i % 128 == i - len);
    }
}

/// `hashes` with zero hashes after it, up to `target` of them.
pub open spec fn zero_extended(hashes: Seq<Hash>, target: int, grown: Seq<Hash>) -> bool {
    &&& grown.len() == (if hashes.len() < target {
        target
    } else {
        hashes.len() as int
    })
    &&& grown.take(hashes.len() as int) == hashes
    &&& forall|i: int| hashes.len() <= i < grown.len() ==> is_zero(#[trigger] grown[i])
}

impl ChunkedLevel {
    /// Appends a copy of `values`.
    pub fn extend(&mut self, values: &[Hash]) -> (extended: Result<(), TreeError>)
        requires
            old(self).wf(),
        ensures
            final(self).wf(),
            extended is Ok <==> old(self)@.len() + values@.len() <= usize::MAX,
            extended is Err ==> extended->Err_0 == TreeError::MathError && *final(self)
                == *old(self),
            extended is Ok ==> final(self)@ == old(self)@ + values@,
    {
        let ghost before = self@;
        let copy = |i: usize| -> (hash: Hash)
            requires
                i < values@.len(),
            ensures
                hash == values@[i as int],
            { values[i] };
        let extended = self.extend_with(values.len(), copy);
        proof {
            if extended is Ok {
                let tail = self@.skip(before.len() as int);
                assert forall|i: int| 0 <= i < values@.len() implies tail[i] == values@[i] by {
                    assert(call_ensures(copy, ((0 + i) as usize,), tail[i]));
                }
                assert(self@ =~= self@.take(before.len() as int) + tail);
                assert(tail =~= values@);
            }
        }
        extended
    }

    /// Appends one hash.
    pub fn push(&mut self, value: Hash) -> (pushed: Result<(), TreeError>)
        requires
            old(self).wf(),
        ensures
            final(self).wf(),
            pushed is Ok <==> old(self)@.len() < usize::MAX,
            pushed is Err ==> pushed->Err_0 == TreeError::MathError && *final(self)
                == *old(self),
            pushed is Ok ==> final(self)@ == old(self)@.push(value),
    {
        let ghost before = self@;
        let values: [Hash; 1] = [value];
        let pushed = self.extend(&values);
        assert(before + values@ =~= before.push(value));
        pushed
    }

    /// Grows to `target`, zero-filling the new slots.
    pub fn ensure_len(&mut self, target: usize) -> (ensured: Result<(), TreeError>)
        requires
            old(self).wf(),
        ensures
            final(self).wf(),
            ensured is Ok,
            zero_extended(old(self)@, target as int, final(self)@),
            final(self)@.len() == (if old(self)@.len() < target {
                target as int
            } else {
                old(self)@.len() as int
            }),
            forall|i: int|
                0 <= i < old(self)@.len() ==> #[trigger] final(self)@[i] == old(self)@[i],
            forall|i: int, byte: int|
                old(self)@.len() <= i < final(self)@.len() && 0 <= byte < 32
                    ==> #[trigger] final(self)@[i]@[byte] == 0,
    {
        let ghost before = self@;
        if self.len >= target {
            assert(self@.take(self@.len() as int) =~= self@);
            return Ok(());
        }
        let zero = |i: usize| -> (hash: Hash)
            ensures
                is_zero(hash),
            {
                let hash: Hash = [0u8; 32];
                assert(hash@ =~= Seq::new(32, |i: int| 0u8));
                hash
            };
        let ensured = self.extend_with(target - self.len, zero);
        proof {
            let tail = self@.skip(before.len() as int);
            assert forall|i: int| before.len() <= i < self@.len() implies is_zero(
                #[trigger] self@[i],
            ) by {
                let j = i - before.len();
                assert(self@[i] == tail[j]);
                assert(call_ensures(zero, ((0 + j) as usize,), tail[j]));
            }
        }
        ensured
    }

    /// Writes a hash at the given index, growing the level to hold it.
    pub fn set(&mut self, index: usize, value: Hash) -> (set: Result<(), TreeError>)
        requires
            old(self).wf(),
            index < usize::MAX,
        ensures
            final(self).wf(),
            set is Ok,
            exists|grown: Seq<Hash>| #[trigger]
                zero_extended(old(self)@, index + 1, grown) && final(self)@ == grown.update(
                    index as int,
                    value,
                ),
            final(self)@.len() == (if index < old(self)@.len() {
                old(self)@.len() as int
            } else {
                index + 1
            }),
            final(self)@[index as int] == value,
            forall|i: int|
                0 <= i < old(self)@.len() && i != index ==> #[trigger] final(self)@[i]
                    == old(self)@[i],
            forall|i: int, byte: int|
                old(self)@.len() <= i < index && 0 <= byte < 32
                    ==> #[trigger] final(self)@[i]@[byte] == 0,
    {
        let ghost before = self@;
        if self.len <= index {
            match self.ensure_len(index + 1) {
                Ok(_) => {},
                Err(error) => {
                    return Err(error);
                },
            }
        } else {
            assert(before.take(before.len() as int) =~= before);
        }
        assert(zero_extended(before, index + 1, self@));
        self.set_preallocated(index, value);
        Ok(())
    }

    /// Borrows `[start, start + count)` as contiguous runs, one per chunk.
    pub fn runs(&self, start: usize, count: usize) -> (runs: Vec<&[Hash]>)
        requires
            self.wf(),
            start + count <= self@.len(),
        ensures
            runs@.map_values(|run: &[Hash]| run@) == runs_of(self@, start as int, count as int),
    {
        let mut runs: Vec<&[Hash]> = Vec::new();
        let mut done: usize = 0;
        let ghost all = runs_of(self@, start as int, count as int);
        assert(runs@.map_values(|run: &[Hash]| run@) =~= Seq::empty());
        assert(Seq::<Seq<Hash>>::empty() + all =~= all);
        while done < count
            invariant
                self.wf(),
                start + count <= self@.len(),
                done <= count,
                all == runs@.map_values(|run: &[Hash]| run@) + runs_of(
                    self@,
                    start + done,
                    count - done,
                ),
            decreases count - done,
        {
            let idx: usize = start + done;
            let offset: usize = idx % CHUNK_SIZE;
            let room: usize = CHUNK_SIZE - offset;
            let take: usize = if room < count - done {
                room
            } else {
                count - done
            };
            let chunk = self.chunk(idx / CHUNK_SIZE);
            proof {
                chunk.lemma_len();
            }
            let hashes = chunk.as_slice().as_slice();
            let run = vstd::slice::slice_subrange(hashes, offset, offset + take);
            proof {
                assert forall|i: int| 0 <= i < take implies run@[i] == self@[idx + i] by {
                    assert((idx + i) / 128 == idx / 128);
                    assert((idx + i) % 128 == offset + i);
                }
                assert(run@ =~= self@.subrange(idx as int, idx + take));
            }
            let ghost before = runs@.map_values(|run: &[Hash]| run@);
            let ghost rest = runs_of(self@, idx + take, count - done - take);
            runs.push(run);
            assert(runs@.map_values(|run: &[Hash]| run@) =~= before.push(run@));
            assert(before + (seq![run@] + rest) =~= before.push(run@) + rest);
            done += take;
        }
        assert(runs_of(self@, start + count, 0) =~= Seq::empty());
        assert(all =~= runs@.map_values(|run: &[Hash]| run@));
        runs
    }

    /// Copies `[start, start + count)` into `out`.
    pub fn get_group(&self, start: usize, count: usize, out: &mut [Hash])
        requires
            self.wf(),
            start + count <= self@.len(),
            count <= old(out)@.len(),
        ensures
            final(out)@ == self@.subrange(start as int, start + count) + old(out)@.skip(
                count as int,
            ),
    {
        let mut done: usize = 0;
        assert(out@ =~= self@.subrange(start as int, start as int) + old(out)@.skip(0));
        while done < count
            invariant
                self.wf(),
                start + count <= self@.len(),
                count <= old(out)@.len(),
                done <= count,
                out@ == self@.subrange(start as int, start + done) + old(out)@.skip(done as int),
            decreases count - done,
        {
            let idx: usize = start + done;
            let offset: usize = idx % CHUNK_SIZE;
            let room: usize = CHUNK_SIZE - offset;
            let take: usize = if room < count - done {
                room
            } else {
                count - done
            };
            let hashes = self.chunk(idx / CHUNK_SIZE).as_slice();
            let mut at: usize = 0;
            while at < take
                invariant
                    self.wf(),
                    hashes@ == self.chunks()[idx as int / 128]@,
                    idx == start + done,
                    offset == idx % 128,
                    at <= take <= count - done,
                    offset + take <= 128,
                    start + count <= self@.len(),
                    count <= old(out)@.len(),
                    done <= count,
                    out@ == self@.subrange(start as int, idx + at) + old(out)@.skip(done + at),
                decreases take - at,
            {
                assert((idx + at) / 128 == idx / 128);
                assert((idx + at) % 128 == offset + at);
                out[done + at] = hashes[offset + at];
                at += 1;
                assert(out@ =~= self@.subrange(start as int, idx + at) + old(out)@.skip(done + at));
            }
            done += take;
        }
    }
}

/// The runs of a range, one after the other, are the range, and none is longer than a chunk.
pub proof fn law_runs_cover_the_range(hashes: Seq<Hash>, start: int, count: int)
    requires
        0 <= start,
        0 <= count,
        start + count <= hashes.len(),
    ensures
        runs_of(hashes, start, count).flatten() == hashes.subrange(start, start + count),
        forall|i: int|
            0 <= i < runs_of(hashes, start, count).len() ==> 0 < (#[trigger] runs_of(
                hashes,
                start,
                count,
            )[i]).len() <= CHUNK_SIZE,
    decreases count,
{
    let runs = runs_of(hashes, start, count);
    if count == 0 {
        assert(runs =~= Seq::empty());
        assert(hashes.subrange(start, start) =~= Seq::empty());
        assert(runs.flatten() =~= Seq::empty());
    } else {
        let room = CHUNK_SIZE - start % CHUNK_SIZE as int;
        let take = if room < count {
            room
        } else {
            count
        };
        let run = hashes.subrange(start, start + take);
        let rest = runs_of(hashes, start + take, count - take);
        law_runs_cover_the_range(hashes, start + take, count - take);
        assert(runs.drop_first() =~= rest);
        assert(runs.first() == run);
        assert(run + hashes.subrange(start + take, start + count) =~= hashes.subrange(
            start,
            start + count,
        ));
        assert forall|i: int| 0 <= i < runs.len() implies 0 < (#[trigger] runs[i]).len()
            <= CHUNK_SIZE by {
            if i > 0 {
                assert(runs[i] == rest[i - 1]);
            }
        }
    }
}

/// Runs break where chunks do: each chunk that the range touches gives one run, which is all
/// that the range has in it.
pub proof fn law_runs_break_at_chunks(hashes: Seq<Hash>, start: int, count: int, k: int)
    requires
        0 <= start,
        0 < count,
        start + count <= hashes.len(),
        0 <= k < runs_of(hashes, start, count).len(),
    ensures
        runs_of(hashes, start, count).len() == (start + count - 1) / 128 - start / 128 + 1,
        runs_of(hashes, start, count)[k] == hashes.subrange(
            if k == 0 {
                start
            } else {
                128 * (start / 128 + k)
            },
            if start + count < 128 * (start / 128 + k + 1) {
                start + count
            } else {
                128 * (start / 128 + k + 1)
            },
        ),
    decreases count,
{
    let room = 128 - start % 128;
    let take = if room < count {
        room
    } else {
        count
    };
    let rest = runs_of(hashes, start + take, count - take);
    if take < count {
        assert((start + take) / 128 == start / 128 + 1);
        assert((start + take) % 128 == 0);
        if k == 0 {
            law_runs_break_at_chunks(hashes, start + take, count - take, 0);
        } else {
            law_runs_break_at_chunks(hashes, start + take, count - take, k - 1);
            assert(runs_of(hashes, start, count)[k] == rest[k - 1]);
        }
    } else {
        assert(rest =~= Seq::empty());
        assert((start + count - 1) / 128 == start / 128);
    }
}

} // verus!
