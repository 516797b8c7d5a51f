//! Bounded history of the blocks a fold has observed.
use vstd::prelude::*;

use crate::position::BlockRef;

verus! {

/// Bounded history of observed blocks, structure of arrays.
///
/// The view lists the retained blocks oldest first. A push onto a full ring forgets the
/// oldest block.
#[derive(Debug)]
pub struct BlockRing {
    numbers: Vec<u64>,
    hashes: Vec<[u8; 32]>,
    head: usize,
    len: usize,
}

/// True when the block numbers ascend strictly.
pub open spec fn ascending(blocks: Seq<BlockRef>) -> bool {
    forall|i: int, j: int| 0 <= i < j < blocks.len() ==> blocks[i].number < blocks[j].number
}

/// A window of at most `capacity` blocks after `block` joined it.
pub open spec fn slide(window: Seq<BlockRef>, block: BlockRef, capacity: nat) -> Seq<BlockRef> {
    if window.len() < capacity {
        window.push(block)
    } else {
        window.drop_first().push(block)
    }
}

/// True when the window holds a block of that number.
pub open spec fn observed_in(window: Seq<BlockRef>, number: u64) -> bool {
    exists|i: int| 0 <= i < window.len() && (#[trigger] window[i]).number == number
}

/// The hash that the window holds for a block number.
pub open spec fn hash_in(window: Seq<BlockRef>, number: u64) -> Option<[u8; 32]> {
    if observed_in(window, number) {
        let i = choose|i: int| 0 <= i < window.len() && (#[trigger] window[i]).number == number;
        Some(window[i].hash)
    } else {
        None
    }
}

/// The number of leading blocks of an ascending window that sit at or below `number`.
pub open spec fn count_at_or_below(window: Seq<BlockRef>, number: u64) -> nat
    decreases window.len(),
{
    if window.len() == 0 {
        0
    } else if window.last().number <= number {
        window.len()
    } else {
        count_at_or_below(window.drop_last(), number)
    }
}

/// The blocks of an ascending window that sit at or below `number`.
pub open spec fn at_or_below(window: Seq<BlockRef>, number: u64) -> Seq<BlockRef> {
    window.take(count_at_or_below(window, number) as int)
}

/// In an ascending window each number is held once.
pub proof fn lemma_hash_in(window: Seq<BlockRef>, i: int)
    requires
        ascending(window),
        0 <= i < window.len(),
    ensures
        hash_in(window, window[i].number) == Some(window[i].hash),
{
    let number = window[i].number;
    assert(observed_in(window, number));
    let j = choose|j: int| 0 <= j < window.len() && (#[trigger] window[j]).number == number;
    assert(i == j) by {
        if i < j {
            assert(window[i].number < window[j].number);
        } else if j < i {
            assert(window[j].number < window[i].number);
        }
    }
}

/// A window stays ascending and within its capacity when a higher block joins.
pub proof fn lemma_slide(window: Seq<BlockRef>, block: BlockRef, capacity: nat)
    requires
        ascending(window),
        window.len() <= capacity,
        0 < capacity,
        window.len() > 0 ==> window.last().number < block.number,
    ensures
        ascending(slide(window, block, capacity)),
        slide(window, block, capacity).len() <= capacity,
        slide(window, block, capacity).last() == block,
{
    let after = slide(window, block, capacity);
    assert forall|i: int, j: int| 0 <= i < j < after.len() implies after[i].number
        < after[j].number by {
        let shift: int = if window.len() < capacity {
            0
        } else {
            1
        };
        if j < after.len() - 1 {
            assert(after[i] == window[i + shift]);
            assert(after[j] == window[j + shift]);
        } else {
            assert(after[i] == window[i + shift]);
            if i + shift < window.len() - 1 {
                assert(window[i + shift].number < window[window.len() - 1].number);
            }
        }
    }
}

/// What `count_at_or_below` counts: the blocks before it sit at or below, the rest above.
pub proof fn lemma_count_at_or_below(window: Seq<BlockRef>, number: u64)
    requires
        ascending(window),
    ensures
        count_at_or_below(window, number) <= window.len(),
        forall|i: int|
            0 <= i < count_at_or_below(window, number) ==> (#[trigger] window[i]).number <= number,
        forall|i: int|
            count_at_or_below(window, number) <= i < window.len() ==> (#[trigger] window[i]).number
                > number,
    decreases window.len(),
{
    if window.len() > 0 {
        if window.last().number <= number {
            assert forall|i: int| 0 <= i < window.len() implies (#[trigger] window[i]).number
                <= number by {
                if i < window.len() - 1 {
                    assert(window[i].number < window[window.len() - 1].number);
                }
            }
        } else {
            let shorter = window.drop_last();
            lemma_count_at_or_below(shorter, number);
            assert forall|i: int|
                0 <= i < count_at_or_below(window, number) implies (#[trigger] window[i]).number
                <= number by {
                assert(shorter[i] == window[i]);
            }
            assert forall|i: int|
                count_at_or_below(window, number) <= i < window.len() implies (
            #[trigger] window[i]).number > number by {
                if i < window.len() - 1 {
                    assert(shorter[i] == window[i]);
                }
            }
        }
    }
}

/// Cutting an ascending window at a number it holds leaves that block newest.
pub proof fn lemma_at_or_below(window: Seq<BlockRef>, number: u64)
    requires
        ascending(window),
    ensures
        ascending(at_or_below(window, number)),
        at_or_below(window, number).len() <= window.len(),
        observed_in(window, number) ==> at_or_below(window, number).len() > 0 && at_or_below(
            window,
            number,
        ).last().number == number,
{
    lemma_count_at_or_below(window, number);
    let count = count_at_or_below(window, number) as int;
    let cut = at_or_below(window, number);
    assert forall|i: int, j: int| 0 <= i < j < cut.len() implies cut[i].number
        < cut[j].number by {
        assert(cut[i] == window[i]);
        assert(cut[j] == window[j]);
    }
    if observed_in(window, number) {
        let k = choose|k: int| 0 <= k < window.len() && (#[trigger] window[k]).number == number;
        assert(k < count);
        if k < count - 1 {
            assert(window[k].number < window[count - 1].number);
        }
        assert(cut.last() == window[count - 1]);
    }
}

impl View for BlockRing {
    type V = Seq<BlockRef>;

    closed spec fn view(&self) -> Seq<BlockRef> {
        Seq::new(self.len as nat, |i: int| self.entry(i))
    }
}

impl BlockRing {
    /// Physical slot of the entry at a logical index.
    spec fn slot(&self, logical: int) -> int {
        if self.head + logical < self.numbers@.len() {
            self.head + logical
        } else {
            self.head + logical - self.numbers@.len()
        }
    }

    spec fn entry(&self, logical: int) -> BlockRef {
        BlockRef {
            number: self.numbers@[self.slot(logical)],
            hash: self.hashes@[self.slot(logical)],
        }
    }

    /// Blocks the ring can retain.
    pub closed spec fn limit(&self) -> nat {
        self.numbers@.len()
    }

    /// The lanes agree in length and the retained blocks ascend.
    pub closed spec fn wf(&self) -> bool {
        &&& self.numbers@.len() == self.hashes@.len()
        &&& 0 < self.numbers@.len()
        &&& self.head < self.numbers@.len()
        &&& self.len <= self.numbers@.len()
        &&& ascending(self@)
    }

    /// A well-formed ring holds at most `limit` blocks, in ascending order.
    pub proof fn lemma_wf(&self)
        requires
            self.wf(),
        ensures
            self@.len() <= self.limit(),
            0 < self.limit() <= usize::MAX,
            ascending(self@),
    {
        assert(self.numbers.len() <= usize::MAX);
    }

    /// Builds an empty ring retaining up to `capacity` blocks.
    pub fn with_capacity(capacity: usize) -> (ring: Self)
        requires
            0 < capacity,
        ensures
            ring.wf(),
            ring.limit() == capacity,
            ring@ == Seq::<BlockRef>::empty(),
    {
        let mut numbers: Vec<u64> = Vec::with_capacity(capacity);
        let mut hashes: Vec<[u8; 32]> = Vec::with_capacity(capacity);
        let mut filled: usize = 0;
        while filled < capacity
            invariant
                filled <= capacity,
                numbers@.len() == filled,
                hashes@.len() == filled,
            decreases capacity - filled,
        {
            numbers.push(0);
            hashes.push([0u8;32]);
            filled += 1;
        }
        BlockRing { numbers, hashes, head: 0, len: 0 }
    }

    /// Blocks the ring can retain.
    pub fn capacity(&self) -> (capacity: usize)
        ensures
            capacity == self.limit(),
    {
        self.numbers.len()
    }

    /// Blocks the ring retains.
    pub fn len(&self) -> (len: usize)
        ensures
            len == self@.len(),
    {
        self.len
    }

    /// True when the ring retains no block.
    pub fn is_empty(&self) -> (empty: bool)
        ensures
            empty == (self@.len() == 0),
    {
        self.len == 0
    }

    fn physical(&self, logical: usize) -> (slot: usize)
        requires
            self.wf(),
            logical < self.numbers@.len(),
        ensures
            slot == self.slot(logical as int),
            slot < self.numbers@.len(),
    {
        let wrap = self.numbers.len() - self.head;
        if logical < wrap {
            self.head + logical
        } else {
            logical - wrap
        }
    }

    /// Pushes a block with number strictly above the newest; overwrites the oldest when full.
    pub fn push(&mut self, block: BlockRef)
        requires
            old(self).wf(),
            old(self)@.len() > 0 ==> old(self)@.last().number < block.number,
        ensures
            final(self).wf(),
            final(self).limit() == old(self).limit(),
            final(self)@ == slide(old(self)@, block, old(self).limit()),
            final(self)@.len() == (if old(self)@.len() < old(self).limit() {
                old(self)@.len() + 1
            } else {
                old(self)@.len()
            }),
            final(self)@.last() == block,
            forall|i: int|
                0 < i < final(self)@.len() ==> #[trigger] final(self)@[final(self)@.len() - 1 - i]
                    == old(self)@[old(self)@.len() - i],
    {
        let ghost before = self@;
        let ghost limit = self.limit();
        proof {
            lemma_slide(before, block, limit);
        }
        let capacity = self.numbers.len();
        if self.len < capacity {
            let index = self.physical(self.len);
            self.numbers.set(index, block.number);
            self.hashes.set(index, block.hash);
            self.len = self.len + 1;
            proof {
                assert forall|i: int| 0 <= i < self@.len() implies self@[i] == slide(
                    before,
                    block,
                    limit,
                )[i] by {
                    if i < before.len() {
                        assert(old(self).slot(i) != index);
                        assert(self@[i] == old(self).entry(i));
                    }
                }
                assert(self@ =~= slide(before, block, limit));
            }
        } else {
            let index = self.head;
            self.numbers.set(index, block.number);
            self.hashes.set(index, block.hash);
            self.head =
            if index + 1 == capacity {
                0
            } else {
                index + 1
            };
            proof {
                assert forall|i: int| 0 <= i < self@.len() implies self@[i] == slide(
                    before,
                    block,
                    limit,
                )[i] by {
                    if i < before.len() - 1 {
                        assert(old(self).slot(i + 1) != index);
                        assert(self@[i] == old(self).entry(i + 1));
                    }
                }
                assert(self@ =~= slide(before, block, limit));
            }
        }
    }

    /// Newest retained block.
    pub fn newest(&self) -> (newest: Option<BlockRef>)
        requires
            self.wf(),
        ensures
            newest == (if self@.len() == 0 {
                None
            } else {
                Some(self@.last())
            }),
    {
        if self.len == 0 {
            None
        } else {
            Some(self.get(self.len - 1))
        }
    }

    /// Oldest-first access; index must be below len.
    pub fn get(&self, index: usize) -> (block: BlockRef)
        requires
            self.wf(),
            index < self@.len(),
        ensures
            block == self@[index as int],
    {
        let physical = self.physical(index);
        BlockRef { number: self.numbers[physical], hash: self.hashes[physical] }
    }

    /// Hash for an exact number if still observed.
    pub fn hash_at(&self, number: u64) -> (hash: Option<[u8; 32]>)
        requires
            self.wf(),
        ensures
            hash == hash_in(self@, number),
            forall|i: int|
                0 <= i < self@.len() && (#[trigger] self@[i]).number == number ==> hash == Some(
                    self@[i].hash,
                ),
            hash is Some ==> exists|i: int|
                0 <= i < self@.len() && (#[trigger] self@[i]).number == number,
    {
        let mut low: usize = 0;
        let mut high: usize = self.len;
        while low < high
            invariant
                self.wf(),
                low <= high <= self@.len(),
                forall|i: int| 0 <= i < low ==> (#[trigger] self@[i]).number < number,
                forall|i: int| high <= i < self@.len() ==> (#[trigger] self@[i]).number > number,
            decreases high - low,
        {
            let mid = low + (high - low) / 2;
            let block = self.get(mid);
            if block.number < number {
                low = mid + 1;
            } else if block.number == number {
                proof {
                    lemma_hash_in(self@, mid as int);
                }
                return Some(block.hash);
            } else {
                high = mid;
            }
        }
        None
    }

    /// True when the ring still holds the block of that number.
    pub fn observes(&self, number: u64) -> (yes: bool)
        requires
            self.wf(),
        ensures
            yes == observed_in(self@, number),
    {
        self.hash_at(number).is_some()
    }

    /// Forgets every block above `number`.
    pub fn truncate_above(&mut self, number: u64)
        requires
            old(self).wf(),
        ensures
            final(self).wf(),
            final(self).limit() == old(self).limit(),
            final(self)@ == at_or_below(old(self)@, number),
            final(self)@.len() <= old(self)@.len(),
            final(self)@ == old(self)@.take(final(self)@.len() as int),
            forall|i: int|
                0 <= i < old(self)@.len() ==> ((#[trigger] old(self)@[i]).number <= number <==> i
                    < final(self)@.len()),
    {
        let ghost before = self@;
        proof {
            lemma_count_at_or_below(before, number);
            lemma_at_or_below(before, number);
        }
        while self.len > 0 && self.get(self.len - 1).number > number
            invariant
                self.wf(),
                self.limit() == old(self).limit(),
                self.len <= before.len(),
                self@ == before.take(self.len as int),
                count_at_or_below(before, number) == count_at_or_below(self@, number),
            decreases self.len,
        {
            let ghost here = self@;
            self.len = self.len - 1;
            assert(self@ =~= here.drop_last());
            assert(self@ =~= before.take(self.len as int));
        }
        assert(self@ =~= at_or_below(before, number));
    }

    /// Empties the ring, keeping the allocation; stale slots stay unreachable below len.
    pub fn clear(&mut self)
        requires
            old(self).wf(),
        ensures
            final(self).wf(),
            final(self).limit() == old(self).limit(),
            final(self)@ == Seq::<BlockRef>::empty(),
    {
        self.head = 0;
        self.len = 0;
        assert(self@ =~= Seq::<BlockRef>::empty());
    }

    /// Walks the retained blocks oldest first.
    pub fn iter(&self) -> (blocks: Observed<'_>)
        requires
            self.wf(),
        ensures
            blocks.wf(),
            blocks@ == self@,
    {
        let blocks = Observed { ring: self, next: 0, remaining: self.len };
        assert(blocks@ =~= self@);
        blocks
    }
}

impl Clone for BlockRing {
    /// Copies the ring; the copy changes apart from the original.
    fn clone(&self) -> (copy: Self)
        ensures
            copy.wf() == self.wf(),
            copy.limit() == self.limit(),
            copy@ == self@,
    {
        let copy = BlockRing {
            numbers: self.numbers.clone(),
            hashes: self.hashes.clone(),
            head: self.head,
            len: self.len,
        };
        assert(copy.numbers@ =~= self.numbers@);
        assert forall|i: int| 0 <= i < copy.hashes@.len() implies copy.hashes@[i]
            == self.hashes@[i] by {
            assert(cloned(self.hashes@[i], copy.hashes@[i]));
            assert(copy.hashes@[i]@ =~= self.hashes@[i]@);
            assert(copy.hashes@[i] =~= self.hashes@[i]);
        }
        assert(copy.hashes@ =~= self.hashes@);
        assert(copy@ =~= self@);
        copy
    }
}

/// Oldest-first walk over observed blocks; the view lists the blocks still to come.
pub struct Observed<'a> {
    ring: &'a BlockRing,
    next: usize,
    remaining: usize,
}

impl<'a> View for Observed<'a> {
    type V = Seq<BlockRef>;

    closed spec fn view(&self) -> Seq<BlockRef> {
        self.ring@.skip(self.next as int)
    }
}

impl<'a> Observed<'a> {
    /// The walk stays within its ring.
    pub closed spec fn wf(&self) -> bool {
        &&& self.ring.wf()
        &&& self.next + self.remaining == self.ring@.len()
    }

    /// Hands out the next block, oldest first.
    pub fn next(&mut self) -> (block: Option<BlockRef>)
        requires
            old(self).wf(),
        ensures
            final(self).wf(),
            match block {
                Some(block) => {
                    &&& old(self)@.len() > 0
                    &&& block == old(self)@.first()
                    &&& final(self)@ == old(self)@.drop_first()
                },
                None => old(self)@.len() == 0 && final(self)@ == old(self)@,
            },
    {
        if self.remaining == 0 {
            return None;
        }
        let block = self.ring.get(self.next);
        self.next = self.next + 1;
        self.remaining = self.remaining - 1;
        assert(self@ =~= old(self)@.drop_first());
        Some(block)
    }

    /// Blocks still to come.
    pub fn len(&self) -> (len: usize)
        requires
            self.wf(),
        ensures
            len == self@.len(),
    {
        self.remaining
    }

    /// Collects the blocks still to come, oldest first.
    pub fn to_vec(self) -> (blocks: Vec<BlockRef>)
        requires
            self.wf(),
        ensures
            blocks@ == self@,
    {
        let mut blocks: Vec<BlockRef> = Vec::new();
        let mut index: usize = self.next;
        while index < self.ring.len()
            invariant
                self.wf(),
                self.next <= index <= self.ring@.len(),
                blocks@ == self.ring@.subrange(self.next as int, index as int),
            decreases self.ring@.len() - index,
        {
            blocks.push(self.ring.get(index));
            index += 1;
            assert(blocks@ =~= self.ring@.subrange(self.next as int, index as int));
        }
        assert(blocks@ =~= self@);
        blocks
    }
}

} // verus!
