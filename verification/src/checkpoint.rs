//! Restore points of an engine.
use vstd::prelude::*;

use crate::position::{BlockRef, Position};
use crate::ring;
use crate::ring::BlockRing;

verus! {

/// One restore point.
#[derive(Debug)]
pub struct Slot<F> {
    /// State at the restore point.
    pub fold: F,
    /// Cursor at the restore point.
    pub cursor: Option<Position>,
}

/// Fixed K-slot ring of engine restore points.
///
/// The view lists the K slots oldest first. A store forgets the oldest slot.
#[derive(Debug)]
pub struct CheckpointRing<F> {
    slots: Vec<Option<Slot<F>>>,
    next: usize,
}

/// True when a slot is filled and the window still holds its cursor block.
pub open spec fn live_in<F>(slot: Option<Slot<F>>, window: Seq<BlockRef>) -> bool {
    match slot {
        Some(slot) => match slot.cursor {
            Some(cursor) => ring::observed_in(window, cursor.block),
            None => true,
        },
        None => false,
    }
}

/// True when a slot's cursor block does not lie above `block`; a slot without a cursor
/// lies below every block.
pub open spec fn within<F>(slot: Option<Slot<F>>, block: u64) -> bool {
    match slot {
        Some(slot) => match slot.cursor {
            Some(cursor) => cursor.block <= block,
            None => true,
        },
        None => false,
    }
}

/// The number of live slots.
pub open spec fn live_count<F>(slots: Seq<Option<Slot<F>>>, window: Seq<BlockRef>) -> nat
    decreases slots.len(),
{
    if slots.len() == 0 {
        0
    } else {
        live_count(slots.drop_last(), window) + if live_in(slots.last(), window) {
            1nat
        } else {
            0nat
        }
    }
}

/// The first live slot of an oldest-first list.
pub open spec fn oldest_live<F>(slots: Seq<Option<Slot<F>>>, window: Seq<BlockRef>) -> Option<
    Slot<F>,
>
    decreases slots.len(),
{
    if slots.len() == 0 {
        None
    } else if live_in(slots.first(), window) {
        slots.first()
    } else {
        oldest_live(slots.drop_first(), window)
    }
}

/// The last live slot of an oldest-first list that does not lie above `block`.
pub open spec fn newest_within<F>(
    slots: Seq<Option<Slot<F>>>,
    window: Seq<BlockRef>,
    block: u64,
) -> Option<Slot<F>>
    decreases slots.len(),
{
    if slots.len() == 0 {
        None
    } else if live_in(slots.last(), window) && within(slots.last(), block) {
        slots.last()
    } else {
        newest_within(slots.drop_last(), window, block)
    }
}

/// The slots after a store: the oldest makes room at the front.
pub open spec fn stored<F>(slots: Seq<Option<Slot<F>>>, slot: Slot<F>) -> Seq<Option<Slot<F>>> {
    if slots.len() == 0 {
        slots
    } else {
        slots.drop_first().push(Some(slot))
    }
}

/// The slots without those above `block`.
pub open spec fn dropped_above<F>(slots: Seq<Option<Slot<F>>>, block: u64) -> Seq<
    Option<Slot<F>>,
> {
    slots.map_values(
        |slot: Option<Slot<F>>|
            if within(slot, block) {
                slot
            } else {
                None
            },
    )
}

/// A row of empty slots.
pub open spec fn no_slots<F>(len: nat) -> Seq<Option<Slot<F>>> {
    Seq::new(len, |i: int| None)
}

/// True when the engine's ring can still serve the slot's window.
fn live<F>(slot: &Option<Slot<F>>, ring: &BlockRing) -> (yes: bool)
    requires
        ring.wf(),
    ensures
        yes == live_in(*slot, ring@),
{
    match slot {
        Some(slot) => match slot.cursor {
            Some(cursor) => ring.observes(cursor.block),
            None => true,
        },
        None => false,
    }
}

fn at_or_below<F>(slot: &Option<Slot<F>>, block: u64) -> (yes: bool)
    ensures
        yes == within(*slot, block),
{
    match slot {
        Some(slot) => match slot.cursor {
            Some(cursor) => cursor.block <= block,
            None => true,
        },
        None => false,
    }
}

impl<F> View for CheckpointRing<F> {
    type V = Seq<Option<Slot<F>>>;

    closed spec fn view(&self) -> Seq<Option<Slot<F>>> {
        Seq::new(self.slots@.len(), |i: int| self.slots@[self.place(i)])
    }
}

impl<F> CheckpointRing<F> {
    /// Where the slot of an age is kept; the next write position holds the oldest.
    spec fn place(&self, age: int) -> int {
        if self.next + age < self.slots@.len() {
            self.next + age
        } else {
            self.next + age - self.slots@.len()
        }
    }

    /// The write position lies within the slots.
    pub closed spec fn wf(&self) -> bool {
        self.next < self.slots@.len() || (self.next == 0 && self.slots@.len() == 0)
    }

    /// Builds a ring of empty slots.
    pub fn new(slots: usize) -> (ring: Self)
        ensures
            ring.wf(),
            ring@ == no_slots::<F>(slots as nat),
    {
        let mut row: Vec<Option<Slot<F>>> = Vec::new();
        let mut filled: usize = 0;
        while filled < slots
            invariant
                filled <= slots,
                row@ == no_slots::<F>(filled as nat),
            decreases slots - filled,
        {
            row.push(None);
            filled += 1;
            assert(row@ =~= no_slots::<F>(filled as nat));
        }
        let ring = CheckpointRing { slots: row, next: 0 };
        assert(ring@ =~= no_slots::<F>(slots as nat));
        ring
    }

    fn aged(&self, age: usize) -> (slot: &Option<Slot<F>>)
        requires
            self.wf(),
            age < self@.len(),
        ensures
            *slot == self@[age as int],
    {
        let wrap = self.slots.len() - self.next;
        if age < wrap {
            &self.slots[self.next + age]
        } else {
            &self.slots[age - wrap]
        }
    }

    /// Number of live slots.
    pub fn count(&self, ring: &BlockRing) -> (count: usize)
        requires
            self.wf(),
            ring.wf(),
        ensures
            count == live_count(self@, ring@),
    {
        let mut count: usize = 0;
        let mut age: usize = 0;
        assert(self@.take(0) =~= Seq::<Option<Slot<F>>>::empty());
        while age < self.slots.len()
            invariant
                self.wf(),
                ring.wf(),
                age <= self@.len(),
                count <= age,
                count == live_count(self@.take(age as int), ring@),
            decreases self@.len() - age,
        {
            if live(self.aged(age), ring) {
                count += 1;
            }
            age += 1;
            assert(self@.take(age as int).drop_last() =~= self@.take(age - 1));
        }
        assert(self@.take(age as int) =~= self@);
        count
    }

    /// Stores a slot at the next write position; overwrites the oldest when full.
    pub fn store(&mut self, slot: Slot<F>)
        requires
            old(self).wf(),
        ensures
            final(self).wf(),
            final(self)@ == stored(old(self)@, slot),
    {
        let len = self.slots.len();
        if len == 0 {
            return;
        }
        let index = self.next;
        self.slots.set(index, Some(slot));
        self.next =
        if index + 1 == len {
            0
        } else {
            index + 1
        };
        proof {
            let after = stored(old(self)@, slot);
            assert forall|i: int| 0 <= i < after.len() implies self@[i] == after[i] by {
                if i < after.len() - 1 {
                    assert(old(self).place(i + 1) != index);
                }
            }
            assert(self@ =~= after);
        }
    }

    /// Oldest live slot; the mirror of best_at_or_below's newest-first scan.
    pub fn oldest(&self, ring: &BlockRing) -> (slot: Option<&Slot<F>>)
        requires
            self.wf(),
            ring.wf(),
        ensures
            match slot {
                Some(slot) => oldest_live(self@, ring@) == Some(*slot),
                None => oldest_live(self@, ring@) is None,
            },
    {
        let mut age: usize = 0;
        assert(self@.skip(0) =~= self@);
        while age < self.slots.len()
            invariant
                self.wf(),
                ring.wf(),
                age <= self@.len(),
                oldest_live(self@, ring@) == oldest_live(self@.skip(age as int), ring@),
            decreases self@.len() - age,
        {
            let slot = self.aged(age);
            if live(slot, ring) {
                return slot.as_ref();
            }
            assert(self@.skip(age as int).drop_first() =~= self@.skip(age + 1));
            age += 1;
        }
        None
    }

    /// Newest live slot with cursor block at or below the argument; empty-cursor slots
    /// always qualify.
    pub fn best_at_or_below(&self, block: u64, ring: &BlockRing) -> (slot: Option<&Slot<F>>)
        requires
            self.wf(),
            ring.wf(),
        ensures
            match slot {
                Some(slot) => newest_within(self@, ring@, block) == Some(*slot),
                None => newest_within(self@, ring@, block) is None,
            },
    {
        let mut end: usize = self.slots.len();
        assert(self@.take(end as int) =~= self@);
        while end > 0
            invariant
                self.wf(),
                ring.wf(),
                end <= self@.len(),
                newest_within(self@, ring@, block) == newest_within(
                    self@.take(end as int),
                    ring@,
                    block,
                ),
            decreases end,
        {
            let slot = self.aged(end - 1);
            if live(slot, ring) && at_or_below(slot, block) {
                return slot.as_ref();
            }
            assert(self@.take(end as int).drop_last() =~= self@.take(end - 1));
            end -= 1;
        }
        None
    }

    /// Drops slots with cursor block strictly above the argument.
    pub fn drop_above(&mut self, block: u64)
        requires
            old(self).wf(),
        ensures
            final(self).wf(),
            final(self)@ == dropped_above(old(self)@, block),
    {
        let mut i: usize = 0;
        while i < self.slots.len()
            invariant
                i <= self.slots@.len(),
                self.slots@.len() == old(self).slots@.len(),
                self.next == old(self).next,
                forall|j: int|
                    0 <= j < i ==> (#[trigger] self.slots@[j]) == dropped_above(
                        old(self).slots@,
                        block,
                    )[j],
                forall|j: int|
                    i <= j < self.slots@.len() ==> (#[trigger] self.slots@[j])
                        == old(self).slots@[j],
            decreases self.slots@.len() - i,
        {
            if !at_or_below(&self.slots[i], block) {
                self.slots.set(i, None);
            }
            i += 1;
        }
        assert(self@ =~= dropped_above(old(self)@, block));
    }

    /// Empties every slot.
    pub fn clear(&mut self)
        requires
            old(self).wf(),
        ensures
            final(self).wf(),
            final(self)@ == no_slots::<F>(old(self)@.len()),
    {
        let mut i: usize = 0;
        while i < self.slots.len()
            invariant
                i <= self.slots@.len(),
                self.slots@.len() == old(self).slots@.len(),
                self.next == old(self).next,
                forall|j: int| 0 <= j < i ==> (#[trigger] self.slots@[j]) is None,
            decreases self.slots@.len() - i,
        {
            self.slots.set(i, None);
            i += 1;
        }
        assert(self@ =~= no_slots::<F>(old(self)@.len()));
    }
}

} // verus!
