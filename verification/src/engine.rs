//! The fold engine: ordering, dedup, fork detection, rollback.
use vstd::prelude::*;

use crate::batch;
use crate::batch::{Batch, SpanView};
use crate::checkpoint;
use crate::checkpoint::{CheckpointRing, Slot};
use crate::engine_model;
use crate::engine_model::{Call, EngineState};
use crate::error::{
    ApplyError, ConfigError, DivergenceCause, EngineStatus, FoldError, RollbackError,
};
use crate::fold::Fold;
use crate::position::{same_hash, BlockRef, Position};
use crate::ring;
use crate::ring::{BlockRing, Observed};

verus! {

/// Smallest allowed observed-block ring capacity.
pub const MIN_RING_CAPACITY: usize = 2;

/// Largest allowed observed-block ring capacity.
pub const MAX_RING_CAPACITY: usize = 0x10_0000;

/// True for 1, 2, 4, 8 and so on.
pub open spec fn power_of_two(n: nat) -> bool {
    exists|e: nat| n == #[trigger] vstd::arithmetic::power2::pow2(e)
}

/// Tells powers of two from other numbers.
fn is_power_of_two(n: usize) -> (yes: bool)
    ensures
        yes == power_of_two(n as nat),
{
    let mut power: usize = 1;
    let ghost mut exponent: nat = 0;
    proof {
        vstd::arithmetic::power2::lemma2_to64();
    }
    while power < n
        invariant
            0 < power,
            power == vstd::arithmetic::power2::pow2(exponent),
            forall|e: nat| e < exponent ==> #[trigger] vstd::arithmetic::power2::pow2(e) < n,
        decreases
            (if power < n {
                n - power
            } else {
                0
            }),
    {
        proof {
            vstd::arithmetic::power2::lemma_pow2_unfold(exponent + 1);
        }
        if power > usize::MAX / 2 {
            proof {
                assert forall|e: nat| n != #[trigger] vstd::arithmetic::power2::pow2(e) by {
                    if e > exponent {
                        if e > exponent + 1 {
                            vstd::arithmetic::power2::lemma_pow2_strictly_increases(
                                exponent + 1,
                                e,
                            );
                        }
                    }
                }
            }
            return false;
        }
        power = power * 2;
        proof {
            exponent = exponent + 1;
        }
    }
    proof {
        if power != n {
            assert forall|e: nat| n != #[trigger] vstd::arithmetic::power2::pow2(e) by {
                if e > exponent {
                    vstd::arithmetic::power2::lemma_pow2_strictly_increases(exponent, e);
                }
            }
        }
    }
    power == n
}

/// Fixed engine construction parameters.
#[derive(Debug, Clone, Copy, PartialEq, Eq, Structural)]
pub struct EngineConfig {
    /// Observed-block window W; power of two between 2 and 1 << 20.
    pub ring_capacity: usize,
    /// Retained checkpoint slots K; zero disables rollback.
    pub checkpoint_slots: usize,
}

/// Why a configuration is refused, if it is.
pub open spec fn config_error(config: EngineConfig) -> Option<ConfigError> {
    if !power_of_two(config.ring_capacity as nat) {
        Some(ConfigError::RingCapacityNotPowerOfTwo { got: config.ring_capacity })
    } else if !(MIN_RING_CAPACITY <= config.ring_capacity <= MAX_RING_CAPACITY) {
        Some(ConfigError::RingCapacityOutOfRange { got: config.ring_capacity })
    } else {
        None
    }
}

impl EngineConfig {
    /// Accepts a power-of-two ring capacity within the allowed range.
    pub fn validate(&self) -> (result: Result<(), ConfigError>)
        ensures
            match result {
                Ok(()) => config_error(*self) is None,
                Err(error) => config_error(*self) == Some(error),
            },
    {
        if !is_power_of_two(self.ring_capacity) {
            return Err(ConfigError::RingCapacityNotPowerOfTwo { got: self.ring_capacity });
        }
        if self.ring_capacity < MIN_RING_CAPACITY || self.ring_capacity > MAX_RING_CAPACITY {
            return Err(ConfigError::RingCapacityOutOfRange { got: self.ring_capacity });
        }
        Ok(())
    }
}

/// Per-batch counts of applied, deduped, and skipped events.
#[derive(Debug, Clone, Copy, PartialEq, Eq, Structural)]
pub struct ApplySummary {
    /// Events the fold accepted.
    pub applied: u64,
    /// Events at or below the cursor, dropped as already applied.
    pub deduped: u64,
    /// Events the fold declared not its own.
    pub skipped: u64,
}

impl Default for ApplySummary {
    fn default() -> (summary: Self)
        ensures
            summary == (ApplySummary { applied: 0, deduped: 0, skipped: 0 }),
    {
        ApplySummary { applied: 0, deduped: 0, skipped: 0 }
    }
}

/// Single-writer fold engine: ordering, dedup, fork detection, rollback, snapshots.
///
/// When the cursor is set, the ring's newest entry is the cursor block.
#[derive(Debug)]
pub struct Engine<F> {
    fold: F,
    cursor: Option<Position>,
    ring: BlockRing,
    checkpoints: CheckpointRing<F>,
    status: EngineStatus,
    last_verified: Option<BlockRef>,
    skips: u64,
}

/// The engine a fold starts in.
pub open spec fn genesis<F>(fold: F, capacity: nat, slots: nat) -> EngineState<F> {
    EngineState {
        fold,
        cursor: None,
        window: Seq::empty(),
        capacity,
        slots: checkpoint::no_slots(slots),
        status: EngineStatus::Active,
        last_verified: None,
        skips: 0,
    }
}

/// Why a rollback is refused, if it is.
pub open spec fn rollback_error<F>(state: EngineState<F>, block: u64) -> Option<RollbackError> {
    match state.status {
        EngineStatus::Unrecoverable { cause } => Some(RollbackError::Unrecoverable { cause }),
        _ => match checkpoint::newest_within(state.slots, state.window, block) {
            Some(_) => None,
            None => Some(RollbackError::NoCheckpointAtOrBelow { block }),
        },
    }
}

/// The window as it stood when the cursor was there.
pub open spec fn window_at(window: Seq<BlockRef>, cursor: Option<Position>) -> Seq<BlockRef> {
    match cursor {
        Some(cursor) => ring::at_or_below(window, cursor.block),
        None => Seq::empty(),
    }
}

/// The engine after a rollback that restored `fold` from the slot.
pub open spec fn rolled_back<F>(
    state: EngineState<F>,
    block: u64,
    slot: Slot<F>,
    fold: F,
) -> EngineState<F> {
    EngineState {
        fold,
        cursor: slot.cursor,
        window: window_at(state.window, slot.cursor),
        slots: checkpoint::dropped_above(state.slots, block),
        status: EngineStatus::Active,
        last_verified: None,
        ..state
    }
}

impl<F> Engine<F> {
    /// Everything the engine remembers.
    pub closed spec fn state(&self) -> EngineState<F> {
        EngineState {
            fold: self.fold,
            cursor: self.cursor,
            window: self.ring@,
            capacity: self.ring.limit(),
            slots: self.checkpoints@,
            status: self.status,
            last_verified: self.last_verified,
            skips: self.skips,
        }
    }

    /// The window ascends within its capacity and the slots are in place.
    pub closed spec fn wf(&self) -> bool {
        self.ring.wf() && self.checkpoints.wf()
    }

    /// The window never exceeds its capacity, and each block in it was observed once: the
    /// numbers ascend strictly.
    pub proof fn law_window_is_bounded(&self)
        requires
            self.wf(),
        ensures
            self.state().window.len() <= self.state().capacity,
            0 < self.state().capacity,
            ring::ascending(self.state().window),
    {
        self.ring.lemma_wf();
    }
}

impl<F: Fold> Engine<F> {
    /// Builds an engine with an empty ring and no retained checkpoints.
    pub fn new(fold: F, config: EngineConfig) -> (result: Result<Self, ConfigError>)
        ensures
            match result {
                Ok(engine) => {
                    &&& config_error(config) is None
                    &&& engine.wf()
                    &&& engine.state() == genesis(
                        fold,
                        config.ring_capacity as nat,
                        config.checkpoint_slots as nat,
                    )
                },
                Err(error) => config_error(config) == Some(error),
            },
    {
        match config.validate() {
            Err(error) => return Err(error),
            Ok(()) => {},
        }
        Ok(
            Engine {
                ring: BlockRing::with_capacity(config.ring_capacity),
                checkpoints: CheckpointRing::new(config.checkpoint_slots),
                fold,
                cursor: None,
                status: EngineStatus::Active,
                last_verified: None,
                skips: 0,
            },
        )
    }

    /// Returns the coarse engine status.
    pub fn status(&self) -> (status: EngineStatus)
        ensures
            status == self.state().status,
    {
        self.status
    }

    /// Returns the most recently applied position, if any.
    pub fn cursor(&self) -> (cursor: Option<Position>)
        ensures
            cursor == self.state().cursor,
    {
        self.cursor
    }

    /// Most recent block whose hash the source confirmed; None until first confirmation.
    pub fn last_verified(&self) -> (block: Option<BlockRef>)
        ensures
            block == self.state().last_verified,
    {
        self.last_verified
    }

    /// Count of events the fold declared not its own.
    pub fn skip_count(&self) -> (count: u64)
        ensures
            count == self.state().skips,
    {
        self.skips
    }

    /// Count of checkpoints currently retained.
    pub fn checkpoint_count(&self) -> (count: usize)
        requires
            self.wf(),
        ensures
            count == checkpoint::live_count(self.state().slots, self.state().window),
    {
        self.checkpoints.count(&self.ring)
    }

    /// Cursor of the oldest retained checkpoint; the reorg-safe durable point.
    /// None without checkpoints or when the oldest slot predates any applied event.
    pub fn durable_point(&self) -> (point: Option<Position>)
        requires
            self.wf(),
        ensures
            point == (match checkpoint::oldest_live(self.state().slots, self.state().window) {
                Some(slot) => slot.cursor,
                None => None,
            }),
    {
        match self.checkpoints.oldest(&self.ring) {
            Some(slot) => slot.cursor,
            None => None,
        }
    }

    /// Oldest retained checkpoint slot, for the snapshot codec.
    pub fn oldest_checkpoint(&self) -> (slot: Option<&Slot<F>>)
        requires
            self.wf(),
        ensures
            match slot {
                Some(slot) => checkpoint::oldest_live(self.state().slots, self.state().window)
                    == Some(*slot),
                None => checkpoint::oldest_live(self.state().slots, self.state().window) is None,
            },
    {
        self.checkpoints.oldest(&self.ring)
    }

    /// Borrows the fold state.
    pub fn fold(&self) -> (fold: &F)
        ensures
            *fold == self.state().fold,
    {
        &self.fold
    }

    /// Reads the fold's current view.
    pub fn view(&self) -> (view: F::View)
        ensures
            self.state().fold.shows(view),
    {
        self.fold.view()
    }

    /// Walks observed blocks oldest first.
    pub fn observed(&self) -> (blocks: Observed<'_>)
        requires
            self.wf(),
        ensures
            blocks.wf(),
            blocks@ == self.state().window,
    {
        self.ring.iter()
    }

    /// Stores a checkpoint of the current fold and cursor.
    ///
    /// A no-op with zero slots or a non-Active status, so every stored slot holds
    /// state the engine still trusts.
    pub fn checkpoint(&mut self) where F: Clone
        requires
            old(self).wf(),
        ensures
            final(self).wf(),
            if old(self).state().status is Active {
                exists|fold: F|
                    #[trigger] cloned(old(self).state().fold, fold) && final(self).state() == (
                    EngineState {
                        slots: checkpoint::stored(
                            old(self).state().slots,
                            Slot { fold, cursor: old(self).state().cursor },
                        ),
                        ..old(self).state()
                    })
            } else {
                final(self).state() == old(self).state()
            },
    {
        if !self.status.is_active() {
            return;
        }
        let fold = self.fold.clone();
        let ghost copy = fold;
        self.checkpoints.store(Slot { fold, cursor: self.cursor });
        assert(cloned(old(self).state().fold, copy));
    }

    /// Restores the newest checkpoint whose cursor block is at or below the argument.
    /// Clears Halted and Poisoned; drops checkpoints above the argument, the fork
    /// boundary, so checkpoints between it and the restored cursor stay valid.
    /// Freshness resets to None, since the restored cursor is unverified until the
    /// next boundary check confirms it.
    pub fn rollback_at_or_below(&mut self, block: u64) -> (result: Result<
        Option<Position>,
        RollbackError,
    >) where F: Clone
        requires
            old(self).wf(),
        ensures
            final(self).wf(),
            match result {
                Ok(cursor) => {
                    &&& rollback_error(old(self).state(), block) is None
                    &&& checkpoint::newest_within(
                        old(self).state().slots,
                        old(self).state().window,
                        block,
                    ) matches Some(slot)
                    &&& cursor == slot.cursor
                    &&& exists|fold: F|
                        #[trigger] cloned(slot.fold, fold) && final(self).state() == rolled_back(
                            old(self).state(),
                            block,
                            slot,
                            fold,
                        )
                },
                Err(error) => {
                    &&& rollback_error(old(self).state(), block) == Some(error)
                    &&& final(self).state() == old(self).state()
                },
            },
    {
        if let EngineStatus::Unrecoverable { cause } = self.status {
            return Err(RollbackError::Unrecoverable { cause });
        }
        let (fold, cursor) = match self.checkpoints.best_at_or_below(block, &self.ring) {
            Some(slot) => (slot.fold.clone(), slot.cursor),
            None => return Err(RollbackError::NoCheckpointAtOrBelow { block }),
        };
        let ghost copy = fold;
        match cursor {
            Some(cursor) => self.ring.truncate_above(cursor.block),
            None => self.ring.clear(),
        }
        self.fold = fold;
        self.cursor = cursor;
        self.status = EngineStatus::Active;
        self.last_verified = None;
        self.checkpoints.drop_above(block);
        proof {
            let slot = checkpoint::newest_within(
                old(self).state().slots,
                old(self).state().window,
                block,
            )->0;
            assert(cloned(slot.fold, copy));
        }
        Ok(self.cursor)
    }

    /// Full restart with a fresh fold: clears cursor, ring, checkpoints, counters.
    pub fn reset(&mut self, fold: F)
        requires
            old(self).wf(),
        ensures
            final(self).wf(),
            final(self).state() == genesis(
                fold,
                old(self).state().capacity,
                old(self).state().slots.len(),
            ),
    {
        self.ring.clear();
        self.checkpoints.clear();
        self.fold = fold;
        self.cursor = None;
        self.status = EngineStatus::Active;
        self.last_verified = None;
        self.skips = 0;
    }

    /// Terminal for automated paths; only reset leaves this state.
    pub fn mark_unrecoverable(&mut self, cause: DivergenceCause)
        requires
            old(self).wf(),
        ensures
            final(self).wf(),
            final(self).state() == (EngineState {
                status: EngineStatus::Unrecoverable { cause },
                ..old(self).state()
            }),
    {
        self.status = EngineStatus::Unrecoverable { cause };
    }

    /// Overwrites cursor and ring with decoded snapshot data; used by snapshot decode.
    pub fn restore_cursor_and_ring(&mut self, cursor: Option<Position>, ring: BlockRing)
        requires
            old(self).wf(),
            ring.wf(),
        ensures
            final(self).wf(),
            final(self).state() == (EngineState {
                cursor,
                window: ring@,
                capacity: ring.limit(),
                ..old(self).state()
            }),
    {
        self.cursor = cursor;
        self.ring = ring;
    }

    /// Moves the cursor to `pos`, recording the block the first time the cursor enters it.
    ///
    /// Ring and cursor move together, so the ring's newest entry is the cursor block
    /// at every point a batch can return from.
    fn advance(&mut self, block: BlockRef, pos: Position)
        requires
            old(self).wf(),
        ensures
            final(self).wf(),
            final(self).state() == engine_model::advanced(old(self).state(), block, pos),
    {
        let enters = match self.ring.newest() {
            Some(newest) => newest.number < block.number,
            None => true,
        };
        if enters {
            self.ring.push(block);
            self.last_verified = Some(block);
        }
        self.cursor = Some(pos);
    }

    /// Number of leading events of a span at or before the cursor.
    ///
    /// Log indices ascend within a span, so the deduped set is a prefix.
    fn deduped_prefix(&self, span: &SpanView<'_, F::Event>) -> (cut: usize)
        requires
            span.wf(),
            batch::strictly_ascending(batch::log_indices(span.model().entries)),
        ensures
            cut <= span.events@.len(),
            engine_model::fresh(
                engine_model::entries_of(span.model()),
                self.state().cursor,
            ) == engine_model::entries_of(span.model()).skip(cut as int),
    {
        let ghost entries = engine_model::entries_of(span.model());
        let ghost indices = batch::log_indices(span.model().entries);
        let cursor = match self.cursor {
            Some(cursor) => cursor,
            None => {
                proof {
                    engine_model::lemma_fresh_suffix(entries, self.state().cursor, 0);
                }
                return 0;
            },
        };
        let mut low: usize = 0;
        let mut high: usize = span.log_indices.len();
        while low < high
            invariant
                span.wf(),
                low <= high <= entries.len(),
                entries == engine_model::entries_of(span.model()),
                entries.len() == span.events@.len(),
                indices == batch::log_indices(span.model().entries),
                batch::strictly_ascending(indices),
                self.state().cursor == Some(cursor),
                forall|i: int|
                    0 <= i < low ==> !engine_model::is_fresh(
                        #[trigger] entries[i],
                        Some(cursor),
                    ),
                forall|i: int|
                    high <= i < entries.len() ==> engine_model::is_fresh(
                        #[trigger] entries[i],
                        Some(cursor),
                    ),
            decreases high - low,
        {
            let mid = low + (high - low) / 2;
            let pos = Position::new(span.number, span.log_indices[mid] as u64);
            assert(entries[mid as int].pos == pos);
            if pos.is_at_or_before(&cursor) {
                assert forall|i: int| 0 <= i < mid + 1 implies !engine_model::is_fresh(
                    #[trigger] entries[i],
                    Some(cursor),
                ) by {
                    if i < mid {
                        assert(indices[i] < indices[mid as int]);
                    }
                }
                low = mid + 1;
            } else {
                assert forall|i: int| mid <= i < entries.len() implies engine_model::is_fresh(
                    #[trigger] entries[i],
                    Some(cursor),
                ) by {
                    if mid < i {
                        assert(indices[mid as int] < indices[i]);
                    }
                }
                high = mid;
            }
        }
        proof {
            engine_model::lemma_fresh_suffix(entries, self.state().cursor, low as int);
        }
        low
    }

    /// Places the cursor at the predecessor of `fresh[index]`; a no-op at index 0, since
    /// nothing in this span was consumed yet.
    fn consumed_through(&mut self, span: &SpanView<'_, F::Event>, cut: usize, index: usize)
        requires
            old(self).wf(),
            span.wf(),
            cut <= index <= span.events@.len(),
        ensures
            final(self).wf(),
            final(self).state() == engine_model::advanced_over(
                old(self).state(),
                engine_model::entries_of(span.model()).subrange(cut as int, index as int),
            ),
    {
        let ghost run = engine_model::entries_of(span.model()).subrange(cut as int, index as int);
        proof {
            self.ring.lemma_wf();
        }
        if index > cut {
            let pos = Position::new(span.number, span.log_indices[index - 1] as u64);
            proof {
                engine_model::lemma_advanced_over_block(self.state(), run);
                assert(run.last() == engine_model::entries_of(span.model())[index - 1]);
            }
            self.advance(span.block(), pos);
        }
    }

    fn halt(&mut self, at: Position, error: F::Error) -> (result: ApplyError<F::Error>)
        requires
            old(self).wf(),
        ensures
            final(self).wf(),
            final(self).state() == (EngineState {
                status: EngineStatus::Halted { at },
                ..old(self).state()
            }),
            result == (ApplyError::Halted { at, error }),
    {
        self.status = EngineStatus::Halted { at };
        ApplyError::Halted { at, error }
    }

    fn poison(&mut self, at: Position, error: F::Error) -> (result: ApplyError<F::Error>)
        requires
            old(self).wf(),
        ensures
            final(self).wf(),
            final(self).state() == (EngineState {
                status: EngineStatus::Poisoned { at },
                ..old(self).state()
            }),
            result == (ApplyError::Poisoned { at, error }),
    {
        self.status = EngineStatus::Poisoned { at };
        ApplyError::Poisoned { at, error }
    }

    /// Applies every event of one span, deduping positions at or below the cursor.
    fn apply_span(&mut self, span: &SpanView<'_, F::Event>, summary: &mut ApplySummary) -> (result:
        Result<(), ApplyError<F::Error>>)
        requires
            old(self).wf(),
            span.wf(),
            batch::strictly_ascending(batch::log_indices(span.model().entries)),
            old(summary).applied + span.events@.len() <= u64::MAX,
            old(summary).deduped + span.events@.len() <= u64::MAX,
            old(summary).skipped + span.events@.len() <= u64::MAX,
        ensures
            final(self).wf(),
            exists|calls: Seq<Call<F>>| #[trigger]
                engine_model::span_applied(
                    old(self).state(),
                    span.model(),
                    calls,
                    final(self).state(),
                    *old(summary),
                    *final(summary),
                    result,
                ),
    {
        let ghost before = self.state();
        let ghost all = engine_model::entries_of(span.model());
        let cut = self.deduped_prefix(span);
        let ghost todo = engine_model::fresh(all, before.cursor);
        summary.deduped = summary.deduped + cut as u64;
        let mut index: usize = cut;
        let ghost mut calls: Seq<Call<F>> = Seq::empty();
        let len = span.events.len();
        while index < len
            invariant
                self.wf(),
                span.wf(),
                len == span.events@.len(),
                all == engine_model::entries_of(span.model()),
                all.len() == len,
                before == old(self).state(),
                cut <= index <= len,
                todo == engine_model::fresh(all, before.cursor),
                todo == all.skip(cut as int),
                calls.len() == index - cut,
                self.state() == (EngineState {
                    fold: engine_model::fold_before(before.fold, calls, calls.len() as int),
                    skips: engine_model::counted(
                        before.skips,
                        engine_model::skipped_count(calls),
                    ),
                    ..before
                }),
                engine_model::calls_follow(before.fold, todo.take(calls.len() as int), calls),
                !engine_model::stopped(calls),
                summary.deduped == old(summary).deduped + cut,
                summary.applied == old(summary).applied + engine_model::applied_count(calls),
                summary.skipped == old(summary).skipped + engine_model::skipped_count(calls),
                old(summary).applied + len <= u64::MAX,
                old(summary).skipped + len <= u64::MAX,
            decreases len - index,
        {
            let at = Position::new(span.number, span.log_indices[index] as u64);
            let ghost entry = all[index as int];
            let ghost prior = calls;
            assert(todo[calls.len() as int] == entry);
            let outcome = self.fold.apply(at, &span.events[index]);
            let ghost call = Call { after: self.fold, outcome };
            proof {
                engine_model::lemma_counts_push(prior, call);
                engine_model::lemma_call_pushed(before.fold, todo, prior, call);
                engine_model::lemma_counted(
                    before.skips,
                    engine_model::skipped_count(prior),
                    1,
                );
                calls = prior.push(call);
            }
            let ghost here = EngineState {
                fold: engine_model::fold_before(before.fold, calls, calls.len() as int),
                skips: engine_model::counted(before.skips, engine_model::skipped_count(calls)),
                ..before
            };
            match outcome {
                Ok(()) => {
                    summary.applied = summary.applied + 1;
                },
                Err(FoldError::Skip(_)) => {
                    self.skips = self.skips.wrapping_add(1);
                    summary.skipped = summary.skipped + 1;
                },
                Err(FoldError::Halt(error)) => {
                    assert(self.state() == here);
                    self.consumed_through(span, cut, index);
                    let error = self.halt(at, error);
                    proof {
                        assert(all.subrange(cut as int, index as int) =~= todo.take(
                            engine_model::consumed_count(calls),
                        ));
                        engine_model::lemma_settled_from(before, here, todo, calls);
                    }
                    let result = Err(error);
                    assert(engine_model::span_applied(
                        old(self).state(),
                        span.model(),
                        calls,
                        self.state(),
                        *old(summary),
                        *summary,
                        result,
                    ));
                    return result;
                },
                Err(FoldError::Poison(error)) => {
                    assert(self.state() == here);
                    self.consumed_through(span, cut, index);
                    let error = self.poison(at, error);
                    proof {
                        assert(all.subrange(cut as int, index as int) =~= todo.take(
                            engine_model::consumed_count(calls),
                        ));
                        engine_model::lemma_settled_from(before, here, todo, calls);
                    }
                    let result = Err(error);
                    assert(engine_model::span_applied(
                        old(self).state(),
                        span.model(),
                        calls,
                        self.state(),
                        *old(summary),
                        *summary,
                        result,
                    ));
                    return result;
                },
            }
            assert(self.state() == here);
            index += 1;
        }
        let ghost here = self.state();
        self.consumed_through(span, cut, index);
        proof {
            assert(todo.take(calls.len() as int) =~= todo);
            assert(all.subrange(cut as int, index as int) =~= todo.take(
                engine_model::consumed_count(calls),
            ));
            engine_model::lemma_settled_from(before, here, todo, calls);
            engine_model::lemma_advanced_over_cursor(here, todo);
            assert(engine_model::span_applied(
                old(self).state(),
                span.model(),
                calls,
                self.state(),
                *old(summary),
                *summary,
                Ok(()),
            ));
        }
        Ok(())
    }

    /// Compares the boundary header with the observed cursor block.
    fn check_boundary(&mut self, boundary: Option<BlockRef>) -> (result: Result<
        (),
        ApplyError<F::Error>,
    >)
        requires
            old(self).wf(),
        ensures
            final(self).wf(),
            match result {
                Ok(()) => {
                    &&& engine_model::boundary_error(old(self).state(), boundary) is None
                    &&& final(self).state() == engine_model::confirmed(
                        old(self).state(),
                        boundary,
                    )
                },
                Err(error) => {
                    &&& engine_model::boundary_error(old(self).state(), boundary) == Some(error)
                    &&& final(self).state() == old(self).state()
                },
            },
    {
        let cursor = match self.cursor {
            Some(cursor) => cursor,
            None => return Ok(()),
        };
        let boundary = match boundary {
            Some(boundary) => boundary,
            None => return Err(ApplyError::MissingBoundary),
        };
        if boundary.number != cursor.block {
            return Err(
                ApplyError::BoundaryNumberMismatch {
                    expected: cursor.block,
                    got: boundary.number,
                },
            );
        }
        let observed_hash = match self.ring.hash_at(cursor.block) {
            Some(hash) => hash,
            None => return Err(ApplyError::CursorBlockUnobserved { block: cursor.block }),
        };
        if !same_hash(&observed_hash, &boundary.hash) {
            return Err(fork_suspected(cursor.block, observed_hash, boundary));
        }
        self.last_verified = Some(boundary);
        Ok(())
    }

    /// Reports a span that redelivers a block under another hash than the observed one.
    fn check_redelivery(&self, block: BlockRef) -> (result: Result<(), ApplyError<F::Error>>)
        requires
            self.wf(),
        ensures
            match result {
                Ok(()) => !engine_model::forks(self.state(), block),
                Err(error) => {
                    &&& engine_model::forks(self.state(), block)
                    &&& error == engine_model::fork_error::<F::Error>(
                        block.number,
                        ring::hash_in(self.state().window, block.number)->0,
                        block,
                    )
                },
            },
    {
        let redelivered = match self.cursor {
            Some(cursor) => block.number <= cursor.block,
            None => false,
        };
        if redelivered {
            if let Some(observed_hash) = self.ring.hash_at(block.number) {
                if !same_hash(&observed_hash, &block.hash) {
                    return Err(fork_suspected(block.number, observed_hash, block));
                }
            }
        }
        Ok(())
    }

    /// Applies one poll's batch: total order, dedup, boundary recheck, fork detection.
    pub fn apply_batch(&mut self, batch: &Batch<F::Event>) -> (result: Result<
        ApplySummary,
        ApplyError<F::Error>,
    >)
        requires
            old(self).wf(),
            batch.wf(),
        ensures
            final(self).wf(),
            exists|calls: Seq<Call<F>>| #[trigger]
                engine_model::batch_applied(
                    old(self).state(),
                    batch.boundary,
                    batch@,
                    calls,
                    final(self).state(),
                    result,
                ),
    {
        let ghost before = self.state();
        let ghost none: Seq<Call<F>> = Seq::empty();
        if !self.status.is_active() {
            let result = Err(ApplyError::NotActive { status: self.status });
            assert(engine_model::batch_applied(
                before,
                batch.boundary,
                batch@,
                none,
                self.state(),
                result,
            ));
            return result;
        }
        match batch.validate() {
            Ok(()) => {},
            Err(error) => {
                let result = Err(ApplyError::Shape(error));
                assert(engine_model::batch_applied(
                    before,
                    batch.boundary,
                    batch@,
                    none,
                    self.state(),
                    result,
                ));
                return result;
            },
        }
        match self.check_boundary(batch.boundary) {
            Ok(()) => {},
            Err(error) => {
                let result = Err(error);
                assert(engine_model::batch_applied(
                    before,
                    batch.boundary,
                    batch@,
                    none,
                    self.state(),
                    result,
                ));
                return result;
            },
        }
        let ghost start = self.state();
        let ghost spans = batch@;
        proof {
            batch::lemma_shape_error(spans);
        }
        let mut summary = ApplySummary::default();
        let mut walk = batch.spans();
        let ghost mut calls: Seq<Call<F>> = Seq::empty();
        let ghost mut at: int = 0;
        proof {
            engine_model::lemma_progress_start(before, start, spans);
        }
        loop
            invariant
                self.wf(),
                batch.wf(),
                walk.wf(),
                spans == batch@,
                before == old(self).state(),
                start == engine_model::confirmed(before, batch.boundary),
                engine_model::refusal(before, batch.boundary, spans) is None,
                batch::well_shaped(spans),
                0 <= at <= spans.len(),
                walk@ == spans.skip(at),
                engine_model::progressed(before, start, spans, at, calls, self.state(), summary),
                engine_model::first_fork(before, spans, 0) == engine_model::first_fork(
                    before,
                    spans,
                    at,
                ),
            decreases spans.len() - at,
        {
            match walk.next() {
                None => {
                    proof {
                        engine_model::lemma_progress_end(
                            before,
                            batch.boundary,
                            spans,
                            calls,
                            self.state(),
                            summary,
                        );
                    }
                    return Ok(summary);
                },
                Some(span) => {
                    let ghost here = self.state();
                    let ghost counts = summary;
                    let block = span.block();
                    assert(span.model() == spans[at]);
                    match self.check_redelivery(block) {
                        Ok(()) => {},
                        Err(error) => {
                            let result = Err(error);
                            proof {
                                engine_model::lemma_progress_fork(
                                    before,
                                    batch.boundary,
                                    spans,
                                    at,
                                    calls,
                                    here,
                                    counts,
                                );
                            }
                            return result;
                        },
                    }
                    proof {
                        lemma_entry_count(batch, at + 1);
                        engine_model::lemma_one_more_span(spans, at, before.cursor);
                        engine_model::lemma_counts_concat(calls, Seq::empty());
                    }
                    let outcome = self.apply_span(&span, &mut summary);
                    let ghost span_calls = choose|span_calls: Seq<Call<F>>| #[trigger]
                        engine_model::span_applied(
                            here,
                            spans[at],
                            span_calls,
                            self.state(),
                            counts,
                            summary,
                            outcome,
                        );
                    match outcome {
                        Ok(()) => {
                            proof {
                                engine_model::lemma_progress_step(
                                    before,
                                    start,
                                    spans,
                                    at,
                                    calls,
                                    here,
                                    counts,
                                    span_calls,
                                    self.state(),
                                    summary,
                                );
                                calls = calls + span_calls;
                                at = at + 1;
                            }
                        },
                        Err(error) => {
                            proof {
                                engine_model::lemma_progress_stop(
                                    before,
                                    batch.boundary,
                                    spans,
                                    at,
                                    calls,
                                    here,
                                    counts,
                                    span_calls,
                                    self.state(),
                                    summary,
                                    error,
                                );
                            }
                            return Err(error);
                        },
                    }
                },
            }
        }
    }
}

/// The first spans of a batch hold the events before the next span's first.
proof fn lemma_entry_count<E>(batch: &Batch<E>, at: int)
    requires
        batch.wf(),
        0 <= at <= batch@.len(),
    ensures
        engine_model::all_entries(batch@.take(at)).len() == batch.start(at),
        engine_model::all_entries(batch@.take(at)).len() <= usize::MAX,
    decreases at,
{
    assert(batch.events.len() <= usize::MAX);
    if at > 0 {
        lemma_entry_count(batch, at - 1);
        assert(batch@.take(at).drop_last() =~= batch@.take(at - 1));
        assert(batch.start(at - 1) <= batch.ends@[at - 1]);
    }
}

/// Builds the fork report comparing the hash the ring observed for a block against
/// the refetched header for that same block.
fn fork_suspected<E>(number: u64, observed_hash: [u8; 32], refetched: BlockRef) -> (error:
    ApplyError<E>)
    ensures
        error == engine_model::fork_error::<E>(number, observed_hash, refetched),
{
    ApplyError::ForkSuspected {
        observed: BlockRef { number, hash: observed_hash },
        refetched,
    }
}

} // verus!
