//! What observed blocks and checkpoints promise over a run of batches.
use vstd::prelude::*;

use crate::batch;
use crate::batch::Span;
use crate::checkpoint;
use crate::checkpoint::Slot;
use crate::engine;
use crate::engine::ApplySummary;
use crate::engine_laws;
use crate::engine_model;
use crate::engine_model::{Call, EngineState, Entry};
use crate::error::{ApplyError, EngineStatus};
use crate::fold::Fold;
use crate::position::BlockRef;
use crate::ring;

verus! {

/// The first `cut` blocks of one window are gone in the other, and only higher blocks joined.
pub open spec fn moved_on(old: Seq<BlockRef>, new: Seq<BlockRef>, cut: int) -> bool {
    &&& 0 <= cut <= old.len() <= new.len() + cut
    &&& old.len() > 0 ==> new.len() > 0
    &&& forall|i: int| 0 <= i < old.len() - cut ==> #[trigger] new[i] == old[i + cut]
    &&& forall|i: int|
        old.len() - cut <= i < new.len() && old.len() > 0 ==> (#[trigger] new[i]).number
            > old.last().number
}

/// A window later on: the oldest blocks may be gone, and higher ones may have joined.
pub open spec fn follows(old: Seq<BlockRef>, new: Seq<BlockRef>) -> bool {
    exists|cut: int| #[trigger] moved_on(old, new, cut)
}

/// The window ascends within its capacity, and the cursor's block is its newest.
pub open spec fn orderly<F>(state: EngineState<F>) -> bool {
    &&& engine_model::anchored(state)
    &&& ring::ascending(state.window)
    &&& state.window.len() <= state.capacity
    &&& 0 < state.capacity
}

/// What a later window still holds.
pub proof fn lemma_follows_holds(old: Seq<BlockRef>, new: Seq<BlockRef>, number: u64)
    requires
        follows(old, new),
        ring::ascending(old),
        ring::ascending(new),
    ensures
        ring::observed_in(new, number) && old.len() > 0 && number <= old.last().number
            ==> ring::observed_in(old, number),
        ring::observed_in(old, number) && new.len() > 0 && number >= new[0].number
            ==> ring::observed_in(new, number),
        old.len() > 0 ==> new.len() > 0 && old[0].number <= new[0].number && old.last().number
            <= new.last().number,
{
    let cut = choose|cut: int| #[trigger] moved_on(old, new, cut);
    if old.len() > 0 {
        if cut < old.len() {
            assert(new[0] == old[0 + cut]);
            if cut > 0 {
                assert(old[0].number < old[cut].number);
            }
            let kept = old.len() - cut - 1;
            assert(new[kept] == old[kept + cut]);
            if kept < new.len() - 1 {
                assert(new[new.len() - 1].number > old.last().number);
            }
        } else if new.len() > 0 {
            assert(new[0].number > old.last().number);
            assert(new[new.len() - 1].number > old.last().number);
            if old.len() > 1 {
                assert(old[0].number < old[old.len() - 1].number);
            }
        }
    }
    if ring::observed_in(new, number) && old.len() > 0 && number <= old.last().number {
        let i = choose|i: int| 0 <= i < new.len() && (#[trigger] new[i]).number == number;
        assert(i < old.len() - cut);
        assert(old[i + cut].number == number);
    }
    if ring::observed_in(old, number) && new.len() > 0 && number >= new[0].number {
        let i = choose|i: int| 0 <= i < old.len() && (#[trigger] old[i]).number == number;
        if i < cut {
            if cut < old.len() {
                assert(old[i].number < old[cut].number);
            } else {
                if i < old.len() - 1 {
                    assert(old[i].number < old[old.len() - 1].number);
                }
            }
        } else {
            assert(new[i - cut] == old[(i - cut) + cut]);
        }
    }
}

/// A window comes after itself, and once more after a higher block joined it.
proof fn lemma_follows_slide(
    old: Seq<BlockRef>,
    mid: Seq<BlockRef>,
    block: BlockRef,
    capacity: nat,
)
    requires
        follows(old, mid),
        ring::ascending(mid),
        old.len() > 0 ==> mid.len() > 0 && old.last().number <= mid.last().number,
        mid.len() > 0 ==> mid.last().number < block.number,
        mid.len() <= capacity,
        0 < capacity,
    ensures
        follows(old, ring::slide(mid, block, capacity)),
{
    let cut = choose|cut: int| #[trigger] moved_on(old, mid, cut);
    let new = ring::slide(mid, block, capacity);
    if mid.len() < capacity {
        assert(moved_on(old, new, cut)) by {
            assert forall|i: int| 0 <= i < old.len() - cut implies #[trigger] new[i] == old[i
                + cut] by {
                assert(new[i] == mid[i]);
            }
            assert forall|i: int|
                old.len() - cut <= i < new.len() && old.len() > 0 implies (
            #[trigger] new[i]).number > old.last().number by {
                if i < mid.len() {
                    assert(new[i] == mid[i]);
                }
            }
        }
    } else if cut < old.len() {
        assert(moved_on(old, new, cut + 1)) by {
            assert forall|i: int| 0 <= i < old.len() - (cut + 1) implies #[trigger] new[i]
                == old[i + (cut + 1)] by {
                assert(new[i] == mid[i + 1]);
                assert(mid[i + 1] == old[(i + 1) + cut]);
            }
            assert forall|i: int|
                old.len() - (cut + 1) <= i < new.len() && old.len() > 0 implies (
            #[trigger] new[i]).number > old.last().number by {
                if i < new.len() - 1 {
                    assert(new[i] == mid[i + 1]);
                }
            }
        }
    } else {
        assert(moved_on(old, new, cut)) by {
            assert forall|i: int|
                old.len() - cut <= i < new.len() && old.len() > 0 implies (
            #[trigger] new[i]).number > old.last().number by {
                if i < new.len() - 1 {
                    assert(new[i] == mid[i + 1]);
                }
            }
        }
    }
}

/// What moving over events in order does to the window.
pub proof fn lemma_advanced_window<F: Fold>(
    state: EngineState<F>,
    entries: Seq<Entry<F::Event>>,
)
    requires
        orderly(state),
        engine_model::in_order(entries),
        forall|k: int|
            0 <= k < entries.len() ==> (#[trigger] entries[k]).pos.block
                == entries[k].block.number && engine_model::is_fresh(entries[k], state.cursor),
    ensures
        orderly(engine_model::advanced_over(state, entries)),
        follows(state.window, engine_model::advanced_over(state, entries).window),
        forall|i: int|
            0 <= i < engine_model::advanced_over(state, entries).window.len() ==> {
                let block = #[trigger] engine_model::advanced_over(state, entries).window[i];
                state.window.contains(block) || exists|k: int|
                    0 <= k < entries.len() && (#[trigger] entries[k]).block == block
            },
    decreases entries.len(),
{
    let after = engine_model::advanced_over(state, entries);
    engine_model::lemma_advanced_over_cursor(state, entries);
    if entries.len() == 0 {
        assert(moved_on(state.window, after.window, 0));
    } else {
        let rest = entries.drop_last();
        let last = entries[entries.len() - 1];
        assert forall|i: int, j: int| 0 <= i < j < rest.len() implies (
        #[trigger] rest[i]).pos.before((#[trigger] rest[j]).pos) by {
            assert(rest[i] == entries[i] && rest[j] == entries[j]);
        }
        assert forall|k: int| 0 <= k < rest.len() implies (#[trigger] rest[k]).pos.block
            == rest[k].block.number && engine_model::is_fresh(rest[k], state.cursor) by {
            assert(rest[k] == entries[k]);
        }
        lemma_advanced_window(state, rest);
        let mid = engine_model::advanced_over(state, rest);
        engine_model::lemma_advanced_over_cursor(state, rest);
        if rest.len() > 0 {
            let prior = entries[entries.len() - 2];
            assert(rest.last() == prior);
            assert(prior.pos.before(last.pos));
        }
        assert forall|i: int| 0 <= i < mid.window.len() implies {
            let block = #[trigger] mid.window[i];
            state.window.contains(block) || exists|k: int|
                0 <= k < entries.len() && (#[trigger] entries[k]).block == block
        } by {
            let block = mid.window[i];
            if !state.window.contains(block) {
                let k = choose|k: int| 0 <= k < rest.len() && (#[trigger] rest[k]).block == block;
                assert(entries[k].block == block);
            }
        }
        if mid.window.len() == 0 || mid.window.last().number < last.block.number {
            ring::lemma_slide(mid.window, last.block, mid.capacity);
            if state.window.len() > 0 {
                lemma_follows_holds(state.window, mid.window, 0);
            }
            lemma_follows_slide(state.window, mid.window, last.block, mid.capacity);
            assert forall|i: int| 0 <= i < after.window.len() implies {
                let block = #[trigger] after.window[i];
                state.window.contains(block) || exists|k: int|
                    0 <= k < entries.len() && (#[trigger] entries[k]).block == block
            } by {
                let block = after.window[i];
                if i < after.window.len() - 1 {
                    if mid.window.len() < mid.capacity {
                        assert(block == mid.window[i]);
                    } else {
                        assert(block == mid.window[i + 1]);
                    }
                } else {
                    assert(entries[entries.len() - 1].block == block);
                }
            }
        } else {
            assert(mid.window.last().number == last.block.number);
        }
    }
}

/// What any batch leaves of an engine: its slots, and a window that came after.
pub proof fn lemma_batch_moves_on<F: Fold>(
    before: EngineState<F>,
    boundary: Option<BlockRef>,
    spans: Seq<Span<F::Event>>,
    calls: Seq<Call<F>>,
    after: EngineState<F>,
    result: Result<ApplySummary, ApplyError<F::Error>>,
)
    requires
        orderly(before),
        engine_model::batch_applied(before, boundary, spans, calls, after, result),
    ensures
        orderly(after),
        follows(before.window, after.window),
        after.slots == before.slots,
        after.capacity == before.capacity,
        !(before.status is Unrecoverable) ==> !(after.status is Unrecoverable),
        before.cursor matches Some(old_cursor) ==> after.cursor matches Some(new_cursor)
            && old_cursor.at_or_before(new_cursor),
{
    engine_laws::law_cursor_never_moves_back(before, boundary, spans, calls, after, result);
    assert(moved_on(before.window, before.window, 0));
    if engine_model::refusal(before, boundary, spans) is None
        && engine_model::first_fork(before, spans, 0) is None {
        batch::lemma_shape_error(spans);
        engine_laws::lemma_entries_in_order(spans, spans.len() as int);
        assert(spans.take(spans.len() as int) =~= spans);
        let todo = engine_model::fresh(engine_model::all_entries(spans), before.cursor);
        engine_laws::lemma_fresh_in_order(engine_model::all_entries(spans), before.cursor);
        let start = engine_model::confirmed(before, boundary);
        let run = todo.take(engine_model::consumed_count(calls));
        assert forall|i: int, j: int| 0 <= i < j < run.len() implies (
        #[trigger] run[i]).pos.before((#[trigger] run[j]).pos) by {
            assert(run[i] == todo[i] && run[j] == todo[j]);
        }
        assert forall|k: int| 0 <= k < run.len() implies (#[trigger] run[k]).pos.block
            == run[k].block.number && engine_model::is_fresh(run[k], start.cursor) by {
            assert(run[k] == todo[k]);
        }
        lemma_advanced_window(start, run);
        engine_model::lemma_advanced_over_cursor(start, run);
    }
}

/// One batch with the fold's answers and the engine's.
pub struct Applied<F: Fold> {
    /// Header of the cursor block as reported with the batch.
    pub boundary: Option<BlockRef>,
    /// Blocks of the batch.
    pub spans: Seq<Span<F::Event>>,
    /// What the fold answered.
    pub calls: Seq<Call<F>>,
    /// What the engine answered.
    pub result: Result<ApplySummary, ApplyError<F::Error>>,
}

/// A run of batches, one engine state before each and one after the last.
pub open spec fn batches_applied<F: Fold>(
    states: Seq<EngineState<F>>,
    batches: Seq<Applied<F>>,
) -> bool {
    &&& states.len() == batches.len() + 1
    &&& forall|i: int|
        0 <= i < batches.len() ==> engine_model::batch_applied(
            states[i],
            (#[trigger] batches[i]).boundary,
            batches[i].spans,
            batches[i].calls,
            states[i + 1],
            batches[i].result,
        )
}

/// True when no observed block leaves the window during a run.
pub open spec fn nothing_left<F>(states: Seq<EngineState<F>>) -> bool {
    forall|i: int, number: u64|
        0 <= i < states.len() - 1 && #[trigger] ring::observed_in(states[i].window, number)
            ==> ring::observed_in(states[i + 1].window, number)
}

/// A window that lost nothing starts with what it was.
pub open spec fn begins_with(window: Seq<BlockRef>, start: Seq<BlockRef>) -> bool {
    &&& start.len() <= window.len()
    &&& forall|i: int| 0 <= i < start.len() ==> #[trigger] window[i] == start[i]
}

/// What a run of batches keeps while no observed block leaves the window.
pub proof fn lemma_run_keeps<F: Fold>(
    states: Seq<EngineState<F>>,
    batches: Seq<Applied<F>>,
    at: int,
)
    requires
        batches_applied(states, batches),
        nothing_left(states),
        orderly(states[0]),
        !(states[0].status is Unrecoverable),
        0 <= at < states.len(),
    ensures
        orderly(states[at]),
        begins_with(states[at].window, states[0].window),
        states[at].slots == states[0].slots,
        states[at].capacity == states[0].capacity,
        !(states[at].status is Unrecoverable),
    decreases at,
{
    if at > 0 {
        lemma_run_keeps(states, batches, at - 1);
        let before = states[at - 1];
        let after = states[at];
        let batch = batches[at - 1];
        lemma_batch_moves_on(
            before,
            batch.boundary,
            batch.spans,
            batch.calls,
            after,
            batch.result,
        );
        let cut = choose|cut: int| #[trigger] moved_on(before.window, after.window, cut);
        if before.window.len() > 0 {
            let first = before.window[0].number;
            assert(ring::observed_in(before.window, first));
            assert(ring::observed_in(states[(at - 1) + 1].window, first));
            let i = choose|i: int|
                0 <= i < after.window.len() && (#[trigger] after.window[i]).number == first;
            if before.window.len() > 1 {
                assert(first < before.window[before.window.len() - 1].number);
            }
            assert(i < before.window.len() - cut);
            assert(after.window[i] == before.window[i + cut]);
            assert(cut == 0);
        }
        assert forall|i: int| 0 <= i < states[0].window.len() implies #[trigger] after.window[i]
            == states[0].window[i] by {
            assert(before.window[i] == states[0].window[i]);
            assert(after.window[i] == before.window[i + cut]);
        }
    }
}

/// A window that begins with another is cut back to it at its newest block.
pub proof fn lemma_cut_back(window: Seq<BlockRef>, start: Seq<BlockRef>)
    requires
        ring::ascending(window),
        begins_with(window, start),
        start.len() > 0,
    ensures
        ring::at_or_below(window, start.last().number) == start,
{
    let number = start.last().number;
    ring::lemma_count_at_or_below(window, number);
    let count = ring::count_at_or_below(window, number) as int;
    assert(window[start.len() - 1] == start.last());
    if count < start.len() {
        assert(window[start.len() - 1].number > number);
    }
    if count > start.len() {
        assert(window[start.len() as int].number <= number);
        assert(window[start.len() - 1].number < window[start.len() as int].number);
    }
    assert(ring::at_or_below(window, number) =~= start);
}

/// A rollback gives back what a checkpoint stored. Whatever batches came after the checkpoint,
/// as long as no observed block has left the window, a rollback to a block at or above the
/// checkpoint's finds it and leaves its fold, its cursor and its observed blocks, in an active
/// engine with nothing verified; the count of skipped events is not rolled back.
pub proof fn law_rollback_gives_back_the_checkpoint<F: Fold>(
    before: EngineState<F>,
    copy: F,
    states: Seq<EngineState<F>>,
    batches: Seq<Applied<F>>,
    block: u64,
)
    requires
        orderly(before),
        before.status is Active,
        before.slots.len() > 0,
        batches_applied(states, batches),
        states[0] == (EngineState {
            slots: checkpoint::stored(before.slots, Slot { fold: copy, cursor: before.cursor }),
            ..before
        }),
        nothing_left(states),
        before.cursor matches Some(cursor) ==> cursor.block <= block,
    ensures
        ({
            let slot = Slot { fold: copy, cursor: before.cursor };
            let last = states.last();
            &&& checkpoint::newest_within(last.slots, last.window, block) == Some(slot)
            &&& engine::window_at(last.window, before.cursor) == before.window
            &&& engine::rollback_error(last, block) is None
            &&& engine::rolled_back(last, block, slot, copy) == (EngineState {
                fold: copy,
                cursor: before.cursor,
                window: before.window,
                slots: checkpoint::dropped_above(states[0].slots, block),
                status: EngineStatus::Active,
                last_verified: None,
                ..last
            })
        }),
{
    let slot = Slot { fold: copy, cursor: before.cursor };
    let last = states[states.len() - 1];
    lemma_run_keeps(states, batches, states.len() - 1);
    assert(last.slots.last() == Some(slot));
    match before.cursor {
        Some(cursor) => {
            let newest = before.window.len() - 1;
            assert(last.window[newest] == before.window[newest]);
            assert(last.window[newest].number == cursor.block);
            assert(ring::observed_in(last.window, cursor.block));
            lemma_cut_back(last.window, before.window);
        },
        None => {
            assert(before.window =~= Seq::<BlockRef>::empty());
        },
    }
    assert(engine::window_at(last.window, before.cursor) == before.window);
}

/// A slot was stored at a cursor that does not lie above the engine's, and the window holds its
/// block unless it starts above it.
pub open spec fn placed<F>(state: EngineState<F>, slot: Slot<F>) -> bool {
    &&& slot.cursor matches Some(point)
    &&& state.cursor matches Some(cursor)
    &&& point.at_or_before(cursor)
    &&& state.window[0].number <= point.block ==> ring::observed_in(state.window, point.block)
}

/// Every slot is in place, and one stored later lies no lower.
pub open spec fn layered<F>(state: EngineState<F>) -> bool {
    &&& orderly(state)
    &&& forall|i: int|
        0 <= i < state.slots.len() && (#[trigger] state.slots[i]) is Some ==> placed(
            state,
            state.slots[i]->0,
        )
    &&& forall|i: int, j: int|
        0 <= i < j < state.slots.len() && (#[trigger] state.slots[i]) is Some && (
        #[trigger] state.slots[j]) is Some ==> state.slots[i]->0.cursor->0.at_or_before(
            state.slots[j]->0.cursor->0,
        )
}

/// Where the slot stands that a rollback picks: nothing stored later could serve.
pub proof fn lemma_newest_index<F>(
    slots: Seq<Option<Slot<F>>>,
    window: Seq<BlockRef>,
    block: u64,
) -> (at: int)
    requires
        checkpoint::newest_within(slots, window, block) is Some,
    ensures
        0 <= at < slots.len(),
        slots[at] == checkpoint::newest_within(slots, window, block),
        checkpoint::live_in(slots[at], window),
        checkpoint::within(slots[at], block),
        forall|i: int|
            at < i < slots.len() ==> !(checkpoint::live_in(#[trigger] slots[i], window)
                && checkpoint::within(slots[i], block)),
    decreases slots.len(),
{
    if checkpoint::live_in(slots.last(), window) && checkpoint::within(slots.last(), block) {
        slots.len() - 1
    } else {
        let rest = slots.drop_last();
        let at = lemma_newest_index(rest, window, block);
        assert(slots[at] == rest[at]);
        assert forall|i: int| at < i < slots.len() implies !(checkpoint::live_in(
            #[trigger] slots[i],
            window,
        ) && checkpoint::within(slots[i], block)) by {
            if i < rest.len() {
                assert(slots[i] == rest[i]);
            }
        }
        at
    }
}

/// Where the oldest live slot stands: nothing stored earlier is live.
pub proof fn lemma_oldest_index<F>(
    slots: Seq<Option<Slot<F>>>,
    window: Seq<BlockRef>,
) -> (at: int)
    requires
        checkpoint::oldest_live(slots, window) is Some,
    ensures
        0 <= at < slots.len(),
        slots[at] == checkpoint::oldest_live(slots, window),
        checkpoint::live_in(slots[at], window),
        forall|i: int| 0 <= i < at ==> !checkpoint::live_in(#[trigger] slots[i], window),
    decreases slots.len(),
{
    if checkpoint::live_in(slots.first(), window) {
        0
    } else {
        let rest = slots.drop_first();
        let at = lemma_oldest_index(rest, window);
        assert(slots[at + 1] == rest[at]);
        assert forall|i: int| 0 <= i < at + 1 implies !checkpoint::live_in(
            #[trigger] slots[i],
            window,
        ) by {
            if i > 0 {
                assert(slots[i] == rest[i - 1]);
            }
        }
        at + 1
    }
}

/// A new engine holds no slot.
pub proof fn law_genesis_is_layered<F>(fold: F, capacity: nat, slots: nat)
    requires
        0 < capacity,
    ensures
        layered(engine::genesis(fold, capacity, slots)),
{
}

/// A window that came after keeps the slots in place.
proof fn lemma_layers_kept<F>(before: EngineState<F>, after: EngineState<F>)
    requires
        layered(before),
        orderly(after),
        follows(before.window, after.window),
        after.slots == before.slots,
        before.cursor matches Some(old_cursor) ==> after.cursor matches Some(new_cursor)
            && old_cursor.at_or_before(new_cursor),
    ensures
        layered(after),
{
    assert forall|i: int|
        0 <= i < after.slots.len() && (#[trigger] after.slots[i]) is Some implies placed(
        after,
        after.slots[i]->0,
    ) by {
        assert(before.slots[i] is Some);
        assert(placed(before, before.slots[i]->0));
        let point = before.slots[i]->0.cursor->0;
        lemma_follows_holds(before.window, after.window, point.block);
    }
    assert forall|i: int, j: int|
        0 <= i < j < after.slots.len() && (#[trigger] after.slots[i]) is Some && (
        #[trigger] after.slots[j]) is Some implies after.slots[i]->0.cursor->0.at_or_before(
        after.slots[j]->0.cursor->0,
    ) by {
        assert(before.slots[i] is Some && before.slots[j] is Some);
    }
}

/// Batches keep the slots in place.
pub proof fn law_batch_keeps_layers<F: Fold>(
    before: EngineState<F>,
    boundary: Option<BlockRef>,
    spans: Seq<Span<F::Event>>,
    calls: Seq<Call<F>>,
    after: EngineState<F>,
    result: Result<ApplySummary, ApplyError<F::Error>>,
)
    requires
        layered(before),
        engine_model::batch_applied(before, boundary, spans, calls, after, result),
    ensures
        layered(after),
{
    lemma_batch_moves_on(before, boundary, spans, calls, after, result);
    lemma_layers_kept(before, after);
}

/// A checkpoint at a cursor keeps the slots in place.
pub proof fn law_checkpoint_keeps_layers<F>(state: EngineState<F>, copy: F)
    requires
        layered(state),
        state.cursor is Some,
    ensures
        layered(
            EngineState {
                slots: checkpoint::stored(
                    state.slots,
                    Slot { fold: copy, cursor: state.cursor },
                ),
                ..state
            },
        ),
{
    let slot = Slot { fold: copy, cursor: state.cursor };
    let slots = checkpoint::stored(state.slots, slot);
    let after = EngineState { slots, ..state };
    assert(state.window[state.window.len() - 1].number == state.cursor->0.block);
    assert(ring::observed_in(state.window, state.cursor->0.block));
    if state.slots.len() > 0 {
        assert forall|i: int| 0 <= i < slots.len() - 1 implies #[trigger] slots[i]
            == state.slots[i + 1] by {}
        assert forall|i: int|
            0 <= i < after.slots.len() && (#[trigger] after.slots[i]) is Some implies placed(
            after,
            after.slots[i]->0,
        ) by {
            if i < slots.len() - 1 {
                assert(placed(state, state.slots[i + 1]->0));
            }
        }
        assert forall|i: int, j: int|
            0 <= i < j < after.slots.len() && (#[trigger] after.slots[i]) is Some && (
            #[trigger] after.slots[j]) is Some implies after.slots[i]->0.cursor->0.at_or_before(
            after.slots[j]->0.cursor->0,
        ) by {
            assert(placed(state, state.slots[i + 1]->0));
            if j < slots.len() - 1 {
                assert(state.slots[i + 1] is Some && state.slots[j + 1] is Some);
            }
        }
    }
}

/// A rollback keeps the slots in place.
pub proof fn law_rollback_keeps_layers<F>(
    state: EngineState<F>,
    block: u64,
    slot: Slot<F>,
    fold: F,
)
    requires
        layered(state),
        checkpoint::newest_within(state.slots, state.window, block) == Some(slot),
    ensures
        layered(engine::rolled_back(state, block, slot, fold)),
        begins_with(state.window, engine::rolled_back(state, block, slot, fold).window),
        slot.cursor is Some,
{
    let after = engine::rolled_back(state, block, slot, fold);
    let at = lemma_newest_index(state.slots, state.window, block);
    assert(placed(state, state.slots[at]->0));
    let target = slot.cursor->0;
    engine_laws::law_rollback_keeps_cursor_block_newest(state, block, slot, fold);
    ring::lemma_count_at_or_below(state.window, target.block);
    ring::lemma_at_or_below(state.window, target.block);
    assert(begins_with(state.window, after.window));
    assert(after.window[0] == state.window[0]);
    assert forall|i: int|
        0 <= i < after.slots.len() && (#[trigger] after.slots[i]) is Some implies placed(
        after,
        after.slots[i]->0,
    ) by {
        assert(after.slots[i] == state.slots[i] && checkpoint::within(state.slots[i], block));
        assert(placed(state, state.slots[i]->0));
        let point = state.slots[i]->0.cursor->0;
        if i < at {
            assert(state.slots[i] is Some && state.slots[at] is Some);
            assert(point.at_or_before(target));
        } else if i > at {
            assert(!checkpoint::live_in(state.slots[i], state.window));
            assert(state.slots[at] is Some && state.slots[i] is Some);
            assert(target.at_or_before(point));
            let k = choose|k: int|
                0 <= k < state.window.len() && (#[trigger] state.window[k]).number
                    == target.block;
            if k > 0 {
                assert(state.window[0].number < state.window[k].number);
            }
            assert(false);
        }
        if after.window[0].number <= point.block {
            let k = choose|k: int|
                0 <= k < state.window.len() && (#[trigger] state.window[k]).number
                    == point.block;
            assert(after.window[k] == state.window[k]);
        }
    }
    assert forall|i: int, j: int|
        0 <= i < j < after.slots.len() && (#[trigger] after.slots[i]) is Some && (
        #[trigger] after.slots[j]) is Some implies after.slots[i]->0.cursor->0.at_or_before(
        after.slots[j]->0.cursor->0,
    ) by {
        assert(after.slots[i] == state.slots[i] && after.slots[j] == state.slots[j]);
    }
}

/// A rollback never lands below the durable point: what a restart would recover is never
/// folded away.
pub proof fn law_rollback_lands_at_or_above_durable_point<F>(
    state: EngineState<F>,
    block: u64,
    durable: Slot<F>,
    slot: Slot<F>,
)
    requires
        layered(state),
        checkpoint::oldest_live(state.slots, state.window) == Some(durable),
        checkpoint::newest_within(state.slots, state.window, block) == Some(slot),
    ensures
        durable.cursor matches Some(point) && slot.cursor matches Some(target)
            && point.at_or_before(target),
{
    let first = lemma_oldest_index(state.slots, state.window);
    let at = lemma_newest_index(state.slots, state.window, block);
    assert(placed(state, state.slots[first]->0));
    assert(placed(state, state.slots[at]->0));
    if first < at {
        assert(state.slots[first] is Some && state.slots[at] is Some);
    }
}

} // verus!
