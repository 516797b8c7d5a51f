//! What the engine promises as a whole.
use vstd::prelude::*;

use crate::batch;
use crate::batch::Span;
use crate::checkpoint;
use crate::checkpoint::Slot;
use crate::engine;
use crate::engine::ApplySummary;
use crate::engine_model;
use crate::engine_model::{Call, EngineState, Entry};
use crate::error::{ApplyError, RollbackError};
use crate::fold::Fold;
use crate::position::{BlockRef, Position};
use crate::ring;

verus! {

/// Events of a well-shaped batch ascend, and each names the block it lies in.
pub proof fn lemma_entries_in_order<E>(spans: Seq<Span<E>>, at: int)
    requires
        batch::well_shaped(spans),
        0 <= at <= spans.len(),
    ensures
        engine_model::in_order(engine_model::all_entries(spans.take(at))),
        forall|k: int|
            0 <= k < engine_model::all_entries(spans.take(at)).len() ==> (
            #[trigger] engine_model::all_entries(spans.take(at))[k]).pos.block
                == engine_model::all_entries(spans.take(at))[k].block.number,
    decreases at,
{
    if at > 0 {
        lemma_entries_in_order(spans, at - 1);
        assert(spans.take(at).drop_last() =~= spans.take(at - 1));
        let span = spans[at - 1];
        let led = engine_model::all_entries(spans.take(at - 1));
        let more = engine_model::entries_of(span);
        let all = engine_model::all_entries(spans.take(at));
        assert(all == led + more);
        let numbers = batch::block_numbers(spans);
        assert forall|i: int| 0 <= i < at - 1 implies (#[trigger] spans[i]).block.number
            < span.block.number by {
            assert(numbers[i] < numbers[at - 1]);
        }
        engine_model::lemma_entries_below(spans, at - 1, span.block.number);
        let indices = batch::log_indices(span.entries);
        assert forall|i: int, j: int| 0 <= i < j < all.len() implies (
        #[trigger] all[i]).pos.before((#[trigger] all[j]).pos) by {
            if j < led.len() {
                assert(all[i] == led[i] && all[j] == led[j]);
            } else if i < led.len() {
                assert(all[i] == led[i]);
                assert(all[j] == more[j - led.len()]);
            } else {
                assert(all[i] == more[i - led.len()]);
                assert(all[j] == more[j - led.len()]);
                assert(indices[i - led.len()] < indices[j - led.len()]);
            }
        }
        assert forall|k: int| 0 <= k < all.len() implies (#[trigger] all[k]).pos.block
            == all[k].block.number by {
            if k < led.len() {
                assert(all[k] == led[k]);
            } else {
                assert(all[k] == more[k - led.len()]);
            }
        }
    }
}

/// What is fresh of events in order is in order, lies after the cursor, and names its blocks.
pub proof fn lemma_fresh_in_order<E>(entries: Seq<Entry<E>>, cursor: Option<Position>)
    requires
        engine_model::in_order(entries),
        forall|k: int|
            0 <= k < entries.len() ==> (#[trigger] entries[k]).pos.block
                == entries[k].block.number,
    ensures
        engine_model::in_order(engine_model::fresh(entries, cursor)),
        forall|k: int|
            0 <= k < engine_model::fresh(entries, cursor).len() ==> {
                let entry = #[trigger] engine_model::fresh(entries, cursor)[k];
                entry.pos.block == entry.block.number && engine_model::is_fresh(entry, cursor)
            },
        entries.len() > 0 && engine_model::is_fresh(entries.last(), cursor) ==>
            engine_model::fresh(entries, cursor).len() > 0 && engine_model::fresh(
            entries,
            cursor,
        ).last() == entries.last(),
    decreases entries.len(),
{
    reveal(Seq::filter);
    let keep = |entry: Entry<E>| engine_model::is_fresh(entry, cursor);
    if entries.len() > 0 {
        let rest = entries.drop_last();
        assert(engine_model::in_order(rest)) by {
            assert forall|i: int, j: int| 0 <= i < j < rest.len() implies (
            #[trigger] rest[i]).pos.before((#[trigger] rest[j]).pos) by {
                assert(rest[i] == entries[i] && rest[j] == entries[j]);
            }
        }
        assert forall|k: int| 0 <= k < rest.len() implies (#[trigger] rest[k]).pos.block
            == rest[k].block.number by {
            assert(rest[k] == entries[k]);
        }
        lemma_fresh_in_order(rest, cursor);
        engine_model::lemma_filter_kept(rest, keep);
        let kept = engine_model::fresh(entries, cursor);
        let kept_rest = engine_model::fresh(rest, cursor);
        let last = entries[entries.len() - 1];
        if keep(last) {
            assert(kept == kept_rest.push(last));
            assert forall|i: int, j: int| 0 <= i < j < kept.len() implies (
            #[trigger] kept[i]).pos.before((#[trigger] kept[j]).pos) by {
                if j < kept_rest.len() {
                    assert(kept[i] == kept_rest[i] && kept[j] == kept_rest[j]);
                } else {
                    assert(kept[i] == kept_rest[i]);
                    assert(rest.contains(rest.filter(keep)[i]));
                    let k = choose|k: int| 0 <= k < rest.len() && rest[k] == kept_rest[i];
                    assert(entries[k] == kept_rest[i]);
                    assert(entries[k].pos.before(entries[entries.len() - 1].pos));
                }
            }
            assert forall|k: int| 0 <= k < kept.len() implies ({
                let entry = #[trigger] kept[k];
                entry.pos.block == entry.block.number && engine_model::is_fresh(entry, cursor)
            }) by {
                if k < kept_rest.len() {
                    assert(kept[k] == kept_rest[k]);
                }
            }
        }
    }
}

/// The fold is handed events at strictly increasing positions, all after the cursor: no event
/// is handed out twice, and none out of order.
pub proof fn law_fold_sees_increasing_positions<F: Fold>(
    before: EngineState<F>,
    boundary: Option<BlockRef>,
    spans: Seq<Span<F::Event>>,
)
    requires
        engine_model::refusal(before, boundary, spans) is None,
    ensures
        ({
            let todo = engine_model::fresh(engine_model::all_entries(spans), before.cursor);
            &&& engine_model::in_order(todo)
            &&& forall|k: int|
                0 <= k < todo.len() ==> engine_model::is_fresh(#[trigger] todo[k], before.cursor)
        }),
{
    batch::lemma_shape_error(spans);
    lemma_entries_in_order(spans, spans.len() as int);
    assert(spans.take(spans.len() as int) =~= spans);
    lemma_fresh_in_order(engine_model::all_entries(spans), before.cursor);
}

/// Moving over events in order keeps the cursor block newest.
proof fn lemma_advanced_over_anchored<F: Fold>(
    state: EngineState<F>,
    entries: Seq<Entry<F::Event>>,
)
    requires
        engine_model::anchored(state),
        0 < state.capacity,
        engine_model::in_order(entries),
        forall|k: int|
            0 <= k < entries.len() ==> (#[trigger] entries[k]).pos.block
                == entries[k].block.number && engine_model::is_fresh(entries[k], state.cursor),
    ensures
        engine_model::anchored(engine_model::advanced_over(state, entries)),
    decreases entries.len(),
{
    if entries.len() > 0 {
        let rest = entries.drop_last();
        assert(engine_model::in_order(rest)) by {
            assert forall|i: int, j: int| 0 <= i < j < rest.len() implies (
            #[trigger] rest[i]).pos.before((#[trigger] rest[j]).pos) by {
                assert(rest[i] == entries[i] && rest[j] == entries[j]);
            }
        }
        assert forall|k: int| 0 <= k < rest.len() implies (#[trigger] rest[k]).pos.block
            == rest[k].block.number && engine_model::is_fresh(rest[k], state.cursor) by {
            assert(rest[k] == entries[k]);
        }
        lemma_advanced_over_anchored(state, rest);
        engine_model::lemma_advanced_over_cursor(state, rest);
        let last = entries[entries.len() - 1];
        assert(last.pos.block == last.block.number);
        if rest.len() > 0 {
            let prior = entries[entries.len() - 2];
            assert(rest.last() == prior);
            assert(prior.pos.before(last.pos));
        } else {
            assert(engine_model::is_fresh(last, state.cursor));
        }
        let mid = engine_model::advanced_over(state, rest);
        let after = engine_model::advanced(mid, last.block, last.pos);
        if mid.window.len() == 0 || mid.window.last().number < last.block.number {
            assert(after.window.last() == last.block);
        }
    }
}

/// Settling what the fold answered keeps the cursor block newest.
proof fn lemma_settled_anchored<F: Fold>(
    start: EngineState<F>,
    todo: Seq<Entry<F::Event>>,
    calls: Seq<Call<F>>,
)
    requires
        engine_model::anchored(start),
        0 < start.capacity,
        calls.len() <= todo.len(),
        engine_model::in_order(todo),
        forall|k: int|
            0 <= k < todo.len() ==> (#[trigger] todo[k]).pos.block == todo[k].block.number
                && engine_model::is_fresh(todo[k], start.cursor),
    ensures
        engine_model::anchored(engine_model::settled(start, todo, calls)),
{
    let run = todo.take(engine_model::consumed_count(calls));
    assert forall|k: int| 0 <= k < run.len() implies (#[trigger] run[k]).pos.block
        == run[k].block.number && engine_model::is_fresh(run[k], start.cursor) by {
        assert(run[k] == todo[k]);
    }
    assert(engine_model::in_order(run)) by {
        assert forall|i: int, j: int| 0 <= i < j < run.len() implies (
        #[trigger] run[i]).pos.before((#[trigger] run[j]).pos) by {
            assert(run[i] == todo[i] && run[j] == todo[j]);
        }
    }
    lemma_advanced_over_anchored(start, run);
}

/// When the cursor is set, the ring's newest entry is the cursor block: applying any batch
/// keeps that so, whatever the fold answers.
pub proof fn law_apply_keeps_cursor_block_newest<F: Fold>(
    before: EngineState<F>,
    boundary: Option<BlockRef>,
    spans: Seq<Span<F::Event>>,
    calls: Seq<Call<F>>,
    after: EngineState<F>,
    result: Result<ApplySummary, ApplyError<F::Error>>,
)
    requires
        engine_model::anchored(before),
        0 < before.capacity,
        engine_model::batch_applied(before, boundary, spans, calls, after, result),
    ensures
        engine_model::anchored(after),
{
    if engine_model::refusal(before, boundary, spans) is None
        && engine_model::first_fork(before, spans, 0) is None {
        batch::lemma_shape_error(spans);
        lemma_entries_in_order(spans, spans.len() as int);
        assert(spans.take(spans.len() as int) =~= spans);
        let todo = engine_model::fresh(engine_model::all_entries(spans), before.cursor);
        lemma_fresh_in_order(engine_model::all_entries(spans), before.cursor);
        lemma_settled_anchored(engine_model::confirmed(before, boundary), todo, calls);
    }
}

/// A rollback leaves the restored cursor's block newest.
pub proof fn law_rollback_keeps_cursor_block_newest<F>(
    state: EngineState<F>,
    block: u64,
    slot: Slot<F>,
    fold: F,
)
    requires
        ring::ascending(state.window),
        checkpoint::newest_within(state.slots, state.window, block) == Some(slot),
    ensures
        engine_model::anchored(engine::rolled_back(state, block, slot, fold)),
        ring::ascending(engine::rolled_back(state, block, slot, fold).window),
{
    lemma_newest_within(state.slots, state.window, block);
    if slot.cursor is Some {
        ring::lemma_at_or_below(state.window, slot.cursor->0.block);
    }
}

/// An engine starts with no observed block and no cursor.
pub proof fn law_genesis_is_anchored<F>(fold: F, capacity: nat, slots: nat)
    ensures
        engine_model::anchored(engine::genesis(fold, capacity, slots)),
{
}

/// The slot a rollback picks is live and does not lie above the requested block.
pub proof fn lemma_newest_within<F>(
    slots: Seq<Option<Slot<F>>>,
    window: Seq<BlockRef>,
    block: u64,
)
    ensures
        checkpoint::newest_within(slots, window, block) matches Some(slot) ==> {
            &&& checkpoint::live_in(Some(slot), window)
            &&& checkpoint::within(Some(slot), block)
        },
    decreases slots.len(),
{
    if slots.len() > 0 {
        lemma_newest_within(slots.drop_last(), window, block);
    }
}

/// A batch never moves the cursor back.
pub proof fn law_cursor_never_moves_back<F: Fold>(
    before: EngineState<F>,
    boundary: Option<BlockRef>,
    spans: Seq<Span<F::Event>>,
    calls: Seq<Call<F>>,
    after: EngineState<F>,
    result: Result<ApplySummary, ApplyError<F::Error>>,
)
    requires
        engine_model::batch_applied(before, boundary, spans, calls, after, result),
    ensures
        before.cursor matches Some(old_cursor) ==> after.cursor matches Some(new_cursor)
            && old_cursor.at_or_before(new_cursor),
{
    if engine_model::refusal(before, boundary, spans) is None
        && engine_model::first_fork(before, spans, 0) is None {
        law_fold_sees_increasing_positions(before, boundary, spans);
        let todo = engine_model::fresh(engine_model::all_entries(spans), before.cursor);
        let run = todo.take(engine_model::consumed_count(calls));
        engine_model::lemma_advanced_over_cursor(
            engine_model::confirmed(before, boundary),
            run,
        );
        if run.len() > 0 {
            assert(run.last() == todo[run.len() - 1]);
        }
    }
}

/// A refused batch leaves the fold, the cursor, the observed blocks, the checkpoints and the
/// counters as they were; only a stop by the fold itself has handed it events.
pub proof fn law_refused_batch_changes_nothing<F: Fold>(
    before: EngineState<F>,
    boundary: Option<BlockRef>,
    spans: Seq<Span<F::Event>>,
    calls: Seq<Call<F>>,
    after: EngineState<F>,
    error: ApplyError<F::Error>,
)
    requires
        engine_model::batch_applied(before, boundary, spans, calls, after, Err(error)),
        !(error is Halted),
        !(error is Poisoned),
    ensures
        calls.len() == 0,
        after == (EngineState { last_verified: after.last_verified, ..before }),
        after.last_verified == before.last_verified || after.last_verified == boundary,
{
}

/// Where the cursor stands once every event of a batch is consumed.
proof fn lemma_cursor_after_all<F: Fold>(
    before: EngineState<F>,
    boundary: Option<BlockRef>,
    todo: Seq<Entry<F::Event>>,
    calls: Seq<Call<F>>,
)
    requires
        engine_model::calls_follow(before.fold, todo, calls),
        !engine_model::stopped(calls),
    ensures
        engine_model::settled(
            engine_model::confirmed(before, boundary),
            todo,
            calls,
        ).cursor == (if todo.len() == 0 {
            before.cursor
        } else {
            Some(todo.last().pos)
        }),
{
    assert(todo.take(engine_model::consumed_count(calls)) =~= todo);
    engine_model::lemma_advanced_over_cursor(engine_model::confirmed(before, boundary), todo);
}

/// Nothing of events in order is fresh once the cursor stands on what was fresh last.
proof fn lemma_nothing_fresh<E>(
    all: Seq<Entry<E>>,
    cursor: Option<Position>,
    after: Option<Position>,
)
    requires
        all.len() > 0,
        engine_model::in_order(all),
        forall|k: int|
            0 <= k < all.len() ==> (#[trigger] all[k]).pos.block == all[k].block.number,
        after == (if engine_model::fresh(all, cursor).len() == 0 {
            cursor
        } else {
            Some(engine_model::fresh(all, cursor).last().pos)
        }),
    ensures
        engine_model::fresh(all, after).len() == 0,
{
    lemma_fresh_in_order(all, cursor);
    let keep = |entry: Entry<E>| engine_model::is_fresh(entry, after);
    let last = all[all.len() - 1];
    assert(last == all.last());
    assert forall|k: int| 0 <= k < all.len() implies !keep(#[trigger] all[k]) by {
        if k < all.len() - 1 {
            assert(all[k].pos.before(last.pos));
        }
    }
    engine_model::lemma_filter_none(all, keep);
}

/// What was applied once is deduped when it is delivered again: after a batch went through,
/// none of its events is fresh.
pub proof fn law_redelivery_is_deduped<F: Fold>(
    before: EngineState<F>,
    boundary: Option<BlockRef>,
    spans: Seq<Span<F::Event>>,
    calls: Seq<Call<F>>,
    after: EngineState<F>,
    summary: ApplySummary,
)
    requires
        engine_model::batch_applied(before, boundary, spans, calls, after, Ok(summary)),
        spans.len() > 0,
    ensures
        engine_model::fresh(engine_model::all_entries(spans), after.cursor).len() == 0,
{
    batch::lemma_shape_error(spans);
    lemma_entries_in_order(spans, spans.len() as int);
    assert(spans.take(spans.len() as int) =~= spans);
    let all = engine_model::all_entries(spans);
    let todo = engine_model::fresh(all, before.cursor);
    assert(all.len() > 0) by {
        assert(spans[spans.len() - 1].entries.len() > 0);
        assert(engine_model::entries_of(spans.last()).len() > 0);
    }
    lemma_cursor_after_all(before, boundary, todo, calls);
    lemma_nothing_fresh(all, before.cursor, after.cursor);
}

/// An engine that is not active refuses every batch and stays as it is.
pub proof fn law_inactive_engine_refuses_batches<F: Fold>(
    before: EngineState<F>,
    boundary: Option<BlockRef>,
    spans: Seq<Span<F::Event>>,
    calls: Seq<Call<F>>,
    after: EngineState<F>,
    result: Result<ApplySummary, ApplyError<F::Error>>,
)
    requires
        !(before.status is Active),
        engine_model::batch_applied(before, boundary, spans, calls, after, result),
    ensures
        result == Err::<ApplySummary, _>(
            ApplyError::<F::Error>::NotActive { status: before.status },
        ),
        after == before,
{
}

/// Only a reset leaves the unrecoverable state: every rollback is refused with its cause.
pub proof fn law_unrecoverable_refuses_rollback<F>(state: EngineState<F>, block: u64)
    requires
        state.status is Unrecoverable,
    ensures
        engine::rollback_error(state, block) == Some(
            RollbackError::Unrecoverable { cause: state.status->cause },
        ),
{
}

/// With a slot to keep it in, a checkpoint is what the next rollback at or above its block
/// restores.
pub proof fn law_rollback_restores_checkpoint<F>(state: EngineState<F>, fold: F, block: u64)
    requires
        state.slots.len() > 0,
        engine_model::anchored(state),
        state.cursor matches Some(cursor) ==> cursor.block <= block,
    ensures
        checkpoint::newest_within(
            checkpoint::stored(state.slots, Slot { fold, cursor: state.cursor }),
            state.window,
            block,
        ) == Some(Slot { fold, cursor: state.cursor }),
{
    let slot = Slot { fold, cursor: state.cursor };
    let slots = checkpoint::stored(state.slots, slot);
    assert(slots.last() == Some(slot));
    if state.cursor is Some {
        assert(state.window[state.window.len() - 1].number == state.cursor->0.block);
        assert(ring::observed_in(state.window, state.cursor->0.block));
    }
}

/// Rolling back to one block again restores the same checkpoint.
pub proof fn law_rollback_can_be_repeated<F>(
    state: EngineState<F>,
    block: u64,
    slot: Slot<F>,
    fold: F,
)
    requires
        ring::ascending(state.window),
        checkpoint::newest_within(state.slots, state.window, block) == Some(slot),
    ensures
        ({
            let after = engine::rolled_back(state, block, slot, fold);
            checkpoint::newest_within(after.slots, after.window, block) == Some(slot)
        }),
{
    let after = engine::rolled_back(state, block, slot, fold);
    lemma_newest_within(state.slots, state.window, block);
    law_rollback_keeps_cursor_block_newest(state, block, slot, fold);
    if slot.cursor is Some {
        let number = slot.cursor->0.block;
        ring::lemma_count_at_or_below(state.window, number);
        assert(after.window[after.window.len() - 1].number == number);
        assert(ring::observed_in(after.window, number));
        assert forall|n: u64| #[trigger]
            ring::observed_in(after.window, n) implies ring::observed_in(state.window, n) by {
            let i = choose|i: int|
                0 <= i < after.window.len() && (#[trigger] after.window[i]).number == n;
            assert(state.window[i] == after.window[i]);
        }
    }
    lemma_newest_within_shrunk(state.slots, state.window, after.window, block, slot);
}

/// A smaller window that still holds the picked slot's block leaves it the newest.
proof fn lemma_newest_within_shrunk<F>(
    slots: Seq<Option<Slot<F>>>,
    window: Seq<BlockRef>,
    smaller: Seq<BlockRef>,
    block: u64,
    slot: Slot<F>,
)
    requires
        checkpoint::newest_within(slots, window, block) == Some(slot),
        checkpoint::live_in(Some(slot), smaller),
        forall|n: u64| #[trigger]
            ring::observed_in(smaller, n) ==> ring::observed_in(window, n),
    ensures
        checkpoint::newest_within(checkpoint::dropped_above(slots, block), smaller, block)
            == Some(slot),
    decreases slots.len(),
{
    let kept = checkpoint::dropped_above(slots, block);
    if slots.len() > 0 {
        assert(kept.drop_last() =~= checkpoint::dropped_above(slots.drop_last(), block));
        if !(checkpoint::live_in(slots.last(), window) && checkpoint::within(
            slots.last(),
            block,
        )) {
            lemma_newest_within_shrunk(slots.drop_last(), window, smaller, block, slot);
        }
    }
}

/// A rollback never restores past the requested block, clears what stopped the engine, and
/// leaves no checkpoint above the block.
pub proof fn law_rollback_stays_below<F>(
    state: EngineState<F>,
    block: u64,
    slot: Slot<F>,
    fold: F,
)
    requires
        checkpoint::newest_within(state.slots, state.window, block) == Some(slot),
    ensures
        ({
            let after = engine::rolled_back(state, block, slot, fold);
            &&& after.cursor matches Some(cursor) ==> cursor.block <= block
            &&& after.status is Active
            &&& after.last_verified is None
            &&& forall|i: int|
                0 <= i < after.slots.len() ==> (#[trigger] after.slots[i]) is None
                    || checkpoint::within(after.slots[i], block)
        }),
{
    lemma_newest_within(state.slots, state.window, block);
}

/// The durable point never lies in a block above the cursor.
pub proof fn law_durable_point_trails_cursor<F>(state: EngineState<F>, slot: Slot<F>)
    requires
        engine_model::anchored(state),
        ring::ascending(state.window),
        checkpoint::oldest_live(state.slots, state.window) == Some(slot),
    ensures
        slot.cursor matches Some(point) ==> state.cursor matches Some(cursor) && point.block
            <= cursor.block,
{
    crate::snapshot_laws::lemma_oldest_is_live(state.slots, state.window);
    if slot.cursor is Some {
        let number = slot.cursor->0.block;
        let i = choose|i: int|
            0 <= i < state.window.len() && (#[trigger] state.window[i]).number == number;
        if i < state.window.len() - 1 {
            assert(state.window[i].number < state.window[state.window.len() - 1].number);
        }
    }
}

/// Without slots nothing is ever retained.
pub proof fn law_zero_slots_retain_nothing<F>(
    state: EngineState<F>,
    slot: Slot<F>,
    block: u64,
)
    requires
        state.slots.len() == 0,
    ensures
        checkpoint::stored(state.slots, slot).len() == 0,
        checkpoint::live_count(state.slots, state.window) == 0,
        checkpoint::oldest_live(state.slots, state.window) is None,
        checkpoint::newest_within(state.slots, state.window, block) is None,
{
}

} // verus!
