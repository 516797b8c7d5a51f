//! What an engine promises of one batch, one checkpoint and one rollback, in terms of blocks,
//! positions and slots.
use vstd::prelude::*;

use crate::batch;
use crate::batch::{BatchShapeError, Span};
use crate::checkpoint;
use crate::checkpoint::Slot;
use crate::driver_laws;
use crate::engine;
use crate::engine::ApplySummary;
use crate::engine_laws;
use crate::engine_model;
use crate::engine_model::{Call, EngineState, Entry};
use crate::error::{ApplyError, EngineStatus, FoldError};
use crate::fold::Fold;
use crate::position::{BlockRef, Position};
use crate::retention_laws;
use crate::ring;

verus! {

/// True when block numbers ascend strictly, and within each block there are events at strictly
/// ascending log indices.
pub open spec fn laid_out<E>(spans: Seq<Span<E>>) -> bool {
    &&& forall|i: int, j: int|
        0 <= i < j < spans.len() ==> (#[trigger] spans[i]).block.number < (
        #[trigger] spans[j]).block.number
    &&& forall|i: int| 0 <= i < spans.len() ==> (#[trigger] spans[i]).entries.len() > 0
    &&& forall|i: int, a: int, b: int|
        0 <= i < spans.len() && 0 <= a < b < spans[i].entries.len() ==> (
        #[trigger] spans[i].entries[a]).0 < (#[trigger] spans[i].entries[b]).0
}

proof fn lemma_laid_out<E>(spans: Seq<Span<E>>)
    ensures
        laid_out(spans) <==> batch::well_shaped(spans),
{
    let numbers = batch::block_numbers(spans);
    assert forall|i: int| 0 <= i < spans.len() implies (#[trigger] spans[i]).block.number
        == numbers[i] by {}
    if batch::well_shaped(spans) {
        assert forall|i: int, j: int| 0 <= i < j < spans.len() implies (
        #[trigger] spans[i]).block.number < (#[trigger] spans[j]).block.number by {
            assert(numbers[i] < numbers[j]);
        }
        assert forall|i: int, a: int, b: int|
            0 <= i < spans.len() && 0 <= a < b < spans[i].entries.len() implies (
        #[trigger] spans[i].entries[a]).0 < (#[trigger] spans[i].entries[b]).0 by {
            let indices = batch::log_indices(spans[i].entries);
            assert(indices[a] < indices[b]);
        }
    }
    if laid_out(spans) {
        assert forall|i: int, j: int| 0 <= i < j < numbers.len() implies numbers[i]
            < numbers[j] by {
            assert(spans[i].block.number < spans[j].block.number);
        }
        assert forall|i: int| 0 <= i < spans.len() implies (#[trigger] spans[i]).entries.len() > 0
            && batch::strictly_ascending(batch::log_indices(spans[i].entries)) by {
            let indices = batch::log_indices(spans[i].entries);
            assert forall|a: int, b: int| 0 <= a < b < indices.len() implies indices[a]
                < indices[b] by {
                assert(spans[i].entries[a].0 < spans[i].entries[b].0);
            }
        }
    }
}

/// True when the boundary header is the observed header of the cursor's block; without a cursor
/// nothing is asked of it.
pub open spec fn boundary_known<F>(state: EngineState<F>, boundary: Option<BlockRef>) -> bool {
    state.cursor matches Some(cursor) ==> boundary is Some && boundary->0.number == cursor.block
        && state.window.contains(boundary->0)
}

/// True when no block up to the cursor's comes under another header than it was observed under.
pub open spec fn agrees<F, E>(state: EngineState<F>, spans: Seq<Span<E>>) -> bool {
    state.cursor matches Some(cursor) ==> forall|i: int, j: int|
        0 <= i < spans.len() && 0 <= j < state.window.len() && (#[trigger] spans[i]).block.number
            <= cursor.block && (#[trigger] state.window[j]).number == spans[i].block.number
            ==> state.window[j] == spans[i].block
}

proof fn lemma_observed_header(window: Seq<BlockRef>, block: BlockRef)
    requires
        ring::ascending(window),
    ensures
        ring::hash_in(window, block.number) == Some(block.hash) <==> window.contains(block),
        ring::hash_in(window, block.number) is None <==> forall|j: int|
            0 <= j < window.len() ==> (#[trigger] window[j]).number != block.number,
        forall|j: int|
            0 <= j < window.len() && (#[trigger] window[j]).number == block.number
                ==> ring::hash_in(window, block.number) == Some(window[j].hash),
{
    assert forall|j: int|
        0 <= j < window.len() && (#[trigger] window[j]).number == block.number implies ring::hash_in(
        window,
        block.number,
    ) == Some(window[j].hash) by {
        ring::lemma_hash_in(window, j);
    }
    if window.contains(block) {
        let j = choose|j: int| 0 <= j < window.len() && window[j] == block;
        assert(window[j].number == block.number);
    }
    if ring::hash_in(window, block.number) == Some(block.hash) {
        let j = choose|j: int|
            0 <= j < window.len() && (#[trigger] window[j]).number == block.number;
        assert(window[j] == block);
    }
}

proof fn lemma_agrees<F: Fold>(state: EngineState<F>, spans: Seq<Span<F::Event>>, at: int)
    requires
        ring::ascending(state.window),
        0 <= at <= spans.len(),
    ensures
        (match engine_model::first_fork(state, spans, at) {
            None => forall|i: int|
                at <= i < spans.len() ==> !engine_model::forks(
                    state,
                    (#[trigger] spans[i]).block,
                ),
            Some(error) => exists|i: int|
                at <= i < spans.len() && engine_model::forks(state, (#[trigger] spans[i]).block)
                    && error == engine_model::fork_error::<F::Error>(
                    spans[i].block.number,
                    ring::hash_in(state.window, spans[i].block.number)->0,
                    spans[i].block,
                ),
        }),
    decreases spans.len() - at,
{
    if at < spans.len() {
        if engine_model::forks(state, spans[at].block) {
        } else {
            lemma_agrees(state, spans, at + 1);
        }
    }
}

/// A batch is taken exactly when the engine is active, the batch is laid out as owed, the
/// boundary header is the one observed for the cursor's block, and no block up to the cursor's
/// comes under a new header. Every other batch is refused, and the error tells which of these
/// was missing first.
pub proof fn law_batch_is_taken_when_it_fits<F: Fold>(
    before: EngineState<F>,
    boundary: Option<BlockRef>,
    spans: Seq<Span<F::Event>>,
    calls: Seq<Call<F>>,
    after: EngineState<F>,
    result: Result<ApplySummary, ApplyError<F::Error>>,
)
    requires
        ring::ascending(before.window),
        engine_model::batch_applied(before, boundary, spans, calls, after, result),
    ensures
        before.status is Active && laid_out(spans) && boundary_known(before, boundary) && agrees(
            before,
            spans,
        ) <==> (match result {
            Ok(_) => true,
            Err(error) => error is Halted || error is Poisoned,
        }),
        (result matches Err(error) && error is NotActive) <==> !(before.status is Active),
        result matches Err(ApplyError::NotActive { status }) ==> status == before.status,
        (result matches Err(error) && error is Shape) <==> before.status is Active && !laid_out(
            spans,
        ),
        (result matches Err(error) && error is MissingBoundary) <==> before.status is Active
            && laid_out(spans) && before.cursor is Some && boundary is None,
        (result matches Err(error) && error is BoundaryNumberMismatch) <==> before.status is Active
            && laid_out(spans) && before.cursor is Some && boundary is Some && boundary->0.number
            != before.cursor->0.block,
        result matches Err(ApplyError::BoundaryNumberMismatch { expected, got }) ==> expected
            == before.cursor->0.block && got == boundary->0.number,
        (result matches Err(error) && error is CursorBlockUnobserved) <==> before.status is Active
            && laid_out(spans) && before.cursor is Some && boundary is Some && boundary->0.number
            == before.cursor->0.block && forall|j: int|
            0 <= j < before.window.len() ==> (#[trigger] before.window[j]).number
                != before.cursor->0.block,
        result matches Err(ApplyError::CursorBlockUnobserved { block }) ==> block
            == before.cursor->0.block,
        result matches Err(ApplyError::ForkSuspected { observed, refetched }) ==> {
            &&& before.window.contains(observed)
            &&& observed.number == refetched.number
            &&& observed.hash != refetched.hash
            &&& observed.number <= before.cursor->0.block
            &&& boundary == Some(refetched) || exists|i: int|
                0 <= i < spans.len() && (#[trigger] spans[i]).block == refetched
        },
{
    batch::lemma_shape_error(spans);
    lemma_laid_out(spans);
    if before.cursor is Some && boundary is Some {
        lemma_observed_header(before.window, boundary->0);
        if boundary->0.number == before.cursor->0.block && ring::observed_in(
            before.window,
            boundary->0.number,
        ) {
            let j = choose|j: int|
                0 <= j < before.window.len() && (#[trigger] before.window[j]).number
                    == boundary->0.number;
            assert(before.window[j] == (BlockRef {
                number: boundary->0.number,
                hash: ring::hash_in(before.window, boundary->0.number)->0,
            }));
        }
    }
    lemma_agrees(before, spans, 0);
    assert forall|i: int| 0 <= i < spans.len() && before.cursor is Some implies (
    engine_model::forks(before, (#[trigger] spans[i]).block) <==> spans[i].block.number
        <= before.cursor->0.block && exists|j: int|
        0 <= j < before.window.len() && (#[trigger] before.window[j]).number
            == spans[i].block.number && before.window[j] != spans[i].block) by {
        lemma_observed_header(before.window, spans[i].block);
        if engine_model::forks(before, spans[i].block) {
            let j = choose|j: int|
                0 <= j < before.window.len() && (#[trigger] before.window[j]).number
                    == spans[i].block.number;
            assert(before.window[j] != spans[i].block);
        }
    }
    if engine_model::refusal(before, boundary, spans) is None {
        match engine_model::first_fork(before, spans, 0) {
            Some(error) => {
                let i = choose|i: int|
                    0 <= i < spans.len() && engine_model::forks(
                        before,
                        (#[trigger] spans[i]).block,
                    ) && error == engine_model::fork_error::<F::Error>(
                        spans[i].block.number,
                        ring::hash_in(before.window, spans[i].block.number)->0,
                        spans[i].block,
                    );
                lemma_observed_header(before.window, spans[i].block);
                let j = choose|j: int|
                    0 <= j < before.window.len() && (#[trigger] before.window[j]).number
                        == spans[i].block.number && before.window[j] != spans[i].block;
                assert(before.window[j] == (BlockRef {
                    number: spans[i].block.number,
                    hash: ring::hash_in(before.window, spans[i].block.number)->0,
                }));
            },
            None => {},
        }
    }
}

/// Event `j` of block `i` of a batch, with its place.
pub open spec fn event_at<E>(spans: Seq<Span<E>>, i: int, j: int) -> Entry<E> {
    Entry {
        block: spans[i].block,
        pos: Position {
            block: spans[i].block.number,
            log_index: spans[i].entries[j].0 as u64,
        },
        event: spans[i].entries[j].1,
    }
}

/// True when the batch holds event `j` of block `i`, and it lies after the cursor: in a higher
/// block, or in the cursor's at a higher log index.
pub open spec fn is_new<E>(
    spans: Seq<Span<E>>,
    cursor: Option<Position>,
    i: int,
    j: int,
) -> bool {
    &&& 0 <= i < spans.len()
    &&& 0 <= j < spans[i].entries.len()
    &&& cursor matches Some(at) ==> spans[i].block.number > at.block || (spans[i].block.number
        == at.block && spans[i].entries[j].0 > at.log_index)
}

/// True when the entry is an event of the batch that lies after the cursor.
pub open spec fn is_news<E>(
    spans: Seq<Span<E>>,
    cursor: Option<Position>,
    entry: Entry<E>,
) -> bool {
    exists|i: int, j: int|
        is_new(spans, cursor, i, j) && #[trigger] event_at(spans, i, j) == entry
}

/// True when every later entry lies in a higher block, or in the same at a higher log index.
pub open spec fn ascending_places<E>(entries: Seq<Entry<E>>) -> bool {
    forall|a: int, b: int|
        0 <= a < b < entries.len() ==> (#[trigger] entries[a]).pos.block < (
        #[trigger] entries[b]).pos.block || (entries[a].pos.block == entries[b].pos.block
            && entries[a].pos.log_index < entries[b].pos.log_index)
}

/// The events of a batch are those of its blocks.
proof fn lemma_all_entries<E>(spans: Seq<Span<E>>)
    ensures
        forall|i: int, j: int|
            0 <= i < spans.len() && 0 <= j < spans[i].entries.len()
                ==> engine_model::all_entries(spans).contains(#[trigger] event_at(spans, i, j)),
        forall|k: int|
            0 <= k < engine_model::all_entries(spans).len() ==> is_news(
                spans,
                None,
                #[trigger] engine_model::all_entries(spans)[k],
            ),
    decreases spans.len(),
{
    let all = engine_model::all_entries(spans);
    if spans.len() > 0 {
        let fewer = spans.drop_last();
        lemma_all_entries(fewer);
        let led = engine_model::all_entries(fewer);
        let more = engine_model::entries_of(spans.last());
        assert(all == led + more);
        assert forall|i: int, j: int|
            0 <= i < spans.len() && 0 <= j < spans[i].entries.len() implies all.contains(
            #[trigger] event_at(spans, i, j),
        ) by {
            if i < fewer.len() {
                assert(event_at(fewer, i, j) == event_at(spans, i, j));
                let k = choose|k: int| 0 <= k < led.len() && led[k] == event_at(fewer, i, j);
                assert(all[k] == event_at(spans, i, j));
            } else {
                assert(all[led.len() + j] == more[j]);
                assert(more[j] == event_at(spans, i, j));
            }
        }
        assert forall|k: int| 0 <= k < all.len() implies is_news(
            spans,
            None,
            #[trigger] all[k],
        ) by {
            if k < led.len() {
                assert(all[k] == led[k]);
                let (i, j) = choose|i: int, j: int|
                    is_new(fewer, None, i, j) && #[trigger] event_at(fewer, i, j) == led[k];
                assert(event_at(fewer, i, j) == event_at(spans, i, j));
                assert(is_new(spans, None, i, j));
            } else {
                let j = k - led.len();
                assert(all[k] == more[j]);
                assert(is_new(spans, None, spans.len() - 1, j));
                assert(event_at(spans, spans.len() - 1, j) == all[k]);
            }
        }
    }
}

/// A batch that was taken hands the fold its events after the cursor, all of them, each once
/// and by ascending place, up to the first that stops it. What the fold answered is counted;
/// the cursor stands on the last event the fold did not stop at.
pub proof fn law_fold_is_handed_what_is_new<F: Fold>(
    before: EngineState<F>,
    boundary: Option<BlockRef>,
    spans: Seq<Span<F::Event>>,
    calls: Seq<Call<F>>,
    after: EngineState<F>,
    result: Result<ApplySummary, ApplyError<F::Error>>,
) -> (handed: Seq<Entry<F::Event>>)
    requires
        engine_model::batch_applied(before, boundary, spans, calls, after, result),
        result matches Err(error) ==> error is Halted || error is Poisoned,
    ensures
        ascending_places(handed),
        forall|k: int|
            0 <= k < handed.len() ==> is_news(spans, before.cursor, #[trigger] handed[k]),
        forall|i: int, j: int|
            is_new(spans, before.cursor, i, j) ==> handed.contains(#[trigger] event_at(spans, i, j)),
        calls.len() <= handed.len(),
        forall|k: int|
            0 <= k < calls.len() ==> F::folds(
                if k == 0 {
                    before.fold
                } else {
                    calls[k - 1].after
                },
                handed[k].pos,
                handed[k].event,
                (#[trigger] calls[k]).after,
                calls[k].outcome,
            ),
        forall|k: int|
            0 <= k < calls.len() ==> ((#[trigger] calls[k]).outcome matches Err(error)
                && !(error is Skip) ==> k == calls.len() - 1 && result is Err),
        after.fold == (if calls.len() == 0 {
            before.fold
        } else {
            calls[calls.len() - 1].after
        }),
        result is Ok ==> calls.len() == handed.len() && after.status == before.status
            && after.cursor == (if handed.len() == 0 {
            before.cursor
        } else {
            Some(handed.last().pos)
        }),
        result matches Err(error) ==> {
            let last = calls.len() - 1;
            &&& calls.len() > 0
            &&& after.cursor == (if last == 0 {
                before.cursor
            } else {
                Some(handed[last - 1].pos)
            })
            &&& match calls[last].outcome {
                Err(FoldError::Halt(told)) => error == (ApplyError::<F::Error>::Halted {
                    at: handed[last].pos,
                    error: told,
                }) && after.status == (EngineStatus::Halted { at: handed[last].pos }),
                Err(FoldError::Poison(told)) => error == (ApplyError::<F::Error>::Poisoned {
                    at: handed[last].pos,
                    error: told,
                }) && after.status == (EngineStatus::Poisoned { at: handed[last].pos }),
                _ => false,
            }
        },
        after.slots == before.slots,
        after.capacity == before.capacity,
{
    let all = engine_model::all_entries(spans);
    let todo = engine_model::fresh(all, before.cursor);
    crate::chain_laws::lemma_fork_is_reported(before, spans, 0);
    batch::lemma_shape_error(spans);
    engine_laws::lemma_entries_in_order(spans, spans.len() as int);
    assert(spans.take(spans.len() as int) =~= spans);
    engine_laws::lemma_fresh_in_order(all, before.cursor);
    lemma_fresh_is_news(spans, before.cursor);
    let begun = engine_model::confirmed(before, boundary);
    let run = todo.take(engine_model::consumed_count(calls));
    engine_model::lemma_advanced_over_cursor(begun, run);
    if result is Ok {
        assert(run =~= todo);
    } else if run.len() > 0 {
        assert(run.last() == todo[run.len() - 1]);
    }
    todo
}

/// What passes a filter is in its result.
proof fn lemma_filter_holds<A>(values: Seq<A>, keep: spec_fn(A) -> bool, value: A)
    requires
        values.contains(value),
        keep(value),
    ensures
        values.filter(keep).contains(value),
    decreases values.len(),
{
    reveal(Seq::filter);
    let rest = values.drop_last();
    let at = choose|at: int| 0 <= at < values.len() && values[at] == value;
    let kept = rest.filter(keep);
    if at < rest.len() {
        assert(rest[at] == value);
        lemma_filter_holds(rest, keep, value);
        let k = choose|k: int| 0 <= k < kept.len() && kept[k] == value;
        assert(values.filter(keep)[k] == value);
    } else {
        assert(values.filter(keep)[kept.len() as int] == value);
    }
}

/// The summary of a batch counts the events the fold accepted, those it skipped, and those that
/// did not lie after the cursor; together they are all events of the batch. Skips go on being
/// counted over batches.
pub proof fn law_summary_counts_the_answers<F: Fold>(
    before: EngineState<F>,
    boundary: Option<BlockRef>,
    spans: Seq<Span<F::Event>>,
    calls: Seq<Call<F>>,
    after: EngineState<F>,
    summary: ApplySummary,
    events: int,
)
    requires
        engine_model::batch_applied(before, boundary, spans, calls, after, Ok(summary)),
        events == spans.fold_left(0, |sum: int, span: Span<F::Event>| sum + span.entries.len()),
        events <= u64::MAX,
    ensures
        summary.applied == calls.filter(|call: Call<F>| call.outcome is Ok).len(),
        summary.skipped == calls.filter(|call: Call<F>| call.outcome is Err).len(),
        summary.applied + summary.skipped + summary.deduped == events,
        before.skips + summary.skipped <= u64::MAX ==> after.skips == before.skips
            + summary.skipped,
{
    let all = engine_model::all_entries(spans);
    let todo = engine_model::fresh(all, before.cursor);
    crate::chain_laws::lemma_fork_is_reported(before, spans, 0);
    lemma_entries_counted(spans);
    engine_model::lemma_filter_kept(
        all,
        |entry: Entry<F::Event>| engine_model::is_fresh(entry, before.cursor),
    );
    assert forall|i: int| 0 <= i < calls.len() implies !engine_model::stops(
        (#[trigger] calls[i]).outcome,
    ) by {
        if i == calls.len() - 1 {
            assert(calls[i] == calls.last());
        }
    }
    lemma_answers_counted(calls);
    engine_model::lemma_advanced_over_cursor(
        engine_model::confirmed(before, boundary),
        todo.take(engine_model::consumed_count(calls)),
    );
}

proof fn lemma_entries_counted<E>(spans: Seq<Span<E>>)
    ensures
        engine_model::all_entries(spans).len() == spans.fold_left(
            0,
            |sum: int, span: Span<E>| sum + span.entries.len(),
        ),
    decreases spans.len(),
{
    reveal(Seq::fold_left);
    if spans.len() > 0 {
        lemma_entries_counted(spans.drop_last());
    }
}

proof fn lemma_answers_counted<F: Fold>(calls: Seq<Call<F>>)
    requires
        forall|i: int|
            0 <= i < calls.len() ==> !engine_model::stops((#[trigger] calls[i]).outcome),
    ensures
        engine_model::applied_count(calls) == calls.filter(
            |call: Call<F>| call.outcome is Ok,
        ).len(),
        engine_model::skipped_count(calls) == calls.filter(
            |call: Call<F>| call.outcome is Err,
        ).len(),
        engine_model::applied_count(calls) + engine_model::skipped_count(calls) == calls.len(),
    decreases calls.len(),
{
    reveal(Seq::filter);
    if calls.len() > 0 {
        let rest = calls.drop_last();
        assert forall|i: int| 0 <= i < rest.len() implies !engine_model::stops(
            (#[trigger] rest[i]).outcome,
        ) by {
            assert(rest[i] == calls[i]);
        }
        lemma_answers_counted(rest);
        assert(!engine_model::stops(calls[calls.len() - 1].outcome));
    }
}

/// True when the window lacks the block only for want of room: it is full, and the block lies
/// below all it holds.
pub open spec fn kept_or_oldest(window: Seq<BlockRef>, capacity: nat, block: BlockRef) -> bool {
    window.contains(block) || (window.len() == capacity && block.number < window[0].number)
}

/// Moving over events loses no block but the oldest.
proof fn lemma_window_keeps<F: Fold>(state: EngineState<F>, entries: Seq<Entry<F::Event>>)
    requires
        retention_laws::orderly(state),
        engine_model::in_order(entries),
        forall|k: int|
            0 <= k < entries.len() ==> (#[trigger] entries[k]).pos.block
                == entries[k].block.number && engine_model::is_fresh(entries[k], state.cursor),
        forall|a: int, b: int|
            0 <= a < entries.len() && 0 <= b < entries.len() && (#[trigger] entries[a]).block.number
                == (#[trigger] entries[b]).block.number ==> entries[a].block == entries[b].block,
    ensures
        forall|i: int|
            0 <= i < state.window.len() ==> kept_or_oldest(
                engine_model::advanced_over(state, entries).window,
                state.capacity,
                #[trigger] state.window[i],
            ),
        forall|k: int|
            0 <= k < entries.len() && (state.cursor matches Some(cursor)
                ==> entries[k].block.number > cursor.block) ==> kept_or_oldest(
                engine_model::advanced_over(state, entries).window,
                state.capacity,
                (#[trigger] entries[k]).block,
            ),
        engine_model::advanced_over(state, entries).last_verified == (if entries.len() > 0 && (
        state.cursor matches Some(cursor) ==> entries.last().block.number > cursor.block) {
            Some(entries.last().block)
        } else {
            state.last_verified
        }),
    decreases entries.len(),
{
    let after = engine_model::advanced_over(state, entries);
    if entries.len() == 0 {
        assert forall|i: int| 0 <= i < state.window.len() implies kept_or_oldest(
            after.window,
            state.capacity,
            #[trigger] state.window[i],
        ) by {
            assert(after.window.contains(state.window[i]));
        }
    } else {
        let rest = entries.drop_last();
        let last = entries[entries.len() - 1];
        assert forall|i: int, j: int| 0 <= i < j < rest.len() implies (
        #[trigger] rest[i]).pos.before((#[trigger] rest[j]).pos) by {
            assert(rest[i] == entries[i] && rest[j] == entries[j]);
        }
        assert forall|k: int| 0 <= k < rest.len() implies (#[trigger] rest[k]).pos.block
            == rest[k].block.number && engine_model::is_fresh(rest[k], state.cursor) by {
            assert(rest[k] == entries[k]);
        }
        assert forall|a: int, b: int|
            0 <= a < rest.len() && 0 <= b < rest.len() && (#[trigger] rest[a]).block.number == (
            #[trigger] rest[b]).block.number implies rest[a].block == rest[b].block by {
            assert(rest[a] == entries[a] && rest[b] == entries[b]);
        }
        lemma_window_keeps(state, rest);
        retention_laws::lemma_advanced_window(state, rest);
        let mid = engine_model::advanced_over(state, rest);
        engine_model::lemma_advanced_over_cursor(state, rest);
        if rest.len() > 0 {
            let prior = entries[entries.len() - 2];
            assert(rest.last() == prior);
            assert(prior.pos.before(last.pos));
        }
        let joins = mid.window.len() == 0 || mid.window.last().number < last.block.number;
        assert forall|block: BlockRef| kept_or_oldest(mid.window, state.capacity, block)
            implies #[trigger] kept_or_oldest(after.window, state.capacity, block) by {
            if joins {
                ring::lemma_slide(mid.window, last.block, mid.capacity);
                lemma_slide_keeps(mid.window, last.block, mid.capacity, block);
            }
        }
        if joins {
            assert(after.window.last() == last.block);
            assert(after.window[after.window.len() - 1] == last.block);
            assert(after.window.contains(last.block));
        } else {
            assert(mid.window.last().number == last.block.number);
        }
        assert forall|k: int|
            0 <= k < entries.len() && (state.cursor matches Some(cursor)
                ==> entries[k].block.number > cursor.block) implies kept_or_oldest(
            after.window,
            state.capacity,
            (#[trigger] entries[k]).block,
        ) by {
            if k < rest.len() {
                assert(rest[k] == entries[k]);
            } else if !joins {
                assert(rest.len() > 0);
                assert(rest[rest.len() - 1] == entries[entries.len() - 2]);
                assert(entries[entries.len() - 2].block == last.block);
            }
        }
    }
}

/// What a window loses when a higher block joins it.
proof fn lemma_slide_keeps(
    window: Seq<BlockRef>,
    joins: BlockRef,
    capacity: nat,
    block: BlockRef,
)
    requires
        ring::ascending(window),
        window.len() <= capacity,
        0 < capacity,
        window.len() > 0 ==> window.last().number < joins.number,
        kept_or_oldest(window, capacity, block),
    ensures
        kept_or_oldest(ring::slide(window, joins, capacity), capacity, block),
{
    let new = ring::slide(window, joins, capacity);
    if window.contains(block) {
        let i = choose|i: int| 0 <= i < window.len() && window[i] == block;
        if window.len() < capacity {
            assert(new[i] == block);
        } else if i > 0 {
            assert(new[i - 1] == block);
        } else if window.len() > 1 {
            assert(new[0] == window[1]);
            assert(window[0].number < window[1].number);
        } else {
            assert(new[0] == joins);
        }
    } else if window.len() > 1 {
        assert(new[0] == window[1]);
        assert(window[0].number < window[1].number);
    } else {
        assert(new[0] == joins);
        assert(window.last() == window[0]);
    }
}

/// A batch that went through leaves the observed blocks ascending, at most as many as the
/// capacity, and none but the observed ones and those of the events it took. Nothing is lost
/// but for want of room, and then the oldest: an observed block, or one of a new event above
/// the cursor's, is held unless the window is full of higher ones. The block verified last is
/// the newest of the batch, or else the boundary.
pub proof fn law_observed_blocks_are_kept<F: Fold>(
    before: EngineState<F>,
    boundary: Option<BlockRef>,
    spans: Seq<Span<F::Event>>,
    calls: Seq<Call<F>>,
    after: EngineState<F>,
    summary: ApplySummary,
)
    requires
        retention_laws::orderly(before),
        engine_model::batch_applied(before, boundary, spans, calls, after, Ok(summary)),
    ensures
        ring::ascending(after.window),
        after.window.len() <= before.capacity,
        forall|i: int|
            0 <= i < after.window.len() ==> before.window.contains(#[trigger] after.window[i])
                || exists|k: int|
                0 <= k < spans.len() && (#[trigger] spans[k]).block == after.window[i],
        forall|i: int|
            0 <= i < before.window.len() ==> kept_or_oldest(
                after.window,
                before.capacity,
                #[trigger] before.window[i],
            ),
        forall|k: int|
            0 <= k < spans.len() && (before.cursor matches Some(cursor)
                ==> spans[k].block.number > cursor.block) ==> kept_or_oldest(
                after.window,
                before.capacity,
                (#[trigger] spans[k]).block,
            ),
        after.last_verified == (if spans.len() > 0 && (before.cursor matches Some(cursor)
            ==> spans.last().block.number > cursor.block) {
            Some(spans.last().block)
        } else if before.cursor is Some {
            boundary
        } else {
            before.last_verified
        }),
{
    let todo = engine_model::fresh(engine_model::all_entries(spans), before.cursor);
    let begun = engine_model::confirmed(before, boundary);
    batch::lemma_shape_error(spans);
    lemma_fresh_blocks(spans, before.cursor);
    lemma_fresh_is_news(spans, before.cursor);
    assert(todo.take(engine_model::consumed_count(calls)) =~= todo);
    retention_laws::lemma_advanced_window(begun, todo);
    lemma_window_keeps(begun, todo);
    engine_model::lemma_advanced_over_cursor(begun, todo);
    let window = engine_model::advanced_over(begun, todo).window;
    assert(after.window == window);
    assert forall|i: int| 0 <= i < window.len() implies before.window.contains(
        #[trigger] window[i],
    ) || exists|k: int| 0 <= k < spans.len() && (#[trigger] spans[k]).block == window[i] by {
        if !before.window.contains(window[i]) {
            let k = choose|k: int| 0 <= k < todo.len() && (#[trigger] todo[k]).block == window[i];
            assert(is_news(spans, before.cursor, todo[k]));
        }
    }
    assert forall|k: int|
        0 <= k < spans.len() && (before.cursor matches Some(cursor) ==> spans[k].block.number
            > cursor.block) implies kept_or_oldest(
        window,
        before.capacity,
        (#[trigger] spans[k]).block,
    ) by {
        assert(spans[k].entries.len() > 0);
        assert(is_new(spans, before.cursor, k, 0));
        assert(todo.contains(event_at(spans, k, 0)));
        let n = choose|n: int| 0 <= n < todo.len() && todo[n] == event_at(spans, k, 0);
        assert(kept_or_oldest(window, before.capacity, todo[n].block));
    }
}

/// What is fresh of a batch comes under one header for each block, and ends with the batch's
/// last block when that lies above the cursor's.
proof fn lemma_fresh_blocks<E>(spans: Seq<Span<E>>, cursor: Option<Position>)
    requires
        batch::well_shaped(spans),
    ensures
        ({
            let todo = engine_model::fresh(engine_model::all_entries(spans), cursor);
            &&& engine_model::in_order(todo)
            &&& forall|k: int|
                0 <= k < todo.len() ==> (#[trigger] todo[k]).pos.block == todo[k].block.number
                    && engine_model::is_fresh(todo[k], cursor)
            &&& forall|a: int, b: int|
                0 <= a < todo.len() && 0 <= b < todo.len() && (#[trigger] todo[a]).block.number
                    == (#[trigger] todo[b]).block.number ==> todo[a].block == todo[b].block
            &&& spans.len() > 0 && (cursor matches Some(at) ==> spans.last().block.number
                > at.block) ==> todo.len() > 0 && todo.last().block == spans.last().block
            &&& todo.len() > 0 && (cursor matches Some(at) ==> todo.last().block.number
                > at.block) ==> spans.len() > 0 && (cursor matches Some(at)
                ==> spans.last().block.number > at.block)
        }),
{
    let all = engine_model::all_entries(spans);
    let todo = engine_model::fresh(all, cursor);
    lemma_laid_out(spans);
    engine_laws::lemma_entries_in_order(spans, spans.len() as int);
    assert(spans.take(spans.len() as int) =~= spans);
    engine_laws::lemma_fresh_in_order(all, cursor);
    lemma_fresh_is_news(spans, cursor);
    assert forall|a: int, b: int|
        0 <= a < todo.len() && 0 <= b < todo.len() && (#[trigger] todo[a]).block.number == (
        #[trigger] todo[b]).block.number implies todo[a].block == todo[b].block by {
        assert(is_news(spans, cursor, todo[a]) && is_news(spans, cursor, todo[b]));
        let (i, p) = choose|i: int, j: int|
            is_new(spans, cursor, i, j) && #[trigger] event_at(spans, i, j) == todo[a];
        let (j, q) = choose|i: int, j: int|
            is_new(spans, cursor, i, j) && #[trigger] event_at(spans, i, j) == todo[b];
        if i < j {
            assert(spans[i].block.number < spans[j].block.number);
        } else if j < i {
            assert(spans[j].block.number < spans[i].block.number);
        }
    }
    if spans.len() > 0 {
        let top = spans.len() - 1;
        assert(spans[top].entries.len() > 0);
        let more = engine_model::entries_of(spans.last());
        assert(all == engine_model::all_entries(spans.drop_last()) + more);
        assert(all.last() == more[more.len() - 1]);
        if cursor matches Some(at) ==> spans.last().block.number > at.block {
            assert(engine_model::is_fresh(all.last(), cursor));
        }
    }
    if todo.len() > 0 {
        assert(is_news(spans, cursor, todo[todo.len() - 1]));
        let (i, p) = choose|i: int, j: int|
            is_new(spans, cursor, i, j) && #[trigger] event_at(spans, i, j) == todo[todo.len() - 1];
        let top = spans.len() - 1;
        if i < top {
            assert(spans[i].block.number < spans[top].block.number);
        }
    }
}

/// What is fresh of a batch are its events after the cursor.
proof fn lemma_fresh_is_news<E>(spans: Seq<Span<E>>, cursor: Option<Position>)
    ensures
        ({
            let todo = engine_model::fresh(engine_model::all_entries(spans), cursor);
            &&& forall|k: int|
                0 <= k < todo.len() ==> is_news(spans, cursor, #[trigger] todo[k])
            &&& forall|i: int, j: int|
                is_new(spans, cursor, i, j) ==> todo.contains(#[trigger] event_at(spans, i, j))
        }),
{
    let all = engine_model::all_entries(spans);
    let todo = engine_model::fresh(all, cursor);
    let keep = |entry: Entry<E>| engine_model::is_fresh(entry, cursor);
    lemma_all_entries(spans);
    engine_model::lemma_filter_kept(all, keep);
    assert forall|k: int| 0 <= k < todo.len() implies is_news(
        spans,
        cursor,
        #[trigger] todo[k],
    ) by {
        assert(all.contains(all.filter(keep)[k]));
        let n = choose|n: int| 0 <= n < all.len() && all[n] == todo[k];
        assert(is_news(spans, None, all[n]));
        let (i, j) = choose|i: int, j: int|
            is_new(spans, None, i, j) && #[trigger] event_at(spans, i, j) == all[n];
        assert(keep(all.filter(keep)[k]));
        assert(is_new(spans, cursor, i, j));
    }
    assert forall|i: int, j: int| is_new(spans, cursor, i, j) implies todo.contains(
        #[trigger] event_at(spans, i, j),
    ) by {
        let entry = event_at(spans, i, j);
        assert(all.contains(entry));
        assert(keep(entry));
        lemma_filter_holds(all, keep, entry);
    }
}

/// True when slot `k` can be restored and its cursor does not lie in a block above `block`.
pub open spec fn restorable_below<F>(state: EngineState<F>, block: u64, k: int) -> bool {
    &&& driver_laws::restorable(state, k)
    &&& state.slots[k]->0.cursor matches Some(cursor) ==> cursor.block <= block
}

/// A rollback is refused for want of a checkpoint exactly when no slot can be restored at or
/// below the block. Otherwise it restores the newest such slot: its fold and cursor, and the
/// observed blocks up to the cursor's. Slots above the block are emptied, the others stay;
/// the engine is active again, nothing counts as verified, and the skips stay counted.
pub proof fn law_rollback_restores_the_newest_slot_below<F>(
    state: EngineState<F>,
    block: u64,
    fold: F,
)
    requires
        ring::ascending(state.window),
        !(state.status is Unrecoverable),
    ensures
        engine::rollback_error(state, block) is None <==> exists|k: int| #[trigger]
            restorable_below(state, block, k),
        engine::rollback_error(state, block) matches Some(error) ==> error
            == (crate::error::RollbackError::NoCheckpointAtOrBelow { block }),
        engine::rollback_error(state, block) is None ==> exists|k: int|
            {
                let slot = state.slots[k]->0;
                let after = engine::rolled_back(state, block, slot, fold);
                &&& #[trigger] restorable_below(state, block, k)
                &&& forall|j: int| k < j ==> !#[trigger] restorable_below(state, block, j)
                &&& checkpoint::newest_within(state.slots, state.window, block) == Some(slot)
                &&& after.fold == fold
                &&& after.cursor == slot.cursor
                &&& after.status is Active
                &&& after.last_verified is None
                &&& after.skips == state.skips
                &&& after.capacity == state.capacity
                &&& retention_laws::begins_with(state.window, after.window)
                &&& forall|i: int|
                    0 <= i < state.window.len() ==> (i < after.window.len() <==> (slot.cursor
                        matches Some(cursor) && (#[trigger] state.window[i]).number
                        <= cursor.block))
                &&& after.slots.len() == state.slots.len()
                &&& forall|j: int|
                    0 <= j < after.slots.len() ==> #[trigger] after.slots[j] == (
                    match state.slots[j] {
                        Some(other) => match other.cursor {
                            Some(cursor) => if cursor.block <= block {
                                Some(other)
                            } else {
                                None
                            },
                            None => Some(other),
                        },
                        None => None,
                    })
            },
{
    assert forall|k: int| 0 <= k < state.slots.len() implies #[trigger] restorable_below(
        state,
        block,
        k,
    ) == (checkpoint::live_in(state.slots[k], state.window) && checkpoint::within(
        state.slots[k],
        block,
    )) by {
        assert(driver_laws::restorable(state, k) == checkpoint::live_in(
            state.slots[k],
            state.window,
        ));
    }
    if checkpoint::newest_within(state.slots, state.window, block) is Some {
        let k = retention_laws::lemma_newest_index(state.slots, state.window, block);
        let slot = state.slots[k]->0;
        let after = engine::rolled_back(state, block, slot, fold);
        assert(restorable_below(state, block, k));
        if slot.cursor is Some {
            ring::lemma_count_at_or_below(state.window, slot.cursor->0.block);
        }
        assert forall|j: int| k < j implies !#[trigger] restorable_below(state, block, j) by {
            if j < state.slots.len() {
                assert(!(checkpoint::live_in(state.slots[j], state.window)
                    && checkpoint::within(state.slots[j], block)));
            }
        }
    } else {
        assert(state.slots.take(state.slots.len() as int) =~= state.slots);
        crate::recovery_laws::lemma_nothing_within(state, state.slots.len(), block);
        assert forall|k: int| !#[trigger] restorable_below(state, block, k) by {
            if 0 <= k < state.slots.len() {
                assert(!(checkpoint::live_in(state.slots[k], state.window)
                    && checkpoint::within(state.slots[k], block)));
            }
        }
    }
}

/// A checkpoint puts the fold and the cursor in the newest slot; the others move one place
/// towards the oldest, which is gone.
pub proof fn law_checkpoint_joins_as_the_newest<F>(state: EngineState<F>, fold: F)
    ensures
        ({
            let new = checkpoint::stored(state.slots, Slot { fold, cursor: state.cursor });
            &&& new.len() == state.slots.len()
            &&& forall|k: int| 0 <= k < new.len() - 1 ==> #[trigger] new[k] == state.slots[k + 1]
            &&& new.len() > 0 ==> new[new.len() - 1] == Some(Slot { fold, cursor: state.cursor })
        }),
{
}

/// The checkpoints that count are those that can be restored.
pub proof fn law_checkpoint_count_is_of_restorable_slots<F>(state: EngineState<F>)
    ensures
        checkpoint::live_count(state.slots, state.window) == Set::new(
            |k: int| driver_laws::restorable(state, k),
        ).len(),
{
    lemma_live_count(state, state.slots.len());
    assert(state.slots.take(state.slots.len() as int) =~= state.slots);
    assert(Set::new(|k: int| driver_laws::restorable(state, k)) =~= Set::new(
        |k: int| k < state.slots.len() && driver_laws::restorable(state, k),
    ));
}

proof fn lemma_live_count<F>(state: EngineState<F>, count: nat)
    requires
        count <= state.slots.len(),
    ensures
        ({
            let found = Set::new(|k: int| k < count && driver_laws::restorable(state, k));
            &&& found.finite()
            &&& checkpoint::live_count(state.slots.take(count as int), state.window)
                == found.len()
        }),
    decreases count,
{
    let found = Set::new(|k: int| k < count && driver_laws::restorable(state, k));
    if count == 0 {
        assert(found =~= Set::empty());
    } else {
        let last = count - 1;
        let fewer = Set::new(|k: int| k < last && driver_laws::restorable(state, k));
        lemma_live_count(state, last as nat);
        assert(fewer =~= Set::new(
            |k: int| k < last as nat && driver_laws::restorable(state, k),
        ));
        let some = state.slots.take(count as int);
        assert(some.drop_last() =~= state.slots.take(last));
        assert(some.last() == state.slots[last]);
        assert(driver_laws::restorable(state, last) == checkpoint::live_in(
            state.slots[last],
            state.window,
        ));
        if driver_laws::restorable(state, last) {
            assert(found =~= fewer.insert(last));
        } else {
            assert(found =~= fewer);
        }
    }
}

/// A new engine, and one that was reset, holds the fold it was given and nothing else.
pub proof fn law_new_engine_holds_nothing<F>(fold: F, capacity: nat, slots: nat)
    ensures
        ({
            let new = engine::genesis(fold, capacity, slots);
            &&& new.fold == fold
            &&& new.cursor is None
            &&& new.window.len() == 0
            &&& new.capacity == capacity
            &&& new.slots.len() == slots
            &&& forall|k: int| 0 <= k < new.slots.len() ==> (#[trigger] new.slots[k]) is None
            &&& new.status is Active
            &&& new.last_verified is None
            &&& new.skips == 0
        }),
{
}

/// The durable slot is the oldest one that can be restored, if there is one.
pub proof fn law_durable_slot_is_the_oldest_restorable<F>(state: EngineState<F>)
    ensures
        match checkpoint::oldest_live(state.slots, state.window) {
            Some(slot) => exists|k: int| #[trigger]
                driver_laws::restorable(state, k) && state.slots[k] == Some(slot) && forall|j: int|
                    0 <= j < k ==> !#[trigger] driver_laws::restorable(state, j),
            None => forall|k: int| !#[trigger] driver_laws::restorable(state, k),
        },
{
    if checkpoint::oldest_live(state.slots, state.window) is Some {
        let k = retention_laws::lemma_oldest_index(state.slots, state.window);
        assert(driver_laws::restorable(state, k));
        assert forall|j: int| 0 <= j < k implies !#[trigger] driver_laws::restorable(
            state,
            j,
        ) by {
            assert(!checkpoint::live_in(state.slots[j], state.window));
        }
    } else {
        crate::snapshot_laws::lemma_none_live(state, state.slots, 0);
    }
}

/// The durable block is that of the durable slot's cursor, if it has one.
pub proof fn lemma_durable_block<F>(state: EngineState<F>)
    ensures
        match checkpoint::oldest_live(state.slots, state.window) {
            Some(slot) => match slot.cursor {
                Some(point) => (exists|k: int| #[trigger]
                    driver_laws::durable_at(state, k, point.block)) && forall|k: int, block: u64|
                    #[trigger]
                    driver_laws::durable_at(state, k, block) ==> state.slots[k] == Some(slot),
                None => forall|k: int, block: u64|
                    !#[trigger] driver_laws::durable_at(state, k, block),
            },
            None => forall|k: int, block: u64|
                !#[trigger] driver_laws::durable_at(state, k, block),
        },
{
    law_durable_slot_is_the_oldest_restorable(state);
    if let Some(slot) = checkpoint::oldest_live(state.slots, state.window) {
        let at = choose|k: int| #[trigger]
            driver_laws::restorable(state, k) && state.slots[k] == Some(slot) && forall|j: int|
                0 <= j < k ==> !#[trigger] driver_laws::restorable(state, j);
        assert forall|k: int, block: u64| #[trigger]
            driver_laws::durable_at(state, k, block) implies k == at by {
            if k < at {
                assert(driver_laws::restorable(state, k));
            } else if at < k {
                assert(driver_laws::restorable(state, at));
            }
        }
        if slot.cursor is Some {
            assert(driver_laws::durable_at(state, at, slot.cursor->0.block));
        }
    }
}

/// A batch that is not laid out as owed is refused with its first violation: the first block
/// whose number does not exceed the one before it; or else, in the first block that is wrong,
/// that it has no event, or which event of the batch does not exceed the one before it.
pub proof fn law_layout_error_names_the_first_violation<E>(spans: Seq<Span<E>>)
    requires
        spans.len() <= usize::MAX,
        engine_model::all_entries(spans).len() <= usize::MAX,
    ensures
        match batch::shape_error(spans) {
            None => laid_out(spans),
            Some(BatchShapeError::BlocksNotAscending { span }) => {
                &&& 0 < span < spans.len()
                &&& spans[span as int].block.number <= spans[span - 1].block.number
                &&& forall|i: int|
                    0 < i < span ==> (#[trigger] spans[i]).block.number > spans[i
                        - 1].block.number
            },
            Some(BatchShapeError::SpanEmpty { span }) => {
                &&& span < spans.len()
                &&& spans[span as int].entries.len() == 0
                &&& forall|i: int, j: int|
                    0 <= i < j < spans.len() ==> (#[trigger] spans[i]).block.number < (
                    #[trigger] spans[j]).block.number
                &&& laid_out(spans.take(span as int))
            },
            Some(BatchShapeError::LogIndexNotAscending { span, index }) => {
                let at = index - engine_model::all_entries(spans.take(span as int)).len();
                &&& span < spans.len()
                &&& 0 < at < spans[span as int].entries.len()
                &&& spans[span as int].entries[at].0 <= spans[span as int].entries[at - 1].0
                &&& forall|i: int|
                    0 < i < at ==> (#[trigger] spans[span as int].entries[i]).0
                        > spans[span as int].entries[i - 1].0
                &&& forall|i: int, j: int|
                    0 <= i < j < spans.len() ==> (#[trigger] spans[i]).block.number < (
                    #[trigger] spans[j]).block.number
                &&& laid_out(spans.take(span as int))
            },
        },
{
    let numbers = batch::block_numbers(spans);
    batch::lemma_shape_error(spans);
    lemma_laid_out(spans);
    batch::lemma_descent(numbers);
    match batch::descent(numbers) {
        Some(at) => {
            lemma_first_descent(numbers, 1);
            assert forall|i: int| 0 < i < at implies (#[trigger] spans[i]).block.number > spans[i
                - 1].block.number by {
                assert(numbers[i] > numbers[i - 1]);
            }
        },
        None => {
            assert forall|i: int, j: int| 0 <= i < j < spans.len() implies (
            #[trigger] spans[i]).block.number < (#[trigger] spans[j]).block.number by {
                assert(numbers[i] < numbers[j]);
            }
            assert(engine_model::all_entries(spans.take(0)).len() == 0);
            lemma_first_span_error(spans, 0);
        },
    }
}

/// Where the first descent stands.
proof fn lemma_first_descent(values: Seq<int>, from: int)
    requires
        0 < from,
    ensures
        batch::descent_from(values, from) matches Some(at) ==> {
            &&& from <= at < values.len()
            &&& values[at] <= values[at - 1]
            &&& forall|i: int| from <= i < at ==> #[trigger] values[i] > values[i - 1]
        },
    decreases values.len() - from,
{
    if from < values.len() && values[from] > values[from - 1] {
        lemma_first_descent(values, from + 1);
    }
}

/// The first block with a wrong event, given that block numbers ascend.
proof fn lemma_first_span_error<E>(spans: Seq<Span<E>>, at: int)
    requires
        0 <= at <= spans.len() <= usize::MAX,
        engine_model::all_entries(spans).len() <= usize::MAX,
        forall|i: int, j: int|
            0 <= i < j < spans.len() ==> (#[trigger] spans[i]).block.number < (
            #[trigger] spans[j]).block.number,
        laid_out(spans.take(at)),
    ensures
        match batch::span_error(
            spans,
            at,
            engine_model::all_entries(spans.take(at)).len() as int,
        ) {
            Some(BatchShapeError::SpanEmpty { span }) => {
                &&& span < spans.len()
                &&& spans[span as int].entries.len() == 0
                &&& laid_out(spans.take(span as int))
            },
            Some(BatchShapeError::LogIndexNotAscending { span, index }) => {
                let at = index - engine_model::all_entries(spans.take(span as int)).len();
                &&& span < spans.len()
                &&& 0 < at < spans[span as int].entries.len()
                &&& spans[span as int].entries[at].0 <= spans[span as int].entries[at - 1].0
                &&& forall|i: int|
                    0 < i < at ==> (#[trigger] spans[span as int].entries[i]).0
                        > spans[span as int].entries[i - 1].0
                &&& laid_out(spans.take(span as int))
            },
            Some(_) => false,
            None => true,
        },
    decreases spans.len() - at,
{
    if at < spans.len() {
        let span = spans[at];
        let indices = batch::log_indices(span.entries);
        let led = spans.take(at);
        let more = spans.take(at + 1);
        assert(more.drop_last() =~= led);
        assert(more.last() == span);
        assert(engine_model::all_entries(more).len() == engine_model::all_entries(led).len()
            + span.entries.len());
        lemma_entries_grow(spans, at + 1);
        batch::lemma_descent(indices);
        lemma_first_descent(indices, 1);
        match batch::descent(indices) {
            Some(offset) => {
                assert forall|i: int| 0 < i < offset implies (#[trigger] span.entries[i]).0
                    > span.entries[i - 1].0 by {
                    assert(indices[i] > indices[i - 1]);
                }
            },
            None => {
                if span.entries.len() > 0 {
                    assert(laid_out(more)) by {
                        assert forall|i: int, a: int, b: int|
                            0 <= i < more.len() && 0 <= a < b < more[i].entries.len() implies (
                        #[trigger] more[i].entries[a]).0 < (#[trigger] more[i].entries[b]).0 by {
                            if i < at {
                                assert(led[i] == more[i]);
                                assert(led[i].entries[a].0 < led[i].entries[b].0);
                            } else {
                                assert(indices[a] < indices[b]);
                            }
                        }
                        assert forall|i: int| 0 <= i < more.len() implies (
                        #[trigger] more[i]).entries.len() > 0 by {
                            if i < at {
                                assert(led[i] == more[i]);
                            }
                        }
                        assert forall|i: int, j: int| 0 <= i < j < more.len() implies (
                        #[trigger] more[i]).block.number < (#[trigger] more[j]).block.number by {
                            assert(spans[i].block.number < spans[j].block.number);
                        }
                    }
                    lemma_first_span_error(spans, at + 1);
                }
            },
        }
    }
}

/// Fewer blocks hold no more events.
proof fn lemma_entries_grow<E>(spans: Seq<Span<E>>, at: int)
    requires
        0 <= at <= spans.len(),
    ensures
        engine_model::all_entries(spans.take(at)).len() <= engine_model::all_entries(spans).len(),
    decreases spans.len() - at,
{
    if at == spans.len() {
        assert(spans.take(at) =~= spans);
    } else {
        lemma_entries_grow(spans, at + 1);
        assert(spans.take(at + 1).drop_last() =~= spans.take(at));
    }
}

} // verus!
