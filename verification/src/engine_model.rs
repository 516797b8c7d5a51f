//! What applying a batch to an engine means.
use vstd::prelude::*;

use crate::batch;
use crate::batch::Span;
use crate::checkpoint::Slot;
use crate::engine::ApplySummary;
use crate::error::{ApplyError, EngineStatus, FoldError};
use crate::fold::Fold;
use crate::position::{BlockRef, Position};
use crate::ring;

verus! {

/// Everything an engine remembers.
pub struct EngineState<F> {
    /// State of the fold.
    pub fold: F,
    /// Position of the last event consumed.
    pub cursor: Option<Position>,
    /// Observed blocks, oldest first.
    pub window: Seq<BlockRef>,
    /// Most blocks the window holds.
    pub capacity: nat,
    /// Checkpoint slots, oldest first.
    pub slots: Seq<Option<Slot<F>>>,
    /// Whether the engine accepts batches.
    pub status: EngineStatus,
    /// Block whose hash the source confirmed last.
    pub last_verified: Option<BlockRef>,
    /// Events the fold declared not its own.
    pub skips: u64,
}

/// One event with its place on the chain.
pub struct Entry<E> {
    /// Block of the event.
    pub block: BlockRef,
    /// Position of the event.
    pub pos: Position,
    /// The event.
    pub event: E,
}

/// One answer of the fold.
pub struct Call<F: Fold> {
    /// State after the call.
    pub after: F,
    /// What the fold answered.
    pub outcome: Result<(), FoldError<F::Error>>,
}

/// The events of one span.
pub open spec fn entries_of<E>(span: Span<E>) -> Seq<Entry<E>> {
    Seq::new(
        span.entries.len(),
        |j: int|
            Entry {
                block: span.block,
                pos: Position {
                    block: span.block.number,
                    log_index: span.entries[j].0 as u64,
                },
                event: span.entries[j].1,
            },
    )
}

/// The events of every span, in order.
pub open spec fn all_entries<E>(spans: Seq<Span<E>>) -> Seq<Entry<E>>
    decreases spans.len(),
{
    if spans.len() == 0 {
        Seq::empty()
    } else {
        all_entries(spans.drop_last()) + entries_of(spans.last())
    }
}

/// True when an event lies after the cursor.
pub open spec fn is_fresh<E>(entry: Entry<E>, cursor: Option<Position>) -> bool {
    match cursor {
        Some(cursor) => cursor.before(entry.pos),
        None => true,
    }
}

/// The events that lie after the cursor.
pub open spec fn fresh<E>(entries: Seq<Entry<E>>, cursor: Option<Position>) -> Seq<Entry<E>> {
    entries.filter(|entry: Entry<E>| is_fresh(entry, cursor))
}

/// True when the answer ends the batch.
pub open spec fn stops<E>(outcome: Result<(), FoldError<E>>) -> bool {
    outcome matches Err(error) && !(error is Skip)
}

/// State the fold is in before call `i`.
pub open spec fn fold_before<F: Fold>(start: F, calls: Seq<Call<F>>, i: int) -> F {
    if i <= 0 {
        start
    } else {
        calls[i - 1].after
    }
}

/// The fold is handed the events in order, each once, up to the first that stops it.
pub open spec fn calls_follow<F: Fold>(
    start: F,
    entries: Seq<Entry<F::Event>>,
    calls: Seq<Call<F>>,
) -> bool {
    &&& calls.len() <= entries.len()
    &&& forall|i: int|
        0 <= i < calls.len() ==> F::folds(
            fold_before(start, calls, i),
            entries[i].pos,
            entries[i].event,
            (#[trigger] calls[i]).after,
            calls[i].outcome,
        )
    &&& forall|i: int| 0 <= i < calls.len() - 1 ==> !stops((#[trigger] calls[i]).outcome)
    &&& calls.len() < entries.len() ==> calls.len() > 0 && stops(calls.last().outcome)
}

/// True when the fold stopped the batch.
pub open spec fn stopped<F: Fold>(calls: Seq<Call<F>>) -> bool {
    calls.len() > 0 && stops(calls.last().outcome)
}

/// The number of events the fold consumed.
pub open spec fn consumed_count<F: Fold>(calls: Seq<Call<F>>) -> int {
    if stopped(calls) {
        calls.len() - 1
    } else {
        calls.len() as int
    }
}

/// The number of events the fold accepted.
pub open spec fn applied_count<F: Fold>(calls: Seq<Call<F>>) -> nat
    decreases calls.len(),
{
    if calls.len() == 0 {
        0
    } else {
        applied_count(calls.drop_last()) + if calls.last().outcome is Ok {
            1nat
        } else {
            0nat
        }
    }
}

/// The number of events the fold declared not its own.
pub open spec fn skipped_count<F: Fold>(calls: Seq<Call<F>>) -> nat
    decreases calls.len(),
{
    if calls.len() == 0 {
        0
    } else {
        skipped_count(calls.drop_last()) + if calls.last().outcome matches Err(error)
            && error is Skip {
            1nat
        } else {
            0nat
        }
    }
}

/// A counter of 64 bits after `more` steps.
pub open spec fn counted(counter: u64, more: nat) -> u64 {
    ((counter + more) % 0x1_0000_0000_0000_0000) as u64
}

/// The cursor moves onto an event; its block joins the window when it lies above the newest.
pub open spec fn advanced<F: Fold>(
    state: EngineState<F>,
    block: BlockRef,
    pos: Position,
) -> EngineState<F> {
    if state.window.len() == 0 || state.window.last().number < block.number {
        EngineState {
            cursor: Some(pos),
            window: ring::slide(state.window, block, state.capacity),
            last_verified: Some(block),
            ..state
        }
    } else {
        EngineState { cursor: Some(pos), ..state }
    }
}

/// The cursor moves over events one after the other.
pub open spec fn advanced_over<F: Fold>(
    state: EngineState<F>,
    entries: Seq<Entry<F::Event>>,
) -> EngineState<F>
    decreases entries.len(),
{
    if entries.len() == 0 {
        state
    } else {
        advanced(
            advanced_over(state, entries.drop_last()),
            entries.last().block,
            entries.last().pos,
        )
    }
}

/// Status once the fold has answered.
pub open spec fn status_after<F: Fold>(
    status: EngineStatus,
    entries: Seq<Entry<F::Event>>,
    calls: Seq<Call<F>>,
) -> EngineStatus {
    if stopped(calls) {
        let at = entries[calls.len() - 1].pos;
        match calls.last().outcome {
            Err(FoldError::Halt(_)) => EngineStatus::Halted { at },
            _ => EngineStatus::Poisoned { at },
        }
    } else {
        status
    }
}

/// The engine once the fold has answered.
pub open spec fn settled<F: Fold>(
    state: EngineState<F>,
    entries: Seq<Entry<F::Event>>,
    calls: Seq<Call<F>>,
) -> EngineState<F> {
    EngineState {
        fold: fold_before(state.fold, calls, calls.len() as int),
        skips: counted(state.skips, skipped_count(calls)),
        status: status_after::<F>(state.status, entries, calls),
        ..advanced_over(state, entries.take(consumed_count(calls)))
    }
}

/// The error a stopped fold leaves the caller with.
pub open spec fn stop_error<F: Fold>(
    entries: Seq<Entry<F::Event>>,
    calls: Seq<Call<F>>,
) -> ApplyError<F::Error> {
    let at = entries[calls.len() - 1].pos;
    match calls.last().outcome {
        Err(FoldError::Halt(error)) => ApplyError::Halted { at, error },
        Err(FoldError::Poison(error)) => ApplyError::Poisoned { at, error },
        Err(FoldError::Skip(error)) => ApplyError::Poisoned { at, error },
        Ok(()) => ApplyError::MissingBoundary,
    }
}

/// The report on two headers of one block.
pub open spec fn fork_error<E>(number: u64, hash: [u8; 32], refetched: BlockRef) -> ApplyError<E> {
    ApplyError::ForkSuspected { observed: BlockRef { number, hash }, refetched }
}

/// Why the boundary header cannot be trusted, if it cannot.
pub open spec fn boundary_error<F: Fold>(
    state: EngineState<F>,
    boundary: Option<BlockRef>,
) -> Option<ApplyError<F::Error>> {
    match state.cursor {
        None => None,
        Some(cursor) => match boundary {
            None => Some(ApplyError::MissingBoundary),
            Some(boundary) => if boundary.number != cursor.block {
                Some(
                    ApplyError::BoundaryNumberMismatch {
                        expected: cursor.block,
                        got: boundary.number,
                    },
                )
            } else {
                match ring::hash_in(state.window, cursor.block) {
                    None => Some(ApplyError::CursorBlockUnobserved { block: cursor.block }),
                    Some(hash) => if hash != boundary.hash {
                        Some(fork_error(cursor.block, hash, boundary))
                    } else {
                        None
                    },
                }
            },
        },
    }
}

/// Why the batch is refused before it is looked at span by span, if it is.
pub open spec fn refusal<F: Fold>(
    state: EngineState<F>,
    boundary: Option<BlockRef>,
    spans: Seq<Span<F::Event>>,
) -> Option<ApplyError<F::Error>> {
    if !(state.status is Active) {
        Some(ApplyError::NotActive { status: state.status })
    } else {
        match batch::shape_error(spans) {
            Some(error) => Some(ApplyError::Shape(error)),
            None => boundary_error(state, boundary),
        }
    }
}

/// True when a span redelivers a block under another hash than the observed one.
pub open spec fn forks<F: Fold>(state: EngineState<F>, block: BlockRef) -> bool {
    &&& state.cursor matches Some(cursor)
    &&& block.number <= cursor.block
    &&& ring::hash_in(state.window, block.number) matches Some(hash)
    &&& hash != block.hash
}

/// The first fork among the spans from `at` on.
pub open spec fn first_fork<F: Fold>(
    state: EngineState<F>,
    spans: Seq<Span<F::Event>>,
    at: int,
) -> Option<ApplyError<F::Error>>
    decreases spans.len() - at,
{
    if at >= spans.len() {
        None
    } else if forks(state, spans[at].block) {
        Some(
            fork_error(
                spans[at].block.number,
                ring::hash_in(state.window, spans[at].block.number)->0,
                spans[at].block,
            ),
        )
    } else {
        first_fork(state, spans, at + 1)
    }
}

/// The engine once the boundary is confirmed.
pub open spec fn confirmed<F: Fold>(
    state: EngineState<F>,
    boundary: Option<BlockRef>,
) -> EngineState<F> {
    if state.cursor is Some {
        EngineState { last_verified: boundary, ..state }
    } else {
        state
    }
}

/// What one batch does to an engine, given the fold's answers.
pub open spec fn batch_applied<F: Fold>(
    before: EngineState<F>,
    boundary: Option<BlockRef>,
    spans: Seq<Span<F::Event>>,
    calls: Seq<Call<F>>,
    after: EngineState<F>,
    result: Result<ApplySummary, ApplyError<F::Error>>,
) -> bool {
    match refusal(before, boundary, spans) {
        Some(error) => result == Err::<ApplySummary, _>(error) && after == before && calls.len()
            == 0,
        None => match first_fork(before, spans, 0) {
            Some(error) => result == Err::<ApplySummary, _>(error) && after == confirmed(
                before,
                boundary,
            ) && calls.len() == 0,
            None => {
                let all = all_entries(spans);
                let todo = fresh(all, before.cursor);
                &&& calls_follow(before.fold, todo, calls)
                &&& after == settled(confirmed(before, boundary), todo, calls)
                &&& if stopped(calls) {
                    result == Err::<ApplySummary, _>(stop_error(todo, calls))
                } else {
                    result == Ok::<_, ApplyError<F::Error>>(
                        ApplySummary {
                            applied: applied_count(calls) as u64,
                            deduped: (all.len() - todo.len()) as u64,
                            skipped: skipped_count(calls) as u64,
                        },
                    )
                }
            },
        },
    }
}

/// What one span does to an engine, given the fold's answers.
pub open spec fn span_applied<F: Fold>(
    before: EngineState<F>,
    span: Span<F::Event>,
    calls: Seq<Call<F>>,
    after: EngineState<F>,
    counts: ApplySummary,
    counts_after: ApplySummary,
    result: Result<(), ApplyError<F::Error>>,
) -> bool {
    let all = entries_of(span);
    let todo = fresh(all, before.cursor);
    &&& calls_follow(before.fold, todo, calls)
    &&& after == settled(before, todo, calls)
    &&& counts_after.applied == counts.applied + applied_count(calls)
    &&& counts_after.deduped == counts.deduped + (all.len() - todo.len())
    &&& counts_after.skipped == counts.skipped + skipped_count(calls)
    &&& match result {
        Ok(()) => !stopped(calls),
        Err(error) => stopped(calls) && error == stop_error(todo, calls),
    }
}

/// True when the cursor block is the newest observed block, and nothing is observed without
/// a cursor.
pub open spec fn anchored<F>(state: EngineState<F>) -> bool {
    match state.cursor {
        Some(cursor) => state.window.len() > 0 && state.window.last().number == cursor.block,
        None => state.window.len() == 0,
    }
}

/// True when positions ascend.
pub open spec fn in_order<E>(entries: Seq<Entry<E>>) -> bool {
    forall|i: int, j: int|
        0 <= i < j < entries.len() ==> (#[trigger] entries[i]).pos.before(
            (#[trigger] entries[j]).pos,
        )
}

/// Filtering keeps all of what passes throughout.
pub proof fn lemma_filter_all<A>(values: Seq<A>, keep: spec_fn(A) -> bool)
    requires
        forall|i: int| 0 <= i < values.len() ==> keep(#[trigger] values[i]),
    ensures
        values.filter(keep) == values,
    decreases values.len(),
{
    reveal(Seq::filter);
    if values.len() > 0 {
        lemma_filter_all(values.drop_last(), keep);
        assert(values.drop_last().push(values.last()) =~= values);
    }
}

/// Filtering keeps nothing of what fails throughout.
pub proof fn lemma_filter_none<A>(values: Seq<A>, keep: spec_fn(A) -> bool)
    requires
        forall|i: int| 0 <= i < values.len() ==> !keep(#[trigger] values[i]),
    ensures
        values.filter(keep) == Seq::<A>::empty(),
    decreases values.len(),
{
    reveal(Seq::filter);
    if values.len() > 0 {
        lemma_filter_none(values.drop_last(), keep);
    }
}

/// Filtering goes through concatenation.
pub proof fn lemma_filter_concat<A>(left: Seq<A>, right: Seq<A>, keep: spec_fn(A) -> bool)
    ensures
        (left + right).filter(keep) == left.filter(keep) + right.filter(keep),
    decreases right.len(),
{
    reveal(Seq::filter);
    if right.len() == 0 {
        assert(left + right =~= left);
        assert(left.filter(keep) + right.filter(keep) =~= left.filter(keep));
    } else {
        assert((left + right).drop_last() =~= left + right.drop_last());
        lemma_filter_concat(left, right.drop_last(), keep);
        if keep(right.last()) {
            assert(left.filter(keep) + right.filter(keep) =~= (left.filter(keep)
                + right.drop_last().filter(keep)).push(right.last()));
        } else {
            assert(left.filter(keep) + right.filter(keep) =~= left.filter(keep)
                + right.drop_last().filter(keep));
        }
    }
}

/// When the positions of a span ascend and the first `cut` lie at or before the cursor and
/// the rest after it, the rest is what is fresh.
pub proof fn lemma_fresh_suffix<E>(
    entries: Seq<Entry<E>>,
    cursor: Option<Position>,
    cut: int,
)
    requires
        0 <= cut <= entries.len(),
        forall|i: int| 0 <= i < cut ==> !is_fresh(#[trigger] entries[i], cursor),
        forall|i: int| cut <= i < entries.len() ==> is_fresh(#[trigger] entries[i], cursor),
    ensures
        fresh(entries, cursor) == entries.skip(cut),
{
    let keep = |entry: Entry<E>| is_fresh(entry, cursor);
    let left = entries.take(cut);
    let right = entries.skip(cut);
    assert(entries =~= left + right);
    lemma_filter_concat(left, right, keep);
    lemma_filter_none(left, keep);
    assert forall|i: int| 0 <= i < right.len() implies keep(#[trigger] right[i]) by {
        assert(right[i] == entries[cut + i]);
    }
    lemma_filter_all(right, keep);
    assert(Seq::<Entry<E>>::empty() + right =~= right);
}

/// Moving over events of one block observes that block once.
pub proof fn lemma_advanced_over_block<F: Fold>(
    state: EngineState<F>,
    entries: Seq<Entry<F::Event>>,
)
    requires
        0 < entries.len(),
        0 < state.capacity,
        forall|i: int|
            0 <= i < entries.len() ==> (#[trigger] entries[i]).block == entries[0].block,
    ensures
        advanced_over(state, entries) == advanced(
            state,
            entries.last().block,
            entries.last().pos,
        ),
    decreases entries.len(),
{
    let rest = entries.drop_last();
    if rest.len() == 0 {
        assert(advanced_over(state, rest) == state);
    } else {
        assert forall|i: int| 0 <= i < rest.len() implies (#[trigger] rest[i]).block
            == rest[0].block by {
            assert(rest[i] == entries[i]);
        }
        lemma_advanced_over_block(state, rest);
        assert(rest.last() == entries[rest.len() - 1]);
        let mid = advanced_over(state, rest);
        let block = entries.last().block;
        assert(entries.last() == entries[entries.len() - 1]);
        if state.window.len() == 0 || state.window.last().number < block.number {
            assert(mid.window.last() == block);
        }
    }
}

/// Moving over one run of events and then another is moving over both.
pub proof fn lemma_advanced_over_concat<F: Fold>(
    state: EngineState<F>,
    left: Seq<Entry<F::Event>>,
    right: Seq<Entry<F::Event>>,
)
    ensures
        advanced_over(advanced_over(state, left), right) == advanced_over(state, left + right),
    decreases right.len(),
{
    if right.len() == 0 {
        assert(left + right =~= left);
    } else {
        assert((left + right).drop_last() =~= left + right.drop_last());
        lemma_advanced_over_concat(state, left, right.drop_last());
    }
}

/// Moving over events reads and writes only cursor, window and freshness.
pub proof fn lemma_advanced_over_frame<F: Fold>(
    state: EngineState<F>,
    other: EngineState<F>,
    entries: Seq<Entry<F::Event>>,
)
    requires
        state.cursor == other.cursor,
        state.window == other.window,
        state.capacity == other.capacity,
        state.last_verified == other.last_verified,
    ensures
        ({
            let a = advanced_over(state, entries);
            let b = advanced_over(other, entries);
            &&& a == (EngineState {
                cursor: b.cursor,
                window: b.window,
                last_verified: b.last_verified,
                ..state
            })
            &&& a.cursor == b.cursor
            &&& a.window == b.window
            &&& a.capacity == b.capacity
            &&& a.last_verified == b.last_verified
        }),
    decreases entries.len(),
{
    if entries.len() > 0 {
        lemma_advanced_over_frame(state, other, entries.drop_last());
    }
}

/// Where the cursor stands after moving over events.
pub proof fn lemma_advanced_over_cursor<F: Fold>(
    state: EngineState<F>,
    entries: Seq<Entry<F::Event>>,
)
    ensures
        advanced_over(state, entries).cursor == (if entries.len() == 0 {
            state.cursor
        } else {
            Some(entries.last().pos)
        }),
        advanced_over(state, entries).capacity == state.capacity,
        advanced_over(state, entries).slots == state.slots,
        advanced_over(state, entries).status == state.status,
        advanced_over(state, entries).fold == state.fold,
        advanced_over(state, entries).skips == state.skips,
    decreases entries.len(),
{
    if entries.len() > 0 {
        lemma_advanced_over_cursor(state, entries.drop_last());
    }
}

/// Counts add up over concatenation.
pub proof fn lemma_counts_concat<F: Fold>(left: Seq<Call<F>>, right: Seq<Call<F>>)
    ensures
        applied_count(left + right) == applied_count(left) + applied_count(right),
        skipped_count(left + right) == skipped_count(left) + skipped_count(right),
        applied_count(left) + skipped_count(left) <= left.len(),
    decreases right.len(), left.len(),
{
    if right.len() == 0 {
        assert(left + right =~= left);
        if left.len() > 0 {
            lemma_counts_concat(left.drop_last(), right);
        }
    } else {
        assert((left + right).drop_last() =~= left + right.drop_last());
        lemma_counts_concat(left, right.drop_last());
    }
}

/// The calls of two runs in a row are the calls of one run, when the first ran through.
pub proof fn lemma_calls_concat<F: Fold>(
    start: F,
    done: Seq<Entry<F::Event>>,
    done_calls: Seq<Call<F>>,
    more: Seq<Entry<F::Event>>,
    more_calls: Seq<Call<F>>,
)
    requires
        done_calls.len() == done.len(),
        !stopped(done_calls),
        calls_follow(start, done, done_calls),
        calls_follow(fold_before(start, done_calls, done_calls.len() as int), more, more_calls),
    ensures
        calls_follow(start, done + more, done_calls + more_calls),
        stopped(done_calls + more_calls) == stopped(more_calls),
        consumed_count(done_calls + more_calls) == done.len() + consumed_count(more_calls),
{
    let mid = fold_before(start, done_calls, done_calls.len() as int);
    let calls = done_calls + more_calls;
    let entries = done + more;
    assert forall|i: int| 0 <= i < calls.len() implies F::folds(
        fold_before(start, calls, i),
        entries[i].pos,
        entries[i].event,
        (#[trigger] calls[i]).after,
        calls[i].outcome,
    ) by {
        if i < done.len() {
            assert(calls[i] == done_calls[i]);
            assert(entries[i] == done[i]);
            assert(fold_before(start, calls, i) == fold_before(start, done_calls, i));
        } else {
            let k = i - done.len();
            assert(calls[i] == more_calls[k]);
            assert(entries[i] == more[k]);
            assert(fold_before(start, calls, i) == fold_before(mid, more_calls, k));
        }
    }
    assert forall|i: int| 0 <= i < calls.len() - 1 implies !stops(
        (#[trigger] calls[i]).outcome,
    ) by {
        if i < done.len() {
            assert(calls[i] == done_calls[i]);
            if i == done.len() - 1 {
                assert(done_calls[i] == done_calls.last());
            }
        } else {
            assert(calls[i] == more_calls[i - done.len()]);
        }
    }
    if more_calls.len() > 0 {
        assert(calls.last() == more_calls.last());
    } else {
        assert(calls =~= done_calls);
    }
}

/// Settling two runs one after the other is settling both, when the first ran through.
pub proof fn lemma_settled_concat<F: Fold>(
    state: EngineState<F>,
    done: Seq<Entry<F::Event>>,
    done_calls: Seq<Call<F>>,
    more: Seq<Entry<F::Event>>,
    more_calls: Seq<Call<F>>,
)
    requires
        done_calls.len() == done.len(),
        !stopped(done_calls),
        more_calls.len() <= more.len(),
        consumed_count(done_calls + more_calls) == done.len() + consumed_count(more_calls),
        stopped(done_calls + more_calls) == stopped(more_calls),
    ensures
        settled(settled(state, done, done_calls), more, more_calls) == settled(
            state,
            done + more,
            done_calls + more_calls,
        ),
        stopped(more_calls) ==> stop_error(done + more, done_calls + more_calls) == stop_error(
            more,
            more_calls,
        ),
{
    let mid = settled(state, done, done_calls);
    let calls = done_calls + more_calls;
    let entries = done + more;
    let k = consumed_count(more_calls);
    let one = settled(state, entries, calls);
    let two = settled(mid, more, more_calls);
    assert(done.take(consumed_count(done_calls)) =~= done);
    assert(entries.take(consumed_count(calls)) =~= done + more.take(k));
    if more_calls.len() > 0 {
        assert(calls.last() == more_calls.last());
        assert(entries[calls.len() - 1] == more[more_calls.len() - 1]);
    } else {
        assert(calls =~= done_calls);
    }
    lemma_counts_concat(done_calls, more_calls);
    lemma_counted(state.skips, skipped_count(done_calls), skipped_count(more_calls));
    lemma_advanced_over_concat(state, done, more.take(k));
    lemma_advanced_over_frame(mid, advanced_over(state, done), more.take(k));
    lemma_advanced_over_cursor(state, done);
    lemma_advanced_over_cursor(state, done + more.take(k));
    lemma_advanced_over_cursor(mid, more.take(k));
    assert(one.fold == two.fold);
    assert(one.cursor == two.cursor);
    assert(one.window == two.window);
    assert(one.status == two.status);
    assert(one.skips == two.skips);
}

/// Counting on from a count.
pub proof fn lemma_counted(counter: u64, some: nat, more: nat)
    ensures
        counted(counted(counter, some), more) == counted(counter, some + more),
{
    let m = 0x1_0000_0000_0000_0000int;
    let first = (counter + some) as int;
    vstd::arithmetic::div_mod::lemma_add_mod_noop(first, more as int, m);
    vstd::arithmetic::div_mod::lemma_mod_twice(first, m);
    vstd::arithmetic::div_mod::lemma_add_mod_noop(first % m, more as int, m);
}

/// One more answer that lets the batch go on.
pub proof fn lemma_counts_push<F: Fold>(calls: Seq<Call<F>>, call: Call<F>)
    ensures
        applied_count(calls.push(call)) == applied_count(calls) + if call.outcome is Ok {
            1nat
        } else {
            0nat
        },
        skipped_count(calls.push(call)) == skipped_count(calls) + if call.outcome matches Err(
            error,
        ) && error is Skip {
            1nat
        } else {
            0nat
        },
        applied_count(calls) + skipped_count(calls) <= calls.len(),
{
    assert(calls.push(call).drop_last() =~= calls);
    lemma_counts_concat(calls, Seq::empty());
}

/// One more call extends a run that has not stopped.
pub proof fn lemma_call_pushed<F: Fold>(
    start: F,
    todo: Seq<Entry<F::Event>>,
    prior: Seq<Call<F>>,
    call: Call<F>,
)
    requires
        prior.len() < todo.len(),
        calls_follow(start, todo.take(prior.len() as int), prior),
        !stopped(prior),
        F::folds(
            fold_before(start, prior, prior.len() as int),
            todo[prior.len() as int].pos,
            todo[prior.len() as int].event,
            call.after,
            call.outcome,
        ),
    ensures
        calls_follow(start, todo.take(prior.len() as int + 1), prior.push(call)),
        stopped(prior.push(call)) == stops(call.outcome),
        stops(call.outcome) ==> calls_follow(start, todo, prior.push(call)),
        fold_before(start, prior.push(call), prior.len() as int + 1) == call.after,
{
    let calls = prior.push(call);
    let shorter = todo.take(prior.len() as int);
    let longer = todo.take(prior.len() as int + 1);
    assert forall|i: int| 0 <= i < calls.len() implies F::folds(
        fold_before(start, calls, i),
        todo[i].pos,
        todo[i].event,
        (#[trigger] calls[i]).after,
        calls[i].outcome,
    ) by {
        assert(fold_before(start, calls, i) == fold_before(start, prior, i));
        if i < prior.len() {
            assert(calls[i] == prior[i]);
            assert(shorter[i] == todo[i]);
        }
    }
    assert forall|i: int| 0 <= i < calls.len() - 1 implies !stops(
        (#[trigger] calls[i]).outcome,
    ) by {
        assert(calls[i] == prior[i]);
        if i == prior.len() - 1 {
            assert(prior[i] == prior.last());
        }
    }
    assert forall|i: int| 0 <= i < calls.len() implies F::folds(
        fold_before(start, calls, i),
        longer[i].pos,
        longer[i].event,
        (#[trigger] calls[i]).after,
        calls[i].outcome,
    ) by {
        assert(longer[i] == todo[i]);
    }
}

/// Settling is moving over what was consumed, with the fold's last state and count.
pub proof fn lemma_settled_from<F: Fold>(
    before: EngineState<F>,
    here: EngineState<F>,
    todo: Seq<Entry<F::Event>>,
    calls: Seq<Call<F>>,
)
    requires
        here == (EngineState {
            fold: fold_before(before.fold, calls, calls.len() as int),
            skips: counted(before.skips, skipped_count(calls)),
            ..before
        }),
    ensures
        settled(before, todo, calls) == (EngineState {
            status: status_after::<F>(before.status, todo, calls),
            ..advanced_over(here, todo.take(consumed_count(calls)))
        }),
{
    let run = todo.take(consumed_count(calls));
    lemma_advanced_over_frame(here, before, run);
    lemma_advanced_over_cursor(here, run);
    lemma_advanced_over_cursor(before, run);
}

/// No fork lies among spans above the cursor block.
pub proof fn lemma_no_fork_above<F: Fold>(
    state: EngineState<F>,
    spans: Seq<Span<F::Event>>,
    at: int,
)
    requires
        0 <= at,
        forall|i: int|
            at <= i < spans.len() ==> !forks(state, (#[trigger] spans[i]).block),
    ensures
        first_fork(state, spans, at) is None,
    decreases spans.len() - at,
{
    if at < spans.len() {
        assert(!forks(state, spans[at].block));
        lemma_no_fork_above(state, spans, at + 1);
    }
}

/// How far a batch has come after its first `at` spans.
pub open spec fn progressed<F: Fold>(
    before: EngineState<F>,
    start: EngineState<F>,
    spans: Seq<Span<F::Event>>,
    at: int,
    calls: Seq<Call<F>>,
    here: EngineState<F>,
    counts: ApplySummary,
) -> bool {
    let all = all_entries(spans.take(at));
    let done = fresh(all, before.cursor);
    &&& calls.len() == done.len()
    &&& !stopped(calls)
    &&& calls_follow(before.fold, done, calls)
    &&& here == settled(start, done, calls)
    &&& counts.applied == applied_count(calls)
    &&& counts.deduped == all.len() - done.len()
    &&& counts.skipped == skipped_count(calls)
}

/// What filtering keeps comes from the values and passes.
pub proof fn lemma_filter_kept<A>(values: Seq<A>, keep: spec_fn(A) -> bool)
    ensures
        values.filter(keep).len() <= values.len(),
        forall|i: int|
            0 <= i < values.filter(keep).len() ==> keep(#[trigger] values.filter(keep)[i])
                && values.contains(values.filter(keep)[i]),
    decreases values.len(),
{
    reveal(Seq::filter);
    if values.len() > 0 {
        let rest = values.drop_last();
        lemma_filter_kept(rest, keep);
        let kept = values.filter(keep);
        assert forall|i: int| 0 <= i < kept.len() implies keep(#[trigger] kept[i])
            && values.contains(kept[i]) by {
            if i < rest.filter(keep).len() {
                assert(kept[i] == rest.filter(keep)[i]);
                let j = choose|j: int| 0 <= j < rest.len() && rest[j] == kept[i];
                assert(values[j] == kept[i]);
            } else {
                assert(kept[i] == values[values.len() - 1]);
            }
        }
    }
}

/// A batch starts with nothing done.
pub proof fn lemma_progress_start<F: Fold>(
    before: EngineState<F>,
    start: EngineState<F>,
    spans: Seq<Span<F::Event>>,
)
    ensures
        progressed(
            before,
            start,
            spans,
            0,
            Seq::empty(),
            start,
            ApplySummary { applied: 0, deduped: 0, skipped: 0 },
        ),
{
    let none: Seq<Call<F>> = Seq::empty();
    let nothing: Seq<Entry<F::Event>> = Seq::empty();
    assert(all_entries(spans.take(0)) =~= nothing);
    let keep = |entry: Entry<F::Event>| is_fresh(entry, before.cursor);
    lemma_filter_none(nothing, keep);
    assert(fresh(nothing, before.cursor) == nothing);
    assert(nothing.take(0) =~= nothing);
    vstd::arithmetic::div_mod::lemma_small_mod(start.skips as nat, 0x1_0000_0000_0000_0000);
    assert(settled(start, nothing, none) == start);
}

/// Every event of the first `at` spans lies in a block below `bound`.
pub proof fn lemma_entries_below<E>(spans: Seq<Span<E>>, at: int, bound: u64)
    requires
        0 <= at <= spans.len(),
        forall|i: int| 0 <= i < at ==> (#[trigger] spans[i]).block.number < bound,
    ensures
        forall|k: int|
            0 <= k < all_entries(spans.take(at)).len() ==> (#[trigger] all_entries(
                spans.take(at),
            )[k]).pos.block < bound,
    decreases at,
{
    if at > 0 {
        lemma_entries_below(spans, at - 1, bound);
        assert(spans.take(at).drop_last() =~= spans.take(at - 1));
        assert(spans.take(at).last() == spans[at - 1]);
        let led = all_entries(spans.take(at - 1));
        let all = all_entries(spans.take(at));
        assert(all == led + entries_of(spans[at - 1]));
        assert forall|k: int| 0 <= k < all.len() implies (#[trigger] all[k]).pos.block < bound by {
            if k < led.len() {
                assert(all[k] == led[k]);
            } else {
                assert(all[k] == entries_of(spans[at - 1])[k - led.len()]);
            }
        }
    }
}

/// The events of one more span.
pub proof fn lemma_one_more_span<E>(spans: Seq<Span<E>>, at: int, cursor: Option<Position>)
    requires
        0 <= at < spans.len(),
    ensures
        all_entries(spans.take(at + 1)) == all_entries(spans.take(at)) + entries_of(spans[at]),
        fresh(all_entries(spans.take(at + 1)), cursor) == fresh(
            all_entries(spans.take(at)),
            cursor,
        ) + fresh(entries_of(spans[at]), cursor),
{
    assert(spans.take(at + 1).drop_last() =~= spans.take(at));
    assert(spans.take(at + 1).last() == spans[at]);
    lemma_filter_concat(
        all_entries(spans.take(at)),
        entries_of(spans[at]),
        |entry: Entry<E>| is_fresh(entry, cursor),
    );
}

/// The events of the first spans lead those of all spans.
pub proof fn lemma_spans_prefix<E>(spans: Seq<Span<E>>, at: int, cursor: Option<Position>)
    requires
        0 <= at <= spans.len(),
    ensures
        exists|rest: Seq<Entry<E>>|
            fresh(all_entries(spans), cursor) == #[trigger] (fresh(
                all_entries(spans.take(at)),
                cursor,
            ) + rest),
    decreases spans.len() - at,
{
    let led = fresh(all_entries(spans.take(at)), cursor);
    if at == spans.len() {
        assert(spans.take(at) =~= spans);
        let none: Seq<Entry<E>> = Seq::empty();
        assert(led + none =~= led);
    } else {
        lemma_spans_prefix(spans, at + 1, cursor);
        lemma_one_more_span(spans, at, cursor);
        let next = fresh(all_entries(spans.take(at + 1)), cursor);
        let rest = choose|rest: Seq<Entry<E>>|
            fresh(all_entries(spans), cursor) == #[trigger] (next + rest);
        let more = fresh(entries_of(spans[at]), cursor);
        assert(next + rest =~= led + (more + rest));
    }
}

/// Where the cursor stands between spans: where it was, or in an earlier span.
pub proof fn lemma_progress_cursor<F: Fold>(
    before: EngineState<F>,
    start: EngineState<F>,
    spans: Seq<Span<F::Event>>,
    at: int,
    calls: Seq<Call<F>>,
    here: EngineState<F>,
    counts: ApplySummary,
)
    requires
        0 <= at < spans.len(),
        crate::batch::well_shaped(spans),
        start.cursor == before.cursor,
        start.window == before.window,
        progressed(before, start, spans, at, calls, here, counts),
    ensures
        calls.len() == 0 ==> here == start,
        calls.len() > 0 ==> {
            &&& here.cursor matches Some(cursor)
            &&& cursor.block < spans[at].block.number
            &&& before.cursor matches Some(origin) ==> origin.block < spans[at].block.number
        },
        fresh(entries_of(spans[at]), here.cursor) == fresh(
            entries_of(spans[at]),
            before.cursor,
        ),
        forks(here, spans[at].block) == forks(before, spans[at].block),
        forks(before, spans[at].block) ==> calls.len() == 0,
{
    let number = spans[at].block.number;
    let numbers = crate::batch::block_numbers(spans);
    assert forall|i: int| 0 <= i < at implies (#[trigger] spans[i]).block.number < number by {
        assert(numbers[i] < numbers[at]);
    }
    let all = all_entries(spans.take(at));
    let done = fresh(all, before.cursor);
    let keep = |entry: Entry<F::Event>| is_fresh(entry, before.cursor);
    lemma_entries_below(spans, at, number);
    lemma_filter_kept(all, keep);
    assert(done.take(consumed_count(calls)) =~= done);
    lemma_advanced_over_cursor(start, done);
    let entries = entries_of(spans[at]);
    if calls.len() > 0 {
        let last = done[done.len() - 1];
        assert(keep(last));
        let j = choose|j: int| 0 <= j < all.len() && all[j] == last;
        assert(all[j].pos.block < number);
        let keep_here = |entry: Entry<F::Event>| is_fresh(entry, here.cursor);
        lemma_filter_all(entries, keep);
        lemma_filter_all(entries, keep_here);
    } else {
        vstd::arithmetic::div_mod::lemma_small_mod(start.skips as nat, 0x1_0000_0000_0000_0000);
        assert(here == start);
    }
}

/// A run that stopped is the same run among more events.
pub proof fn lemma_stopped_early<F: Fold>(
    start: F,
    state: EngineState<F>,
    some: Seq<Entry<F::Event>>,
    rest: Seq<Entry<F::Event>>,
    calls: Seq<Call<F>>,
)
    requires
        calls_follow(start, some, calls),
        stopped(calls),
    ensures
        calls_follow(start, some + rest, calls),
        settled(state, some + rest, calls) == settled(state, some, calls),
        stop_error(some + rest, calls) == stop_error(some, calls),
{
    let all = some + rest;
    assert(all.take(consumed_count(calls)) =~= some.take(consumed_count(calls)));
    assert forall|i: int| 0 <= i < calls.len() implies F::folds(
        fold_before(start, calls, i),
        all[i].pos,
        all[i].event,
        (#[trigger] calls[i]).after,
        calls[i].outcome,
    ) by {
        assert(all[i] == some[i]);
    }
    assert(all[calls.len() - 1] == some[calls.len() - 1]);
}

/// A batch whose span forks is refused with nothing applied.
pub proof fn lemma_progress_fork<F: Fold>(
    before: EngineState<F>,
    boundary: Option<BlockRef>,
    spans: Seq<Span<F::Event>>,
    at: int,
    calls: Seq<Call<F>>,
    here: EngineState<F>,
    counts: ApplySummary,
)
    requires
        0 <= at < spans.len(),
        crate::batch::well_shaped(spans),
        refusal(before, boundary, spans) is None,
        progressed(before, confirmed(before, boundary), spans, at, calls, here, counts),
        first_fork(before, spans, 0) == first_fork(before, spans, at),
        forks(here, spans[at].block),
    ensures
        batch_applied(
            before,
            boundary,
            spans,
            calls,
            here,
            Err(
                fork_error(
                    spans[at].block.number,
                    ring::hash_in(here.window, spans[at].block.number)->0,
                    spans[at].block,
                ),
            ),
        ),
{
    lemma_progress_cursor(
        before,
        confirmed(before, boundary),
        spans,
        at,
        calls,
        here,
        counts,
    );
}

/// A batch goes on past a span that ran through.
pub proof fn lemma_progress_step<F: Fold>(
    before: EngineState<F>,
    start: EngineState<F>,
    spans: Seq<Span<F::Event>>,
    at: int,
    calls: Seq<Call<F>>,
    here: EngineState<F>,
    counts: ApplySummary,
    span_calls: Seq<Call<F>>,
    there: EngineState<F>,
    counts_after: ApplySummary,
)
    requires
        0 <= at < spans.len(),
        crate::batch::well_shaped(spans),
        start.cursor == before.cursor,
        start.window == before.window,
        start.fold == before.fold,
        progressed(before, start, spans, at, calls, here, counts),
        !forks(here, spans[at].block),
        span_applied(here, spans[at], span_calls, there, counts, counts_after, Ok(())),
    ensures
        progressed(before, start, spans, at + 1, calls + span_calls, there, counts_after),
        first_fork(before, spans, at) == first_fork(before, spans, at + 1),
{
    lemma_progress_cursor(before, start, spans, at, calls, here, counts);
    lemma_one_more_span(spans, at, before.cursor);
    let done = fresh(all_entries(spans.take(at)), before.cursor);
    let todo = fresh(entries_of(spans[at]), before.cursor);
    lemma_calls_concat(before.fold, done, calls, todo, span_calls);
    lemma_settled_concat(start, done, calls, todo, span_calls);
    lemma_counts_concat(calls, span_calls);
}

/// A batch ends with a span that stopped.
pub proof fn lemma_progress_stop<F: Fold>(
    before: EngineState<F>,
    boundary: Option<BlockRef>,
    spans: Seq<Span<F::Event>>,
    at: int,
    calls: Seq<Call<F>>,
    here: EngineState<F>,
    counts: ApplySummary,
    span_calls: Seq<Call<F>>,
    there: EngineState<F>,
    counts_after: ApplySummary,
    error: ApplyError<F::Error>,
)
    requires
        0 <= at < spans.len(),
        crate::batch::well_shaped(spans),
        refusal(before, boundary, spans) is None,
        progressed(before, confirmed(before, boundary), spans, at, calls, here, counts),
        first_fork(before, spans, 0) == first_fork(before, spans, at),
        !forks(here, spans[at].block),
        span_applied(here, spans[at], span_calls, there, counts, counts_after, Err(error)),
    ensures
        batch_applied(before, boundary, spans, calls + span_calls, there, Err(error)),
{
    let start = confirmed(before, boundary);
    lemma_progress_cursor(before, start, spans, at, calls, here, counts);
    let done = fresh(all_entries(spans.take(at)), before.cursor);
    let entries = entries_of(spans[at]);
    let todo = fresh(entries, before.cursor);
    let total = calls + span_calls;
    lemma_calls_concat(before.fold, done, calls, todo, span_calls);
    lemma_settled_concat(start, done, calls, todo, span_calls);
    lemma_one_more_span(spans, at, before.cursor);
    lemma_spans_prefix(spans, at + 1, before.cursor);
    let some = fresh(all_entries(spans.take(at + 1)), before.cursor);
    let rest = choose|rest: Seq<Entry<F::Event>>|
        fresh(all_entries(spans), before.cursor) == #[trigger] (some + rest);
    lemma_stopped_early(before.fold, start, some, rest, total);
    let numbers = crate::batch::block_numbers(spans);
    let keep = |entry: Entry<F::Event>| is_fresh(entry, before.cursor);
    lemma_filter_kept(entries, keep);
    assert(keep(todo[0]));
    let j = choose|j: int| 0 <= j < entries.len() && entries[j] == todo[0];
    assert(entries[j].pos.block == spans[at].block.number);
    assert forall|i: int| at <= i < spans.len() implies !forks(
        before,
        (#[trigger] spans[i]).block,
    ) by {
        if at < i {
            assert(numbers[at] < numbers[i]);
        }
    }
    lemma_no_fork_above(before, spans, at);
}

/// A batch ends when every span ran through.
pub proof fn lemma_progress_end<F: Fold>(
    before: EngineState<F>,
    boundary: Option<BlockRef>,
    spans: Seq<Span<F::Event>>,
    calls: Seq<Call<F>>,
    here: EngineState<F>,
    counts: ApplySummary,
)
    requires
        refusal(before, boundary, spans) is None,
        first_fork(before, spans, 0) is None,
        progressed(
            before,
            confirmed(before, boundary),
            spans,
            spans.len() as int,
            calls,
            here,
            counts,
        ),
    ensures
        batch_applied(before, boundary, spans, calls, here, Ok(counts)),
{
    assert(spans.take(spans.len() as int) =~= spans);
}

/// A fork is reported as such.
proof fn lemma_first_fork_is_fork<F: Fold>(
    state: EngineState<F>,
    spans: Seq<Span<F::Event>>,
    at: int,
)
    ensures
        first_fork(state, spans, at) matches Some(error) ==> error is ForkSuspected,
    decreases spans.len() - at,
{
    if at < spans.len() {
        lemma_first_fork_is_fork(state, spans, at + 1);
    }
}

/// An active engine never refuses a batch for its status.
pub proof fn lemma_active_accepts<F: Fold>(
    before: EngineState<F>,
    boundary: Option<BlockRef>,
    spans: Seq<Span<F::Event>>,
    calls: Seq<Call<F>>,
    after: EngineState<F>,
    error: ApplyError<F::Error>,
)
    requires
        before.status is Active,
        batch_applied(before, boundary, spans, calls, after, Err(error)),
    ensures
        !(error is NotActive),
{
    lemma_first_fork_is_fork(before, spans, 0);
}

} // verus!
