//! What a driver promises of the chain its source is on.
use vstd::prelude::*;
use vstd::string::*;

use crate::batch;
use crate::batch::Span;
use crate::bytes;
use crate::chain_model;
use crate::chain_model::Chain;
use crate::checkpoint;
use crate::checkpoint::Slot;
use crate::checksum;
use crate::driver::{DriverConfig, Tick};
use crate::driver_model;
use crate::driver_model::DriverState;
use crate::engine;
use crate::engine::{ApplySummary, Engine, EngineConfig};
use crate::engine_laws;
use crate::engine_model;
use crate::engine_model::{Call, EngineState, Entry};
use crate::error::{ApplyError, RollbackError};
use crate::fold::Fold;
use crate::position::{BlockRef, Position};
use crate::retention_laws;
use crate::ring;
use crate::sink::SnapshotSink;
use crate::snapshot;
use crate::snapshot::{Persist, SnapshotError};
use crate::snapshot_laws;
use crate::snapshot_model;
use crate::source;
use crate::source::{Asked, ReplayHorizon, Source};

verus! {

/// True for a fold that was handed exactly these events, in order, and took or skipped each.
pub open spec fn folded<F: Fold>(genesis: F, entries: Seq<Entry<F::Event>>, fold: F) -> bool {
    exists|calls: Seq<Call<F>>| #[trigger]
        engine_model::calls_follow(genesis, entries, calls) && calls.len() == entries.len()
            && !engine_model::stopped(calls) && fold == engine_model::fold_before(
            genesis,
            calls,
            calls.len() as int,
        )
}

/// The place of the last event, if there is one.
pub open spec fn last_place<E>(entries: Seq<Entry<E>>) -> Option<Position> {
    if entries.len() == 0 {
        None
    } else {
        Some(entries.last().pos)
    }
}

/// The fold holds the events of the chain up to the cursor's block, whose last is the cursor.
pub open spec fn holds<F: Fold>(
    genesis: F,
    chain: Chain<F::Event>,
    start: u64,
    fold: F,
    cursor: Option<Position>,
) -> bool {
    match cursor {
        None => fold == genesis,
        Some(point) => {
            let entries = chain_model::entries_between(chain, start as int, point.block as int);
            last_place(entries) == cursor && folded(genesis, entries, fold)
        },
    }
}

/// An engine that follows one chain: the observed blocks lie on it, and the fold and every
/// checkpoint that can be restored hold its events up to their cursors.
pub open spec fn on_chain<F: Fold>(
    genesis: F,
    chain: Chain<F::Event>,
    start: u64,
    state: EngineState<F>,
) -> bool {
    &&& retention_laws::layered(state)
    &&& forall|i: int|
        0 <= i < state.window.len() ==> chain_model::header_at(
            chain,
            (#[trigger] state.window[i]).number,
        ) == Some(state.window[i])
    &&& holds(genesis, chain, start, state.fold, state.cursor)
    &&& forall|i: int|
        0 <= i < state.slots.len() && checkpoint::live_in(#[trigger] state.slots[i], state.window)
            ==> holds(genesis, chain, start, state.slots[i]->0.fold, state.slots[i]->0.cursor)
}

/// An engine that is active follows the chain of some source.
pub open spec fn follows_some<F: Fold, S: Source<Event = F::Event>>(
    genesis: F,
    chain_of: spec_fn(S) -> Chain<F::Event>,
    start: u64,
    state: EngineState<F>,
) -> bool {
    state.status is Active ==> exists|on: S|
        on_chain(genesis, #[trigger] chain_of(on), start, state)
}

/// What holds of a source: its answers tell of sound chains, whose hashes commit to ancestry.
pub open spec fn serves_chains<S: Source>(chain_of: spec_fn(S) -> Chain<S::Event>) -> bool {
    &&& chain_model::answers_from(chain_of)
    &&& forall|a: S| chain_model::sound(#[trigger] chain_of(a))
    &&& forall|a: S, b: S| chain_model::commits(#[trigger] chain_of(a), #[trigger] chain_of(b))
}

/// Events of a sound chain under one number share their header.
pub proof fn lemma_one_header<E>(chain: Chain<E>, low: int, high: int)
    requires
        chain_model::sound(chain),
    ensures
        ({
            let events = chain_model::between(chain.events, low, high);
            &&& forall|i: int, j: int|
                0 <= i <= j < events.len() && (#[trigger] events[i]).0.number == (
                #[trigger] events[j]).0.number ==> events[i].0 == events[j].0
            &&& forall|i: int|
                0 <= i < events.len() ==> chain_model::header_at(
                    chain,
                    (#[trigger] events[i]).0.number,
                ) == Some(events[i].0)
        }),
{
    let events = chain_model::between(chain.events, low, high);
    chain_model::lemma_between(chain.events, low, high);
    assert forall|i: int| 0 <= i < events.len() implies chain_model::header_at(
        chain,
        (#[trigger] events[i]).0.number,
    ) == Some(events[i].0) by {
        let k = choose|k: int| 0 <= k < chain.events.len() && chain.events[k] == events[i];
        assert(chain.events[k].0 == events[i].0);
    }
}

/// What a scan finds on the chain of its source.
pub proof fn lemma_scan_finds<F: Fold, S: Source<Event = F::Event>, K>(
    chain_of: spec_fn(S) -> Chain<F::Event>,
    config: DriverConfig,
    before: DriverState<F, S, K>,
    after: DriverState<F, S, K>,
    boundary: Option<BlockRef>,
    spans: Seq<Span<F::Event>>,
) -> (to: int)
    requires
        serves_chains(chain_of),
        driver_model::scan_done(config, before, after, Some((boundary, spans))),
    ensures
        ({
            let chain = chain_of(before.source);
            let from = driver_model::scan_start(
                before.engine.cursor,
                before.scanned_to,
                config.start_block,
            );
            let events = chain_model::between(chain.events, from as int, to);
            &&& from - 1 <= to
            &&& spans == driver_model::grouped(events)
            &&& spans.len() == 0 ==> events.len() == 0 && to >= chain.head
            &&& engine_model::all_entries(spans) == chain_model::entries(events)
            &&& boundary == (match before.engine.cursor {
                Some(cursor) => chain_model::header_at(chain, cursor.block),
                None => None,
            })
            &&& after.engine == before.engine
            &&& chain_of(after.source) == chain
        }),
{
    let chain = chain_of(before.source);
    let from = driver_model::scan_start(
        before.engine.cursor,
        before.scanned_to,
        config.start_block,
    );
    let found = Some((boundary, spans));
    let (log, window, entries) = choose|
        log: Seq<Asked<S>>,
        window: u64,
        entries: Seq<(BlockRef, u32, F::Event)>,
    |
        #![trigger source::asked(before.source, log, after.source),
            driver_model::reads_by(before.source, log, before.engine.cursor, window),
            driver_model::grouped(entries)]
        {
            &&& source::asked(before.source, log, after.source)
            &&& driver_model::reads_by(before.source, log, before.engine.cursor, window)
            &&& driver_model::scan_of(
                log,
                before.engine.cursor,
                before.scanned_to,
                config.start_block,
                driver_model::positive(window),
            ) matches Some(scanned)
            &&& after == (DriverState {
                source: after.source,
                scanned_to: scanned.scanned_to,
                ..before
            })
            &&& driver_model::arranged(scanned.entries, entries)
            &&& found == (if scanned.failed {
                None
            } else {
                Some((scanned.boundary, driver_model::grouped(entries)))
            })
        };
    let window = driver_model::positive(window);
    let scanned = driver_model::scan_of(
        log,
        before.engine.cursor,
        before.scanned_to,
        config.start_block,
        window,
    )->0;
    let at = driver_model::asked_first(before.engine.cursor) - 1;
    chain_model::lemma_stays_on_chain(
        chain_of,
        before.source,
        log,
        after.source,
        log.len() as int,
    );
    assert(!scanned.failed);
    assert(log.len() > 0);
    chain_model::lemma_stays_on_chain(chain_of, before.source, log, after.source, 0);
    assert(at < log.len());
    chain_model::lemma_stays_on_chain(chain_of, before.source, log, after.source, at);
    let to = chain_model::lemma_sweep_reaches(
        chain_of,
        before.source,
        log,
        after.source,
        at + 1,
        from,
        window,
        before.scanned_to,
    );
    let events = chain_model::between(chain.events, from as int, to);
    chain_model::lemma_sorted_answer(scanned.entries, events, entries);
    lemma_one_header(chain, from as int, to);
    chain_model::lemma_grouped_entries(events);
    to
}

/// Chains that share a header agree on what the fold holds up to it.
proof fn lemma_holds_on_both<F: Fold>(
    genesis: F,
    old: Chain<F::Event>,
    new: Chain<F::Event>,
    start: u64,
    fold: F,
    cursor: Option<Position>,
    number: u64,
)
    requires
        chain_model::commits(old, new),
        chain_model::header_at(old, number) is Some,
        chain_model::header_at(old, number) == chain_model::header_at(new, number),
        cursor matches Some(point) ==> point.block <= number,
        holds(genesis, old, start, fold, cursor),
    ensures
        holds(genesis, new, start, fold, cursor),
{
    if cursor is Some {
        let high = cursor->0.block as int;
        chain_model::lemma_range_of_range(old.events, start as int, high, number as int);
        chain_model::lemma_range_of_range(new.events, start as int, high, number as int);
    }
}

/// When the source confirms the newest observed block, the engine is on the source's chain.
pub proof fn lemma_on_confirmed_chain<F: Fold>(
    genesis: F,
    old: Chain<F::Event>,
    new: Chain<F::Event>,
    start: u64,
    state: EngineState<F>,
)
    requires
        on_chain(genesis, old, start, state),
        chain_model::commits(old, new),
        state.cursor matches Some(cursor) ==> chain_model::header_at(new, cursor.block) == Some(
            state.window.last(),
        ),
    ensures
        on_chain(genesis, new, start, state),
{
    match state.cursor {
        None => {
            assert forall|i: int|
                0 <= i < state.slots.len() && checkpoint::live_in(
                    #[trigger] state.slots[i],
                    state.window,
                ) implies holds(
                genesis,
                new,
                start,
                state.slots[i]->0.fold,
                state.slots[i]->0.cursor,
            ) by {
                assert(retention_laws::placed(state, state.slots[i]->0));
            }
        },
        Some(cursor) => {
            let newest = state.window.len() - 1;
            assert(chain_model::header_at(old, state.window[newest].number) == Some(
                state.window[newest],
            ));
            assert forall|i: int| 0 <= i < state.window.len() implies chain_model::header_at(
                new,
                (#[trigger] state.window[i]).number,
            ) == Some(state.window[i]) by {
                if i < newest {
                    assert(state.window[i].number < state.window[newest].number);
                }
                assert(chain_model::header_at(old, state.window[i].number) == Some(
                    state.window[i],
                ));
            }
            lemma_holds_on_both(
                genesis,
                old,
                new,
                start,
                state.fold,
                state.cursor,
                cursor.block,
            );
            assert forall|i: int|
                0 <= i < state.slots.len() && checkpoint::live_in(
                    #[trigger] state.slots[i],
                    state.window,
                ) implies holds(
                genesis,
                new,
                start,
                state.slots[i]->0.fold,
                state.slots[i]->0.cursor,
            ) by {
                assert(retention_laws::placed(state, state.slots[i]->0));
                lemma_holds_on_both(
                    genesis,
                    old,
                    new,
                    start,
                    state.slots[i]->0.fold,
                    state.slots[i]->0.cursor,
                    cursor.block,
                );
            }
        },
    }
}

/// What is fresh of a range of the chain is what lies above the cursor's block.
pub proof fn lemma_fresh_range<E>(
    chain: Chain<E>,
    start: u64,
    cursor: Option<Position>,
    from: u64,
    to: int,
)
    requires
        chain_model::sound(chain),
        from - 1 <= to,
        cursor matches Some(point) ==> from <= point.block + 1 && last_place(
            chain_model::entries_between(chain, start as int, point.block as int),
        ) == cursor,
    ensures
        ({
            let all = chain_model::entries_between(chain, from as int, to);
            engine_model::fresh(all, cursor) == (match cursor {
                None => all,
                Some(point) => chain_model::entries_between(chain, point.block + 1, to),
            })
        }),
{
    let all = chain_model::entries_between(chain, from as int, to);
    let events = chain_model::between(chain.events, from as int, to);
    let keep = |entry: Entry<E>| engine_model::is_fresh(entry, cursor);
    match cursor {
        None => {
            engine_model::lemma_filter_all(all, keep);
        },
        Some(point) => {
            let mid = point.block as int;
            let kept = chain_model::between(chain.events, start as int, mid);
            chain_model::lemma_between(chain.events, start as int, mid);
            chain_model::lemma_between(chain.events, from as int, to);
            assert(chain_model::entries(kept).last() == chain_model::entry_of(
                kept[kept.len() - 1],
            ));
            assert forall|i: int|
                0 <= i < events.len() && (#[trigger] events[i]).0.number <= mid implies !keep(
                chain_model::entry_of(events[i]),
            ) by {
                let k = choose|k: int| 0 <= k < chain.events.len() && chain.events[k] == events[i];
                if events[i].0.number == mid {
                    assert(kept.contains(chain.events[k]));
                    let j = choose|j: int| 0 <= j < kept.len() && kept[j] == events[i];
                    if j < kept.len() - 1 {
                        assert(chain_model::key_lt(kept[j], kept[kept.len() - 1]));
                    }
                }
            }
            if to < mid {
                assert forall|i: int| 0 <= i < all.len() implies !keep(#[trigger] all[i]) by {
                    assert(all[i] == chain_model::entry_of(events[i]));
                }
                engine_model::lemma_filter_none(all, keep);
                chain_model::lemma_between(chain.events, mid + 1, to);
                let above = chain_model::between(chain.events, mid + 1, to);
                if above.len() > 0 {
                    assert(mid + 1 <= above[0].0.number <= to);
                }
                assert(chain_model::entries(above) =~= Seq::<Entry<E>>::empty());
            } else {
                chain_model::lemma_split_range(chain.events, from as int, mid, to);
                let below = chain_model::between(chain.events, from as int, mid);
                let above = chain_model::between(chain.events, mid + 1, to);
                chain_model::lemma_between(chain.events, from as int, mid);
                chain_model::lemma_between(chain.events, mid + 1, to);
                let cut = below.len() as int;
                assert forall|i: int| 0 <= i < cut implies !engine_model::is_fresh(
                    #[trigger] all[i],
                    cursor,
                ) by {
                    assert(events[i] == below[i]);
                    assert(all[i] == chain_model::entry_of(events[i]));
                    assert(!keep(chain_model::entry_of(events[i])));
                }
                assert forall|i: int| cut <= i < all.len() implies engine_model::is_fresh(
                    #[trigger] all[i],
                    cursor,
                ) by {
                    assert(events[i] == above[i - cut]);
                    assert(all[i] == chain_model::entry_of(events[i]));
                }
                engine_model::lemma_fresh_suffix(all, cursor, cut);
                assert(all.skip(cut) =~= chain_model::entries(above));
            }
        },
    }
}

/// What the fold holds after it took the events above the cursor's block.
proof fn lemma_holds_more<F: Fold>(
    genesis: F,
    chain: Chain<F::Event>,
    start: u64,
    fold: F,
    cursor: Option<Position>,
    todo: Seq<Entry<F::Event>>,
    low: int,
    to: int,
    calls: Seq<Call<F>>,
)
    requires
        chain_model::sound(chain),
        holds(genesis, chain, start, fold, cursor),
        low == (match cursor {
            Some(point) => point.block + 1,
            None => start as int,
        }),
        todo == chain_model::entries_between(chain, low, to),
        engine_model::calls_follow(fold, todo, calls),
        !engine_model::stopped(calls),
    ensures
        holds(
            genesis,
            chain,
            start,
            engine_model::fold_before(fold, calls, calls.len() as int),
            if todo.len() == 0 {
                cursor
            } else {
                last_place(todo)
            },
        ),
{
    assert(calls.len() == todo.len());
    let after = engine_model::fold_before(fold, calls, calls.len() as int);
    if todo.len() > 0 {
        let events = chain_model::between(chain.events, low, to);
        chain_model::lemma_range_ends(chain.events, low, to);
        let number = events.last().0.number as int;
        assert(todo.last() == chain_model::entry_of(events.last()));
        let held = chain_model::entries_between(chain, start as int, number);
        match cursor {
            None => {
                assert(held == todo);
                assert(engine_model::calls_follow(genesis, held, calls));
            },
            Some(point) => {
                let mid = point.block as int;
                let done = chain_model::entries_between(chain, start as int, mid);
                let done_calls = choose|done_calls: Seq<Call<F>>| #[trigger]
                    engine_model::calls_follow(genesis, done, done_calls) && done_calls.len()
                        == done.len() && !engine_model::stopped(done_calls) && fold
                        == engine_model::fold_before(
                        genesis,
                        done_calls,
                        done_calls.len() as int,
                    );
                let kept = chain_model::between(chain.events, start as int, mid);
                chain_model::lemma_between(chain.events, start as int, mid);
                assert(start <= kept[kept.len() - 1].0.number <= mid);
                chain_model::lemma_split_range(chain.events, start as int, mid, number);
                assert(held =~= done + todo);
                engine_model::lemma_calls_concat(genesis, done, done_calls, todo, calls);
                let all = done_calls + calls;
                assert(all.last() == calls.last());
                assert(engine_model::fold_before(genesis, all, all.len() as int) == after);
                assert(engine_model::calls_follow(genesis, held, all));
            },
        }
    }
}

/// A batch that went through leaves the engine on the chain that it was read from.
proof fn lemma_batch_on_chain<F: Fold>(
    genesis: F,
    chain: Chain<F::Event>,
    start: u64,
    before: EngineState<F>,
    boundary: Option<BlockRef>,
    spans: Seq<Span<F::Event>>,
    calls: Seq<Call<F>>,
    after: EngineState<F>,
    summary: ApplySummary,
    from: u64,
    to: int,
)
    requires
        chain_model::sound(chain),
        on_chain(genesis, chain, start, before),
        engine_model::batch_applied(before, boundary, spans, calls, after, Ok(summary)),
        engine_model::all_entries(spans) == chain_model::entries_between(chain, from as int, to),
        from - 1 <= to,
        match before.cursor {
            Some(cursor) => from <= cursor.block + 1,
            None => from == start,
        },
    ensures
        on_chain(genesis, chain, start, after),
        after.status == before.status,
{
    let all = engine_model::all_entries(spans);
    let todo = engine_model::fresh(all, before.cursor);
    let low = match before.cursor {
        Some(cursor) => cursor.block + 1,
        None => start as int,
    };
    lemma_fresh_range(chain, start, before.cursor, from, to);
    assert(todo == chain_model::entries_between(chain, low, to));
    lemma_holds_more(
        genesis,
        chain,
        start,
        before.fold,
        before.cursor,
        todo,
        low,
        to,
        calls,
    );
    batch::lemma_shape_error(spans);
    engine_laws::lemma_entries_in_order(spans, spans.len() as int);
    assert(spans.take(spans.len() as int) =~= spans);
    engine_laws::lemma_fresh_in_order(all, before.cursor);
    let begun = engine_model::confirmed(before, boundary);
    assert(calls.len() == todo.len());
    assert(todo.take(engine_model::consumed_count(calls)) =~= todo);
    retention_laws::lemma_advanced_window(begun, todo);
    engine_model::lemma_advanced_over_cursor(begun, todo);
    retention_laws::law_batch_keeps_layers(before, boundary, spans, calls, after, Ok(summary));
    let events = chain_model::between(chain.events, low, to);
    lemma_one_header(chain, low, to);
    assert forall|i: int| 0 <= i < after.window.len() implies chain_model::header_at(
        chain,
        (#[trigger] after.window[i]).number,
    ) == Some(after.window[i]) by {
        let block = engine_model::advanced_over(begun, todo).window[i];
        if before.window.contains(block) {
            let k = choose|k: int| 0 <= k < before.window.len() && before.window[k] == block;
            assert(chain_model::header_at(chain, before.window[k].number) == Some(
                before.window[k],
            ));
        } else {
            let k = choose|k: int| 0 <= k < todo.len() && (#[trigger] todo[k]).block == block;
            assert(todo[k] == chain_model::entry_of(events[k]));
        }
    }
    assert forall|i: int|
        0 <= i < after.slots.len() && checkpoint::live_in(
            #[trigger] after.slots[i],
            after.window,
        ) implies holds(
        genesis,
        chain,
        start,
        after.slots[i]->0.fold,
        after.slots[i]->0.cursor,
    ) by {
        assert(after.slots[i] == before.slots[i]);
        assert(retention_laws::placed(before, before.slots[i]->0));
        let point = before.slots[i]->0.cursor->0;
        assert(before.window[before.window.len() - 1].number == before.cursor->0.block);
        retention_laws::lemma_follows_holds(before.window, after.window, point.block);
        assert(checkpoint::live_in(before.slots[i], before.window));
    }
}

/// A checkpoint leaves the engine on its chain.
proof fn lemma_checkpoint_on_chain<F: Fold>(
    genesis: F,
    chain: Chain<F::Event>,
    start: u64,
    state: EngineState<F>,
)
    requires
        on_chain(genesis, chain, start, state),
        state.cursor is Some,
    ensures
        on_chain(
            genesis,
            chain,
            start,
            EngineState {
                slots: checkpoint::stored(
                    state.slots,
                    Slot { fold: state.fold, cursor: state.cursor },
                ),
                ..state
            },
        ),
{
    let slot = Slot { fold: state.fold, cursor: state.cursor };
    let after = EngineState { slots: checkpoint::stored(state.slots, slot), ..state };
    retention_laws::law_checkpoint_keeps_layers(state, state.fold);
    assert forall|i: int|
        0 <= i < after.slots.len() && checkpoint::live_in(
            #[trigger] after.slots[i],
            after.window,
        ) implies holds(
        genesis,
        chain,
        start,
        after.slots[i]->0.fold,
        after.slots[i]->0.cursor,
    ) by {
        if i < after.slots.len() - 1 {
            assert(after.slots[i] == state.slots[i + 1]);
        }
    }
}

/// A rollback leaves the engine on its chain.
proof fn lemma_rollback_on_chain<F: Fold>(
    genesis: F,
    chain: Chain<F::Event>,
    start: u64,
    state: EngineState<F>,
    block: u64,
    slot: Slot<F>,
)
    requires
        on_chain(genesis, chain, start, state),
        checkpoint::newest_within(state.slots, state.window, block) == Some(slot),
    ensures
        on_chain(genesis, chain, start, engine::rolled_back(state, block, slot, slot.fold)),
{
    let after = engine::rolled_back(state, block, slot, slot.fold);
    let at = retention_laws::lemma_newest_index(state.slots, state.window, block);
    retention_laws::law_rollback_keeps_layers(state, block, slot, slot.fold);
    assert forall|i: int| 0 <= i < after.window.len() implies chain_model::header_at(
        chain,
        (#[trigger] after.window[i]).number,
    ) == Some(after.window[i]) by {
        assert(state.window[i] == after.window[i]);
    }
    assert(checkpoint::live_in(state.slots[at], state.window));
    assert forall|i: int|
        0 <= i < after.slots.len() && checkpoint::live_in(
            #[trigger] after.slots[i],
            after.window,
        ) implies holds(
        genesis,
        chain,
        start,
        after.slots[i]->0.fold,
        after.slots[i]->0.cursor,
    ) by {
        assert(after.slots[i] == state.slots[i]);
        assert(retention_laws::placed(after, after.slots[i]->0));
        let number = after.slots[i]->0.cursor->0.block;
        let k = choose|k: int|
            0 <= k < after.window.len() && (#[trigger] after.window[k]).number == number;
        assert(state.window[k] == after.window[k]);
        assert(checkpoint::live_in(state.slots[i], state.window));
    }
}

/// Whether an engine is on a chain depends on neither its status nor what was verified last.
proof fn lemma_on_chain_frame<F: Fold>(
    genesis: F,
    chain: Chain<F::Event>,
    start: u64,
    state: EngineState<F>,
    other: EngineState<F>,
)
    requires
        on_chain(genesis, chain, start, state),
        other.fold == state.fold,
        other.cursor == state.cursor,
        other.window == state.window,
        other.capacity == state.capacity,
        other.slots == state.slots,
    ensures
        on_chain(genesis, chain, start, other),
{
    assert forall|i: int|
        0 <= i < other.slots.len() && (#[trigger] other.slots[i])
            is Some implies retention_laws::placed(other, other.slots[i]->0) by {
        assert(retention_laws::placed(state, state.slots[i]->0));
    }
}

/// A restart leaves an engine that holds nothing yet, or one that is no longer active.
proof fn lemma_restart_follows<F: Fold + Clone, S: Source<Event = F::Event>, K>(
    genesis: F,
    chain_of: spec_fn(S) -> Chain<F::Event>,
    config: DriverConfig,
    before: DriverState<F, S, K>,
    after: DriverState<F, S, K>,
    tick: Tick,
)
    requires
        forall|a: F, b: F| #[trigger] cloned(a, b) ==> a == b,
        0 < before.engine.capacity,
        driver_model::restarted(config, genesis, before, after, tick),
    ensures
        follows_some(genesis, chain_of, config.start_block, after.engine),
        !(tick is Idle),
{
    let horizon = choose|horizon: ReplayHorizon|
        source::reports_horizon(before.source, horizon) && #[trigger] driver_model::resynced(
            config,
            genesis,
            before,
            horizon,
            after,
            tick,
        );
    if after.engine.status is Active {
        let copy = choose|copy: F| #[trigger]
            cloned(genesis, copy) && after == (DriverState {
                engine: engine::genesis(
                    copy,
                    before.engine.capacity,
                    before.engine.slots.len(),
                ),
                caught_up: false,
                errors: 0,
                scanned_to: None,
                last_checkpoint: None,
                last_snapshot: None,
                ..before
            });
        retention_laws::law_genesis_is_layered(
            copy,
            before.engine.capacity,
            before.engine.slots.len(),
        );
        assert(on_chain(genesis, chain_of(before.source), config.start_block, after.engine));
    }
}

/// Recovery from a suspected fork leaves the engine on the chain it was on, or restarts it.
proof fn lemma_recovery_follows<F: Fold + Clone, S: Source<Event = F::Event>, K>(
    genesis: F,
    chain_of: spec_fn(S) -> Chain<F::Event>,
    on: S,
    config: DriverConfig,
    before: DriverState<F, S, K>,
    after: DriverState<F, S, K>,
    tick: Tick,
)
    requires
        forall|a: F, b: F| #[trigger] cloned(a, b) ==> a == b,
        on_chain(genesis, chain_of(on), config.start_block, before.engine),
        driver_model::recovered(config, genesis, before, after, tick),
    ensures
        follows_some(genesis, chain_of, config.start_block, after.engine),
        !(tick is Idle),
{
    let (log, end) = choose|log: Seq<Asked<S>>, end: S|
        #![trigger source::asked(before.source, log, end)]
        {
            let window = before.engine.window;
            let probed = DriverState { source: end, ..before };
            &&& source::asked(before.source, log, end)
            &&& match driver_model::bisected(window, log, 0, 0, window.len() as int) {
                None => false,
                Some(None) => {
                    &&& tick == Tick::SourceError
                    &&& after == (DriverState {
                        errors: driver_model::one_more(before.errors),
                        ..probed
                    })
                },
                Some(Some(low)) => if low == 0 {
                    driver_model::restarted(config, genesis, probed, after, tick)
                } else {
                    driver_model::rolled_back_to(
                        config,
                        genesis,
                        probed,
                        window[low - 1].number,
                        after,
                        tick,
                    )
                },
            }
        };
    let window = before.engine.window;
    let probed = DriverState { source: end, ..before };
    match driver_model::bisected(window, log, 0, 0, window.len() as int) {
        Some(Some(low)) => {
            if low == 0 {
                lemma_restart_follows(genesis, chain_of, config, probed, after, tick);
            } else {
                let ancestor = window[low - 1].number;
                match engine::rollback_error(probed.engine, ancestor) {
                    None => {
                        let slot = checkpoint::newest_within(
                            probed.engine.slots,
                            probed.engine.window,
                            ancestor,
                        )->0;
                        let fold = choose|fold: F| #[trigger]
                            cloned(slot.fold, fold) && after == (DriverState {
                                engine: engine::rolled_back(probed.engine, ancestor, slot, fold),
                                caught_up: false,
                                last_snapshot: driver_model::clamped(
                                    probed.last_snapshot,
                                    slot.cursor,
                                ),
                                ..probed
                            });
                        assert(fold == slot.fold);
                        lemma_rollback_on_chain(
                            genesis,
                            chain_of(on),
                            config.start_block,
                            probed.engine,
                            ancestor,
                            slot,
                        );
                        assert(on_chain(
                            genesis,
                            chain_of(on),
                            config.start_block,
                            after.engine,
                        ));
                    },
                    Some(RollbackError::NoCheckpointAtOrBelow { .. }) => {
                        lemma_restart_follows(genesis, chain_of, config, probed, after, tick);
                    },
                    Some(RollbackError::Unrecoverable { .. }) => {
                        assert(on_chain(
                            genesis,
                            chain_of(on),
                            config.start_block,
                            after.engine,
                        ));
                    },
                }
            }
        },
        _ => {
            assert(on_chain(genesis, chain_of(on), config.start_block, after.engine));
        },
    }
}

/// The rules that run after a batch leave the engine on its chain, with its fold and cursor.
proof fn lemma_rules_follow<F: Fold + Clone, S: Source<Event = F::Event>, K: SnapshotSink<F>>(
    genesis: F,
    chain: Chain<F::Event>,
    config: DriverConfig,
    before: DriverState<F, S, K>,
    empty: bool,
    summary: ApplySummary,
    after: DriverState<F, S, K>,
    tick: Tick,
)
    requires
        forall|a: F, b: F| #[trigger] cloned(a, b) ==> a == b,
        on_chain(genesis, chain, config.start_block, before.engine),
        driver_model::rules_ran(config, before, empty, summary, after, tick),
    ensures
        on_chain(genesis, chain, config.start_block, after.engine),
        after.engine.fold == before.engine.fold,
        after.engine.cursor == before.engine.cursor,
        tick is Idle ==> empty,
{
    let (middle, lost) = choose|middle: DriverState<F, S, K>, lost: bool| #[trigger]
        driver_model::offer_ruled(config, middle, after, lost) && driver_model::checkpoint_ruled(
            config,
            DriverState { caught_up: empty, ..before },
            middle,
        ) && tick == driver_model::progress_tick(lost, empty, summary);
    let noted = DriverState { caught_up: empty, ..before };
    if driver_model::wants_checkpoint(config, noted) {
        let copy = choose|copy: F| #[trigger]
            cloned(noted.engine.fold, copy) && middle == driver_model::checkpointed(noted, copy);
        assert(copy == noted.engine.fold);
        lemma_checkpoint_on_chain(genesis, chain, config.start_block, noted.engine);
    }
}

/// An idle tick found nothing above the cursor, so the fold holds the whole chain.
pub open spec fn holds_whole<F: Fold>(
    genesis: F,
    chain: Chain<F::Event>,
    start: u64,
    fold: F,
    cursor: Option<Position>,
) -> bool {
    let entries = chain_model::entries_between(chain, start as int, chain.head as int);
    folded(genesis, entries, fold) && cursor == last_place(entries)
}

proof fn lemma_nothing_above<F: Fold>(
    genesis: F,
    chain: Chain<F::Event>,
    start: u64,
    fold: F,
    cursor: Option<Position>,
    from: u64,
    to: int,
)
    requires
        chain_model::sound(chain),
        holds(genesis, chain, start, fold, cursor),
        chain_model::between(chain.events, from as int, to).len() == 0,
        to >= chain.head,
        match cursor {
            Some(point) => from <= point.block + 1,
            None => from == start,
        },
    ensures
        holds_whole(genesis, chain, start, fold, cursor),
{
    let head = chain.head as int;
    let entries = chain_model::entries_between(chain, start as int, head);
    match cursor {
        None => {
            chain_model::lemma_empty_part(chain.events, from as int, to, start as int, head);
            assert(entries.len() == 0);
            let calls = Seq::<Call<F>>::empty();
            assert(engine_model::calls_follow(genesis, entries, calls));
        },
        Some(point) => {
            let mid = point.block as int;
            let kept = chain_model::between(chain.events, start as int, mid);
            chain_model::lemma_between(chain.events, start as int, mid);
            let last = kept[kept.len() - 1];
            assert(chain_model::entries(kept).last() == chain_model::entry_of(last));
            let k = choose|k: int| 0 <= k < chain.events.len() && chain.events[k] == last;
            assert(chain.events[k].0.number <= chain.head);
            chain_model::lemma_empty_part(chain.events, from as int, to, mid + 1, head);
            chain_model::lemma_split_range(chain.events, start as int, mid, head);
            assert(chain_model::between(chain.events, start as int, head) =~= kept);
        },
    }
}

/// Why the header that came with a batch is the newest observed block.
pub proof fn lemma_confirmed_header<F: Fold>(
    chain: Chain<F::Event>,
    state: EngineState<F>,
    boundary: Option<BlockRef>,
)
    requires
        chain_model::sound(chain),
        retention_laws::orderly(state),
        engine_model::boundary_error(state, boundary) is None,
        state.cursor matches Some(cursor) ==> boundary == chain_model::header_at(
            chain,
            cursor.block,
        ),
    ensures
        state.cursor matches Some(cursor) ==> chain_model::header_at(chain, cursor.block) == Some(
            state.window.last(),
        ),
{
    if state.cursor is Some {
        ring::lemma_hash_in(state.window, state.window.len() - 1);
        assert(boundary->0 == state.window.last());
    }
}

/// A stopped fold leaves an engine that is not active.
pub proof fn lemma_stop_deactivates<F: Fold>(
    before: EngineState<F>,
    boundary: Option<BlockRef>,
    spans: Seq<Span<F::Event>>,
    calls: Seq<Call<F>>,
    after: EngineState<F>,
    error: ApplyError<F::Error>,
)
    requires
        before.status is Active,
        engine_model::batch_applied(before, boundary, spans, calls, after, Err(error)),
        error is Halted || error is Poisoned,
    ensures
        !(after.status is Active),
{
    lemma_fork_is_reported(before, spans, 0);
}

pub proof fn lemma_fork_is_reported<F: Fold>(
    state: EngineState<F>,
    spans: Seq<Span<F::Event>>,
    at: int,
)
    ensures
        engine_model::first_fork(state, spans, at) matches Some(error) ==> error is ForkSuspected,
    decreases spans.len() - at,
{
    if at < spans.len() && !engine_model::forks(state, spans[at].block) {
        lemma_fork_is_reported(state, spans, at + 1);
    }
}

/// One batch of a poll keeps the engine on a chain, and an idle one shows that it holds the
/// whole chain of its source.
proof fn lemma_batch_follows<F: Fold + Clone, S: Source<Event = F::Event>, K: SnapshotSink<F>>(
    genesis: F,
    chain_of: spec_fn(S) -> Chain<F::Event>,
    config: DriverConfig,
    started: DriverState<F, S, K>,
    scanned: DriverState<F, S, K>,
    boundary: Option<BlockRef>,
    spans: Seq<Span<F::Event>>,
    after: DriverState<F, S, K>,
    tick: Tick,
)
    requires
        serves_chains(chain_of),
        forall|a: F, b: F| #[trigger] cloned(a, b) ==> a == b,
        started.engine.status is Active,
        follows_some(genesis, chain_of, config.start_block, started.engine),
        driver_model::scan_done(config, started, scanned, Some((boundary, spans))),
        driver_model::batch_polled(config, genesis, scanned, boundary, spans, after, tick),
    ensures
        follows_some(genesis, chain_of, config.start_block, after.engine),
        tick is Idle ==> holds_whole(
            genesis,
            chain_of(started.source),
            config.start_block,
            after.engine.fold,
            after.engine.cursor,
        ),
{
    let start = config.start_block;
    let chain = chain_of(started.source);
    let on = choose|on: S| on_chain(genesis, #[trigger] chain_of(on), start, started.engine);
    let to = lemma_scan_finds(chain_of, config, started, scanned, boundary, spans);
    let from = driver_model::scan_start(started.engine.cursor, started.scanned_to, start);
    let (calls, engine, result) = choose|
        calls: Seq<Call<F>>,
        engine: EngineState<F>,
        result: Result<ApplySummary, ApplyError<F::Error>>,
    | #[trigger]
        engine_model::batch_applied(scanned.engine, boundary, spans, calls, engine, result)
            && driver_model::batch_followed(
            config,
            genesis,
            DriverState { engine, errors: 0, ..scanned },
            spans.len() == 0,
            result,
            after,
            tick,
        );
    let applied = DriverState { engine, errors: 0, ..scanned };
    match result {
        Ok(summary) => {
            assert(chain_model::commits(chain_of(on), chain_of(started.source)));
            lemma_confirmed_header(chain, scanned.engine, boundary);
            lemma_on_confirmed_chain(genesis, chain_of(on), chain, start, scanned.engine);
            lemma_batch_on_chain(
                genesis,
                chain,
                start,
                scanned.engine,
                boundary,
                spans,
                calls,
                engine,
                summary,
                from,
                to,
            );
            lemma_rules_follow(
                genesis,
                chain,
                config,
                applied,
                spans.len() == 0,
                summary,
                after,
                tick,
            );
            assert(on_chain(genesis, chain_of(started.source), start, after.engine));
            if tick is Idle {
                let all = engine_model::all_entries(spans);
                assert(all.len() == 0);
                let todo = engine_model::fresh(all, scanned.engine.cursor);
                engine_laws::lemma_fresh_in_order(all, scanned.engine.cursor);
                engine_model::lemma_filter_all(
                    all,
                    |entry: Entry<F::Event>|
                        engine_model::is_fresh(entry, scanned.engine.cursor),
                );
                assert(todo.len() == 0);
                assert(calls.len() == 0);
                assert(todo.take(0) =~= todo);
                assert(engine.cursor == scanned.engine.cursor);
                lemma_nothing_above(
                    genesis,
                    chain,
                    start,
                    engine.fold,
                    engine.cursor,
                    from,
                    to,
                );
            }
        },
        Err(error) => {
            if error is Halted || error is Poisoned {
                lemma_stop_deactivates(scanned.engine, boundary, spans, calls, engine, error);
            } else {
                engine_laws::law_refused_batch_changes_nothing(
                    scanned.engine,
                    boundary,
                    spans,
                    calls,
                    engine,
                    error,
                );
                lemma_on_chain_frame(genesis, chain_of(on), start, scanned.engine, engine);
                if error is ForkSuspected || error is MissingBoundary
                    || error is CursorBlockUnobserved {
                    lemma_recovery_follows(
                        genesis,
                        chain_of,
                        on,
                        config,
                        applied,
                        after,
                        tick,
                    );
                }
                assert(on_chain(genesis, chain_of(on), start, applied.engine));
            }
        },
    }
}

/// One tick keeps the engine on a chain, and an idle one shows that it holds the whole chain
/// of its source.
proof fn lemma_tick_follows<F: Fold + Clone, S: Source<Event = F::Event>, K: SnapshotSink<F>>(
    genesis: F,
    chain_of: spec_fn(S) -> Chain<F::Event>,
    config: DriverConfig,
    before: DriverState<F, S, K>,
    after: DriverState<F, S, K>,
    tick: Tick,
)
    requires
        serves_chains(chain_of),
        forall|a: F, b: F| #[trigger] cloned(a, b) ==> a == b,
        follows_some(genesis, chain_of, config.start_block, before.engine),
        driver_model::ticked(config, genesis, before, after, tick),
    ensures
        follows_some(genesis, chain_of, config.start_block, after.engine),
        tick is Idle ==> holds_whole(
            genesis,
            chain_of(before.source),
            config.start_block,
            after.engine.fold,
            after.engine.cursor,
        ),
{
    let end = choose|end: DriverState<F, S, K>| #[trigger]
        driver_model::polled(config, genesis, before, end, tick) && after == (DriverState {
            advanced: driver_model::moves_forward(tick),
            ..end
        });
    let started = DriverState {
        generation: engine_model::counted(before.generation, 1),
        ..before
    };
    if before.engine.status is Active {
        let (scanned, found) = choose|
            scanned: DriverState<F, S, K>,
            found: Option<(Option<BlockRef>, Seq<Span<F::Event>>)>,
        | #[trigger]
            driver_model::scan_done(config, started, scanned, found) && match found {
                None => {
                    &&& end == (DriverState {
                        errors: driver_model::one_more(before.errors),
                        ..scanned
                    })
                    &&& tick == Tick::SourceError
                },
                Some((boundary, spans)) => driver_model::batch_polled(
                    config,
                    genesis,
                    scanned,
                    boundary,
                    spans,
                    end,
                    tick,
                ),
            };
        match found {
            Some((boundary, spans)) => {
                lemma_batch_follows(
                    genesis,
                    chain_of,
                    config,
                    started,
                    scanned,
                    boundary,
                    spans,
                    end,
                    tick,
                );
            },
            None => {},
        }
    }
}

/// One thing that happens to a driver.
pub enum Step<S> {
    /// Its source moves on, to another chain or on the same one.
    Moves(S),
    /// Its caller forces a checkpoint.
    Checkpoints,
    /// It ticks.
    Ticks(Tick),
}

/// What a step does. A checkpoint is forced only once an event was folded: one without a cursor
/// can be restored for ever, and after a rollback to it an older checkpoint whose block had left
/// the window can come back by its number alone, on another chain.
pub open spec fn stepped<F: Fold + Clone, S: Source<Event = F::Event>, K: SnapshotSink<F>>(
    config: DriverConfig,
    genesis: F,
    before: DriverState<F, S, K>,
    step: Step<S>,
    after: DriverState<F, S, K>,
) -> bool {
    match step {
        Step::Moves(source) => after == (DriverState { source, ..before }),
        Step::Checkpoints => before.engine.cursor is Some && driver_model::checkpoint_taken(
            before,
            after,
        ),
        Step::Ticks(tick) => driver_model::ticked(config, genesis, before, after, tick),
    }
}

/// A life of a driver, one state before each step and one after the last.
pub open spec fn lived<F: Fold + Clone, S: Source<Event = F::Event>, K: SnapshotSink<F>>(
    config: DriverConfig,
    genesis: F,
    states: Seq<DriverState<F, S, K>>,
    steps: Seq<Step<S>>,
) -> bool {
    &&& states.len() == steps.len() + 1
    &&& forall|i: int|
        0 <= i < steps.len() ==> stepped(
            config,
            genesis,
            states[i],
            #[trigger] steps[i],
            states[i + 1],
        )
}

proof fn lemma_life_follows<F: Fold + Clone, S: Source<Event = F::Event>, K: SnapshotSink<F>>(
    config: DriverConfig,
    genesis: F,
    chain_of: spec_fn(S) -> Chain<F::Event>,
    states: Seq<DriverState<F, S, K>>,
    steps: Seq<Step<S>>,
    at: int,
)
    requires
        serves_chains(chain_of),
        forall|a: F, b: F| #[trigger] cloned(a, b) ==> a == b,
        lived(config, genesis, states, steps),
        follows_some(genesis, chain_of, config.start_block, states[0].engine),
        0 <= at <= steps.len(),
    ensures
        follows_some(genesis, chain_of, config.start_block, states[at].engine),
    decreases at,
{
    if at > 0 {
        lemma_life_follows(config, genesis, chain_of, states, steps, at - 1);
        let before = states[at - 1];
        let after = states[(at - 1) + 1];
        assert(stepped(config, genesis, before, steps[at - 1], after));
        match steps[at - 1] {
            Step::Moves(_) => {},
            Step::Checkpoints => {
                let copy = choose|copy: F| #[trigger]
                    cloned(before.engine.fold, copy) && after == driver_model::checkpointed(
                        before,
                        copy,
                    );
                assert(copy == before.engine.fold);
                if before.engine.status is Active {
                    let on = choose|on: S|
                        on_chain(
                            genesis,
                            #[trigger] chain_of(on),
                            config.start_block,
                            before.engine,
                        );
                    lemma_checkpoint_on_chain(
                        genesis,
                        chain_of(on),
                        config.start_block,
                        before.engine,
                    );
                    assert(on_chain(genesis, chain_of(on), config.start_block, after.engine));
                }
            },
            Step::Ticks(tick) => {
                lemma_tick_follows(genesis, chain_of, config, before, after, tick);
            },
        }
    }
}

/// A new engine holds nothing yet, on whatever chain.
pub proof fn law_new_engine_is_on_every_chain<F: Fold>(
    genesis: F,
    chain: Chain<F::Event>,
    start: u64,
    capacity: nat,
    slots: nat,
)
    requires
        0 < capacity,
    ensures
        on_chain(genesis, chain, start, engine::genesis(genesis, capacity, slots)),
{
    retention_laws::law_genesis_is_layered(genesis, capacity, slots);
}

/// Whatever happens to a driver that follows a chain, it goes on to follow one while its engine
/// is active.
pub proof fn law_driver_stays_on_a_chain<
    F: Fold + Clone,
    S: Source<Event = F::Event>,
    K: SnapshotSink<F>,
>(
    config: DriverConfig,
    genesis: F,
    chain_of: spec_fn(S) -> Chain<F::Event>,
    states: Seq<DriverState<F, S, K>>,
    steps: Seq<Step<S>>,
)
    requires
        serves_chains(chain_of),
        forall|a: F, b: F| #[trigger] cloned(a, b) ==> a == b,
        lived(config, genesis, states, steps),
        follows_some(genesis, chain_of, config.start_block, states[0].engine),
    ensures
        follows_some(genesis, chain_of, config.start_block, states.last().engine),
{
    lemma_life_follows(config, genesis, chain_of, states, steps, steps.len() as int);
}

proof fn lemma_last_tick<F: Fold + Clone, S: Source<Event = F::Event>, K: SnapshotSink<F>>(
    config: DriverConfig,
    genesis: F,
    chain_of: spec_fn(S) -> Chain<F::Event>,
    states: Seq<DriverState<F, S, K>>,
    steps: Seq<Step<S>>,
)
    requires
        serves_chains(chain_of),
        forall|a: F, b: F| #[trigger] cloned(a, b) ==> a == b,
        lived(config, genesis, states, steps),
        steps.len() > 0,
        steps.last() == Step::<S>::Ticks(Tick::Idle),
        follows_some(
            genesis,
            chain_of,
            config.start_block,
            states[steps.len() - 1].engine,
        ),
    ensures
        holds_whole(
            genesis,
            chain_of(states[steps.len() - 1].source),
            config.start_block,
            states.last().engine.fold,
            states.last().engine.cursor,
        ),
{
    let last = steps.len() - 1;
    assert(stepped(config, genesis, states[last], steps[last], states[last + 1]));
    lemma_tick_follows(
        genesis,
        chain_of,
        config,
        states[last],
        states[last + 1],
        Tick::Idle,
    );
}

/// An idle driver holds the current chain. Over a source whose hashes commit to ancestry,
/// whatever reorganisations happened between the ticks of a driver and whenever its caller
/// forced a checkpoint: when a tick is idle, the fold was handed exactly the events of the
/// source's chain from the start block to the highest block, each once and in order, and the
/// cursor stands on the last of them. Nothing of a dropped fork is left and nothing of the new
/// branch is missing. The driver starts with an engine that follows a chain: a new one, or one
/// that a snapshot of such an engine gave back.
pub proof fn law_idle_driver_holds_the_current_chain<
    F: Fold + Clone,
    S: Source<Event = F::Event>,
    K: SnapshotSink<F>,
>(
    config: DriverConfig,
    genesis: F,
    chain_of: spec_fn(S) -> Chain<F::Event>,
    states: Seq<DriverState<F, S, K>>,
    steps: Seq<Step<S>>,
)
    requires
        serves_chains(chain_of),
        forall|a: F, b: F| #[trigger] cloned(a, b) ==> a == b,
        lived(config, genesis, states, steps),
        follows_some(genesis, chain_of, config.start_block, states[0].engine),
        steps.len() > 0,
        steps.last() == Step::<S>::Ticks(Tick::Idle),
    ensures
        ({
            let chain = chain_of(states[steps.len() - 1].source);
            let entries = chain_model::entries_between(
                chain,
                config.start_block as int,
                chain.head as int,
            );
            &&& exists|calls: Seq<Call<F>>| #[trigger]
                engine_model::calls_follow(genesis, entries, calls) && calls.len()
                    == entries.len() && !engine_model::stopped(calls)
                    && states.last().engine.fold == engine_model::fold_before(
                    genesis,
                    calls,
                    calls.len() as int,
                )
            &&& states.last().engine.cursor == last_place(entries)
        }),
{
    let last = steps.len() - 1;
    lemma_life_follows(config, genesis, chain_of, states, steps, last);
    lemma_last_tick(config, genesis, chain_of, states, steps);
}

/// What is cut out of an engine on a chain, without its checkpoints, is on that chain.
proof fn lemma_cut_on_chain<F: Fold>(
    genesis: F,
    chain: Chain<F::Event>,
    start: u64,
    state: EngineState<F>,
    cut: EngineState<F>,
)
    requires
        on_chain(genesis, chain, start, state),
        holds(genesis, chain, start, cut.fold, cut.cursor),
        retention_laws::orderly(cut),
        retention_laws::begins_with(state.window, cut.window),
        forall|i: int| 0 <= i < cut.slots.len() ==> (#[trigger] cut.slots[i]) is None,
    ensures
        on_chain(genesis, chain, start, cut),
{
    assert forall|i: int| 0 <= i < cut.window.len() implies chain_model::header_at(
        chain,
        (#[trigger] cut.window[i]).number,
    ) == Some(cut.window[i]) by {
        assert(state.window[i] == cut.window[i]);
    }
}

/// The snapshot of an engine that follows a chain gives back an engine that follows it, when
/// the fold reads its state bytes back.
pub proof fn law_snapshot_gives_back_an_engine_on_the_chain<F: Persist>(
    genesis: F,
    chain: Chain<F::Event>,
    start: u64,
    state: EngineState<F>,
    bytes: Seq<u8>,
    config: EngineConfig,
    result: Result<Engine<F>, SnapshotError<F::PersistError>>,
)
    requires
        on_chain(genesis, chain, start, state),
        forall|read: Result<F, F::PersistError>| #[trigger]
            F::decodes(state.fold.state_bytes(), read) ==> read == Ok::<F, F::PersistError>(
                state.fold,
            ),
        snapshot::appended::<(), F::PersistError>(
            Seq::empty(),
            snapshot::sealed(state.fold, state.cursor, state.window),
            bytes,
            (),
            Ok(()),
        ),
        engine::config_error(config) is None,
        state.window.len() <= config.ring_capacity,
        snapshot::rebuilt(
            snapshot::unframed(
                bytes,
                checksum::crc32c_of(snapshot::payload_of(bytes)),
                F::STATE_TAG.spec_bytes(),
                config,
            ),
            config,
            result,
        ),
    ensures
        result matches Ok(engine) && on_chain(genesis, chain, start, engine.state())
            && engine.state().cursor == state.cursor && engine.state().status is Active,
{
    let payload = snapshot_model::envelope_bytes(
        snapshot::sealed(state.fold, state.cursor, state.window),
    );
    let crc = checksum::crc32c_of(payload);
    assert(bytes =~= snapshot::framed(payload, crc));
    assert(snapshot::payload_of(bytes) =~= payload) by {
        bytes::lemma_byte_ranges();
        bytes::lemma_le_value(crc as nat, 4);
    }
    snapshot_laws::law_decode_inverts_encode(state, crc, config);
    let engine = result->Ok_0;
    lemma_cut_on_chain(genesis, chain, start, state, engine.state());
}

/// The durable snapshot of an engine that follows a chain gives back an engine that follows it,
/// when the fold reads its state bytes back: its oldest checkpoint, the observed blocks up to
/// it, and no checkpoints.
pub proof fn law_durable_snapshot_gives_back_an_engine_on_the_chain<F: Persist>(
    genesis: F,
    chain: Chain<F::Event>,
    start: u64,
    state: EngineState<F>,
    bytes: Seq<u8>,
    point: Position,
    config: EngineConfig,
    result: Result<Engine<F>, SnapshotError<F::PersistError>>,
)
    requires
        on_chain(genesis, chain, start, state),
        snapshot::durable_appended(state, Seq::empty(), bytes, Ok(Some(point))),
        ({
            let fold = checkpoint::oldest_live(state.slots, state.window)->0.fold;
            forall|read: Result<F, F::PersistError>| #[trigger]
                F::decodes(fold.state_bytes(), read) ==> read == Ok::<F, F::PersistError>(fold)
        }),
        engine::config_error(config) is None,
        state.window.len() <= config.ring_capacity,
        snapshot::rebuilt(
            snapshot::unframed(
                bytes,
                checksum::crc32c_of(snapshot::payload_of(bytes)),
                F::STATE_TAG.spec_bytes(),
                config,
            ),
            config,
            result,
        ),
    ensures
        result matches Ok(engine) && on_chain(genesis, chain, start, engine.state())
            && engine.state().cursor == Some(point) && engine.state().status is Active,
{
    let slot = checkpoint::oldest_live(state.slots, state.window)->0;
    let at = retention_laws::lemma_oldest_index(state.slots, state.window);
    assert(retention_laws::placed(state, state.slots[at]->0));
    let window = ring::at_or_below(state.window, point.block);
    ring::lemma_at_or_below(state.window, point.block);
    ring::lemma_count_at_or_below(state.window, point.block);
    let cut = EngineState {
        fold: slot.fold,
        cursor: slot.cursor,
        window,
        slots: Seq::empty(),
        ..state
    };
    assert(holds(genesis, chain, start, state.slots[at]->0.fold, state.slots[at]->0.cursor));
    lemma_cut_on_chain(genesis, chain, start, state, cut);
    law_snapshot_gives_back_an_engine_on_the_chain(
        genesis,
        chain,
        start,
        cut,
        bytes,
        config,
        result,
    );
}

/// A driver that was restarted holds the current chain too. Let a driver live with a new
/// engine, take a durable snapshot of it, and let another driver live with the engine that the
/// snapshot gives back, over whatever chains in between: when a tick of that one is idle, its
/// fold was handed exactly the events of the source's chain, each once and in order.
pub proof fn law_restarted_driver_holds_the_current_chain<
    F: Persist + Clone,
    S: Source<Event = F::Event>,
    K: SnapshotSink<F>,
    L: SnapshotSink<F>,
>(
    config: DriverConfig,
    genesis: F,
    chain_of: spec_fn(S) -> Chain<F::Event>,
    states: Seq<DriverState<F, S, K>>,
    steps: Seq<Step<S>>,
    bytes: Seq<u8>,
    point: Position,
    engine_config: EngineConfig,
    engine: Engine<F>,
    later: Seq<DriverState<F, S, L>>,
    later_steps: Seq<Step<S>>,
)
    requires
        serves_chains(chain_of),
        forall|a: F, b: F| #[trigger] cloned(a, b) ==> a == b,
        forall|fold: F, read: Result<F, F::PersistError>| #[trigger]
            F::decodes(fold.state_bytes(), read) ==> read == Ok::<F, F::PersistError>(fold),
        lived(config, genesis, states, steps),
        0 < states[0].engine.capacity,
        states[0].engine == engine::genesis(
            genesis,
            states[0].engine.capacity,
            states[0].engine.slots.len(),
        ),
        states.last().engine.status is Active,
        snapshot::durable_appended(states.last().engine, Seq::empty(), bytes, Ok(Some(point))),
        engine::config_error(engine_config) is None,
        states.last().engine.window.len() <= engine_config.ring_capacity,
        snapshot::rebuilt(
            snapshot::unframed(
                bytes,
                checksum::crc32c_of(snapshot::payload_of(bytes)),
                F::STATE_TAG.spec_bytes(),
                engine_config,
            ),
            engine_config,
            Ok(engine),
        ),
        later[0].engine == engine.state(),
        lived(config, genesis, later, later_steps),
        later_steps.len() > 0,
        later_steps.last() == Step::<S>::Ticks(Tick::Idle),
    ensures
        holds_whole(
            genesis,
            chain_of(later[later_steps.len() - 1].source),
            config.start_block,
            later.last().engine.fold,
            later.last().engine.cursor,
        ),
{
    let start = config.start_block;
    law_new_engine_is_on_every_chain(
        genesis,
        chain_of(states[0].source),
        start,
        states[0].engine.capacity,
        states[0].engine.slots.len(),
    );
    law_driver_stays_on_a_chain(config, genesis, chain_of, states, steps);
    let on = choose|on: S|
        on_chain(genesis, #[trigger] chain_of(on), start, states.last().engine);
    law_durable_snapshot_gives_back_an_engine_on_the_chain(
        genesis,
        chain_of(on),
        start,
        states.last().engine,
        bytes,
        point,
        engine_config,
        Ok(engine),
    );
    lemma_life_follows(config, genesis, chain_of, later, later_steps, later_steps.len() - 1);
    lemma_last_tick(config, genesis, chain_of, later, later_steps);
}

} // verus!
