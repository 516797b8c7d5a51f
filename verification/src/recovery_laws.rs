//! What a driver promises when its source has moved to another chain, and when it has not.
use vstd::prelude::*;

use crate::batch;
use crate::batch::Span;
use crate::chain_laws;
use crate::chain_model;
use crate::chain_model::Chain;
use crate::checkpoint;
use crate::driver::{DriverConfig, Tick};
use crate::driver_laws;
use crate::driver_model;
use crate::driver_model::DriverState;
use crate::engine;
use crate::engine::ApplySummary;
use crate::engine_model;
use crate::engine_model::{Call, EngineState, Entry};
use crate::error::{ApplyError, DivergenceCause, EngineStatus, RollbackError};
use crate::fold::Fold;
use crate::position::BlockRef;
use crate::retention_laws;
use crate::ring;
use crate::sink::SnapshotSink;
use crate::source;
use crate::source::{Asked, ReplayHorizon, Source, SourceCall, SourceReply};

verus! {

/// True when the chain holds the block under that very header.
pub open spec fn canonical<E>(chain: Chain<E>, block: BlockRef) -> bool {
    chain_model::header_at(chain, block.number) == Some(block)
}

/// True when every observed block lies on the chain.
pub open spec fn observed_on<E>(chain: Chain<E>, window: Seq<BlockRef>) -> bool {
    forall|i: int| 0 <= i < window.len() ==> canonical(chain, #[trigger] window[i])
}

/// True when the newest observed block, which is the cursor's, is no longer on the chain.
pub open spec fn forked<F, E>(chain: Chain<E>, state: EngineState<F>) -> bool {
    state.cursor is Some && !canonical(chain, state.window.last())
}

/// True when slot `k` can be restored and does not lie above the highest observed block that is
/// still on the chain.
pub open spec fn serves<F, E>(chain: Chain<E>, state: EngineState<F>, k: int) -> bool {
    &&& driver_laws::restorable(state, k)
    &&& exists|i: int|
        0 <= i < state.window.len() && canonical(chain, #[trigger] state.window[i]) && (
        state.slots[k]->0.cursor matches Some(cursor) ==> cursor.block <= state.window[i].number)
}

/// What is canonical on one chain is so on another up to any block they share.
proof fn lemma_canonical_below<E>(old: Chain<E>, new: Chain<E>, window: Seq<BlockRef>)
    requires
        chain_model::commits(old, new),
        ring::ascending(window),
        observed_on(old, window),
    ensures
        forall|i: int, j: int|
            0 <= i <= j < window.len() && canonical(new, #[trigger] window[j]) ==> canonical(
                new,
                #[trigger] window[i],
            ),
{
    assert forall|i: int, j: int|
        0 <= i <= j < window.len() && canonical(new, #[trigger] window[j]) implies canonical(
        new,
        #[trigger] window[i],
    ) by {
        assert(canonical(old, window[i]) && canonical(old, window[j]));
        if i < j {
            assert(window[i].number < window[j].number);
        }
        assert(chain_model::header_at(old, window[j].number) == chain_model::header_at(
            new,
            window[j].number,
        ));
        assert(chain_model::header_at(old, window[i].number) == chain_model::header_at(
            new,
            window[i].number,
        ));
    }
}

/// True when the first `cut` observed blocks are on the chain and the others are not.
spec fn parted<E>(chain: Chain<E>, window: Seq<BlockRef>, cut: int) -> bool {
    &&& 0 <= cut <= window.len()
    &&& forall|i: int| 0 <= i < cut ==> canonical(chain, #[trigger] window[i])
    &&& forall|i: int| cut <= i < window.len() ==> !canonical(chain, #[trigger] window[i])
}

/// Halving finds where the observed blocks leave the chain.
proof fn lemma_bisected<S: Source>(
    chain_of: spec_fn(S) -> Chain<S::Event>,
    start: S,
    window: Seq<BlockRef>,
    log: Seq<Asked<S>>,
    end: S,
    at: int,
    low: int,
    high: int,
)
    requires
        chain_model::answers_from(chain_of),
        chain_model::sound(chain_of(start)),
        source::asked(start, log, end),
        0 <= at,
        0 <= low <= high <= window.len(),
        forall|i: int| 0 <= i < low ==> canonical(chain_of(start), #[trigger] window[i]),
        forall|i: int|
            high <= i < window.len() ==> !canonical(chain_of(start), #[trigger] window[i]),
        forall|i: int, j: int|
            0 <= i <= j < window.len() && canonical(chain_of(start), #[trigger] window[j])
                ==> canonical(chain_of(start), #[trigger] window[i]),
    ensures
        driver_model::bisected(window, log, at, low, high) matches Some(found) ==> match found {
            Some(cut) => parted(chain_of(start), window, cut),
            None => exists|k: int| 0 <= k < log.len() && (#[trigger] log[k]).reply is Failed,
        },
    decreases log.len() - at,
{
    let chain = chain_of(start);
    let mid = low + (high - low) / 2;
    if low < high && at < log.len() && log[at].call == SourceCall::<S::Event>::HeaderAt(
        window[mid].number,
    ) {
        chain_model::lemma_stays_on_chain(chain_of, start, log, end, at);
        match log[at].reply {
            SourceReply::Header(Some(header)) => {
                assert(header.number == window[mid].number);
                if header.hash == window[mid].hash {
                    assert(header == window[mid]);
                    assert(canonical(chain, window[mid]));
                    lemma_bisected(chain_of, start, window, log, end, at + 1, mid + 1, high);
                } else {
                    assert(!canonical(chain, window[mid]));
                    lemma_bisected(chain_of, start, window, log, end, at + 1, low, mid);
                }
            },
            SourceReply::Header(None) => {
                assert(!canonical(chain, window[mid]));
                lemma_bisected(chain_of, start, window, log, end, at + 1, low, mid);
            },
            SourceReply::Failed(_) => {
                assert(log[at].reply is Failed);
            },
            _ => {},
        }
    }
}

/// Without a slot to restore, nothing serves.
pub proof fn lemma_nothing_within<F>(state: EngineState<F>, slots: nat, block: u64)
    requires
        slots <= state.slots.len(),
        checkpoint::newest_within(state.slots.take(slots as int), state.window, block) is None,
    ensures
        forall|k: int|
            0 <= k < slots ==> !(checkpoint::live_in(#[trigger] state.slots[k], state.window)
                && checkpoint::within(state.slots[k], block)),
    decreases slots,
{
    if slots > 0 {
        let some = state.slots.take(slots as int);
        assert(some.drop_last() =~= state.slots.take(slots - 1));
        lemma_nothing_within(state, (slots - 1) as nat, block);
    }
}

/// A slot serves exactly when it is live and not above the last block before the cut.
proof fn lemma_serves<F, E>(chain: Chain<E>, state: EngineState<F>, cut: int, k: int)
    requires
        ring::ascending(state.window),
        parted(chain, state.window, cut),
    ensures
        serves(chain, state, k) <==> cut > 0 && 0 <= k < state.slots.len() && checkpoint::live_in(
            state.slots[k],
            state.window,
        ) && checkpoint::within(state.slots[k], state.window[cut - 1].number),
{
    let window = state.window;
    if 0 <= k < state.slots.len() {
        assert(driver_laws::restorable(state, k) == checkpoint::live_in(state.slots[k], window));
        if serves(chain, state, k) {
            let i = choose|i: int|
                0 <= i < window.len() && canonical(chain, #[trigger] window[i]) && (
                state.slots[k]->0.cursor matches Some(cursor) ==> cursor.block
                    <= window[i].number);
            assert(i < cut);
            if i < cut - 1 {
                assert(window[i].number < window[cut - 1].number);
            }
        }
        if cut > 0 && checkpoint::live_in(state.slots[k], window) && checkpoint::within(
            state.slots[k],
            window[cut - 1].number,
        ) {
            assert(canonical(chain, window[cut - 1]));
        }
    }
}

/// A restart leaves a new engine, unless the source cannot replay from the start.
proof fn lemma_restart<F: Clone, S: Source, K>(
    config: DriverConfig,
    genesis: F,
    before: DriverState<F, S, K>,
    after: DriverState<F, S, K>,
    tick: Tick,
)
    requires
        driver_model::restarted(config, genesis, before, after, tick),
    ensures
        begun_again(config, genesis, before.engine, after, tick),
        after.source == before.source,
        tick is Resynced ==> !after.caught_up && after.scanned_to is None,
{
    let horizon = choose|horizon: ReplayHorizon|
        source::reports_horizon(before.source, horizon) && #[trigger] driver_model::resynced(
            config,
            genesis,
            before,
            horizon,
            after,
            tick,
        );
    assert(source::reports_horizon(after.source, horizon));
}

/// A new engine with as many empty slots and as long a window as the old one; or, when the
/// source says that it replays only from a block above the start, an engine given up.
pub open spec fn begun_again<F: Clone, S: Source, K>(
    config: DriverConfig,
    genesis: F,
    old: EngineState<F>,
    after: DriverState<F, S, K>,
    tick: Tick,
) -> bool {
    exists|horizon: ReplayHorizon| #[trigger]
        source::reports_horizon(after.source, horizon) && match horizon {
            ReplayHorizon::FromBlock(first) if first > config.start_block => {
                &&& after.engine.status == EngineStatus::Unrecoverable {
                    cause: DivergenceCause::HorizonExceeded {
                        needed: config.start_block,
                        horizon: first,
                    },
                }
                &&& tick == Tick::Terminal(after.engine.status)
                &&& after.engine.fold == old.fold
                &&& after.engine.cursor == old.cursor
            },
            _ => {
                &&& tick is Resynced
                &&& cloned(genesis, after.engine.fold)
                &&& after.engine.cursor is None
                &&& after.engine.window.len() == 0
                &&& after.engine.capacity == old.capacity
                &&& after.engine.slots.len() == old.slots.len()
                &&& forall|k: int|
                    0 <= k < after.engine.slots.len() ==> (#[trigger] after.engine.slots[k])
                        is None
                &&& after.engine.status is Active
                &&& after.engine.skips == 0
            },
        }
}

/// The engine once slot `k` is restored: its fold and cursor, the observed blocks up to the
/// cursor's, which all lie on the chain, and the slots that do not lie above the fork.
pub open spec fn gone_back<F: Clone, E>(
    chain: Chain<E>,
    old: EngineState<F>,
    k: int,
    new: EngineState<F>,
) -> bool {
    &&& old.slots[k] matches Some(slot)
    &&& cloned(slot.fold, new.fold)
    &&& new.cursor == slot.cursor
    &&& new.status is Active
    &&& new.capacity == old.capacity
    &&& new.skips == old.skips
    &&& retention_laws::begins_with(old.window, new.window)
    &&& observed_on(chain, new.window)
    &&& match new.cursor {
        Some(cursor) => new.window.len() > 0 && new.window.last().number == cursor.block,
        None => new.window.len() == 0,
    }
    &&& new.slots.len() == old.slots.len()
    &&& forall|j: int|
        0 <= j < new.slots.len() ==> {
            &&& (#[trigger] new.slots[j]) is Some ==> new.slots[j] == old.slots[j] && exists|i: int|
                0 <= i < old.window.len() && canonical(chain, #[trigger] old.window[i]) && (
                old.slots[j]->0.cursor matches Some(cursor) ==> cursor.block
                    <= old.window[i].number)
            &&& serves(chain, old, j) ==> new.slots[j] == old.slots[j]
        }
}

/// What a rollback to the last block before the cut restores.
proof fn lemma_goes_back<F: Clone, E>(
    chain: Chain<E>,
    old: EngineState<F>,
    cut: int,
    fold: F,
) -> (k: int)
    requires
        ring::ascending(old.window),
        parted(chain, old.window, cut),
        cut > 0,
        checkpoint::newest_within(old.slots, old.window, old.window[cut - 1].number) matches Some(
            slot,
        ) && cloned(slot.fold, fold),
    ensures
        ({
            let block = old.window[cut - 1].number;
            let slot = checkpoint::newest_within(old.slots, old.window, block)->0;
            &&& serves(chain, old, k)
            &&& old.slots[k] == Some(slot)
            &&& forall|j: int| k < j ==> !#[trigger] serves(chain, old, j)
            &&& gone_back(chain, old, k, engine::rolled_back(old, block, slot, fold))
        }),
{
    let block = old.window[cut - 1].number;
    let slot = checkpoint::newest_within(old.slots, old.window, block)->0;
    let new = engine::rolled_back(old, block, slot, fold);
    let k = retention_laws::lemma_newest_index(old.slots, old.window, block);
    lemma_serves(chain, old, cut, k);
    assert forall|j: int| k < j implies !#[trigger] serves(chain, old, j) by {
        lemma_serves(chain, old, cut, j);
    }
    match slot.cursor {
        Some(cursor) => {
            ring::lemma_count_at_or_below(old.window, cursor.block);
            ring::lemma_at_or_below(old.window, cursor.block);
            assert forall|i: int| 0 <= i < new.window.len() implies canonical(
                chain,
                #[trigger] new.window[i],
            ) by {
                assert(new.window[i] == old.window[i]);
                if i >= cut {
                    assert(old.window[cut - 1].number < old.window[i].number);
                    assert(false);
                }
            }
        },
        None => {},
    }
    assert forall|j: int| 0 <= j < new.slots.len() implies {
        &&& (#[trigger] new.slots[j]) is Some ==> new.slots[j] == old.slots[j] && exists|i: int|
            0 <= i < old.window.len() && canonical(chain, #[trigger] old.window[i]) && (
            old.slots[j]->0.cursor matches Some(cursor) ==> cursor.block <= old.window[i].number)
        &&& serves(chain, old, j) ==> new.slots[j] == old.slots[j]
    } by {
        lemma_serves(chain, old, cut, j);
        assert(canonical(chain, old.window[cut - 1]));
    }
    k
}

/// What recovery from a fork does, in terms of the chain the source is on.
proof fn lemma_recovery<F: Fold + Clone, S: Source<Event = F::Event>, K>(
    chain_of: spec_fn(S) -> Chain<F::Event>,
    on: S,
    config: DriverConfig,
    genesis: F,
    before: DriverState<F, S, K>,
    after: DriverState<F, S, K>,
    tick: Tick,
)
    requires
        chain_laws::serves_chains(chain_of),
        ring::ascending(before.engine.window),
        observed_on(chain_of(on), before.engine.window),
        before.engine.status is Active,
        driver_model::recovered(config, genesis, before, after, tick),
    ensures
        chain_of(after.source) == chain_of(before.source),
        tick is SourceError ==> after.engine == before.engine && !unfailing::<S>(),
        tick is RolledBack || tick is Resynced ==> !after.caught_up,
        tick is RolledBack ==> after.last_checkpoint == before.last_checkpoint,
        tick is Resynced ==> after.scanned_to is None,
        !(tick is SourceError) ==> ({
            let chain = chain_of(before.source);
            ||| exists|k: int| #[trigger]
                serves(chain, before.engine, k) && (forall|j: int|
                    k < j ==> !#[trigger] serves(chain, before.engine, j)) && tick
                    == (Tick::RolledBack { to: before.engine.slots[k]->0.cursor }) && gone_back(
                    chain,
                    before.engine,
                    k,
                    after.engine,
                )
            ||| (forall|k: int| !#[trigger] serves(chain, before.engine, k)) && begun_again(
                config,
                genesis,
                before.engine,
                after,
                tick,
            )
        }),
{
    let chain = chain_of(before.source);
    let window = before.engine.window;
    let (log, end) = choose|log: Seq<Asked<S>>, end: S|
        #![trigger source::asked(before.source, log, end)]
        {
            let window = before.engine.window;
            let probed = DriverState { source: end, ..before };
            &&& source::asked(before.source, log, end)
            &&& match driver_model::bisected(window, log, 0, 0, window.len() as int) {
                None => false,
                Some(None) => {
                    &&& tick == Tick::SourceError
                    &&& after == (DriverState {
                        errors: driver_model::one_more(before.errors),
                        ..probed
                    })
                },
                Some(Some(low)) => if low == 0 {
                    driver_model::restarted(config, genesis, probed, after, tick)
                } else {
                    driver_model::rolled_back_to(
                        config,
                        genesis,
                        probed,
                        window[low - 1].number,
                        after,
                        tick,
                    )
                },
            }
        };
    let probed = DriverState { source: end, ..before };
    assert(chain_model::commits(chain_of(on), chain_of(before.source)));
    lemma_canonical_below(chain_of(on), chain, window);
    lemma_bisected(chain_of, before.source, window, log, end, 0, 0, window.len() as int);
    chain_model::lemma_stays_on_chain(chain_of, before.source, log, end, log.len() as int);
    match driver_model::bisected(window, log, 0, 0, window.len() as int) {
        Some(Some(cut)) => {
            assert(parted(chain, window, cut));
            assert forall|k: int| !(cut > 0 && 0 <= k < before.engine.slots.len()
                && checkpoint::live_in(before.engine.slots[k], window) && checkpoint::within(
                before.engine.slots[k],
                window[cut - 1].number,
            )) implies !#[trigger] serves(chain, before.engine, k) by {
                lemma_serves(chain, before.engine, cut, k);
            }
            if cut == 0 {
                lemma_restart(config, genesis, probed, after, tick);
            } else {
                let ancestor = window[cut - 1].number;
                match engine::rollback_error(probed.engine, ancestor) {
                    None => {
                        let slot = checkpoint::newest_within(
                            probed.engine.slots,
                            probed.engine.window,
                            ancestor,
                        )->0;
                        let fold = choose|fold: F| #[trigger]
                            cloned(slot.fold, fold) && after == (DriverState {
                                engine: engine::rolled_back(probed.engine, ancestor, slot, fold),
                                caught_up: false,
                                last_snapshot: driver_model::clamped(
                                    probed.last_snapshot,
                                    slot.cursor,
                                ),
                                ..probed
                            });
                        let k = lemma_goes_back(chain, before.engine, cut, fold);
                    },
                    Some(RollbackError::NoCheckpointAtOrBelow { .. }) => {
                        assert(before.engine.slots.take(before.engine.slots.len() as int)
                            =~= before.engine.slots);
                        lemma_nothing_within(
                            before.engine,
                            before.engine.slots.len(),
                            ancestor,
                        );
                        lemma_restart(config, genesis, probed, after, tick);
                    },
                    Some(RollbackError::Unrecoverable { .. }) => {},
                }
            }
        },
        Some(None) => {
            let k = choose|k: int| 0 <= k < log.len() && (#[trigger] log[k]).reply is Failed;
            assert(S::answers(
                source::source_before(before.source, log, k),
                log[k].call,
                log[k].after,
                log[k].reply,
            ));
        },
        None => {},
    }
}

/// True for a source that never fails.
pub open spec fn unfailing<S: Source>() -> bool {
    forall|
        before: S,
        call: SourceCall<S::Event>,
        after: S,
        reply: SourceReply<S::Event, S::Error>,
    | #[trigger]
        S::answers(before, call, after, reply) ==> !(reply is Failed)
}

/// What grouping the events of a chain gives: a batch with the layout that is owed.
proof fn lemma_well_shaped<E>(events: Seq<(BlockRef, u32, E)>)
    requires
        chain_model::sorted(events),
    ensures
        ({
            let spans = driver_model::grouped(events);
            &&& batch::well_shaped(spans)
            &&& spans.len() == 0 <==> events.len() == 0
            &&& events.len() > 0 ==> spans.last().block.number == events.last().0.number
                && spans.last().entries.last().0 == events.last().1
            &&& forall|i: int|
                0 <= i < spans.len() ==> exists|k: int|
                    0 <= k < events.len() && (#[trigger] spans[i]).block == (
                    #[trigger] events[k]).0
        }),
    decreases events.len(),
{
    let spans = driver_model::grouped(events);
    if events.len() > 0 {
        let rest = events.drop_last();
        let last = events[events.len() - 1];
        assert forall|i: int, j: int| 0 <= i < j < rest.len() implies chain_model::key_lt(
            #[trigger] rest[i],
            #[trigger] rest[j],
        ) by {
            assert(rest[i] == events[i] && rest[j] == events[j]);
        }
        lemma_well_shaped(rest);
        let fewer = driver_model::grouped(rest);
        let numbers = batch::block_numbers(spans);
        let before = batch::block_numbers(fewer);
        if rest.len() > 0 {
            assert(rest.last() == events[events.len() - 2]);
            assert(chain_model::key_lt(events[events.len() - 2], events[events.len() - 1]));
        }
        let joins = fewer.len() > 0 && fewer.last().block.number == last.0.number;
        assert forall|i: int, j: int| 0 <= i < j < numbers.len() implies numbers[i]
            < numbers[j] by {
            assert(numbers[i] == before[i]);
            if j < fewer.len() {
                assert(numbers[j] == before[j]);
            } else if i < fewer.len() - 1 {
                assert(before[i] < before[fewer.len() - 1]);
            }
        }
        assert forall|i: int| 0 <= i < spans.len() implies (#[trigger] spans[i]).entries.len() > 0
            && batch::strictly_ascending(batch::log_indices(spans[i].entries)) by {
            if i < fewer.len() - 1 || (i < fewer.len() && !joins) {
                assert(spans[i] == fewer[i]);
            } else if joins {
                let old = batch::log_indices(fewer[i].entries);
                let new = batch::log_indices(spans[i].entries);
                assert(fewer[i] == fewer.last());
                assert forall|a: int, b: int| 0 <= a < b < new.len() implies new[a] < new[b] by {
                    assert(new[a] == old[a]);
                    if b < old.len() {
                        assert(new[b] == old[b]);
                    } else if a < old.len() - 1 {
                        assert(old[a] < old[old.len() - 1]);
                    }
                }
            }
        }
        assert forall|i: int| 0 <= i < spans.len() implies exists|k: int|
            0 <= k < events.len() && (#[trigger] spans[i]).block == (#[trigger] events[k]).0 by {
            if i < fewer.len() {
                assert(spans[i].block == fewer[i].block);
                let k = choose|k: int|
                    0 <= k < rest.len() && fewer[i].block == (#[trigger] rest[k]).0;
                assert(rest[k] == events[k]);
            } else {
                assert(spans[i].block == events[events.len() - 1].0);
            }
        }
    }
}

/// A batch read from the chain is refused exactly when the newest observed block has left it.
proof fn lemma_batch_of_chain<F: Fold>(
    old: Chain<F::Event>,
    chain: Chain<F::Event>,
    state: EngineState<F>,
    boundary: Option<BlockRef>,
    spans: Seq<Span<F::Event>>,
    from: int,
    to: int,
)
    requires
        chain_model::commits(old, chain),
        chain_model::sound(chain),
        retention_laws::orderly(state),
        observed_on(old, state.window),
        state.status is Active,
        spans == driver_model::grouped(chain_model::between(chain.events, from, to)),
        boundary == (match state.cursor {
            Some(cursor) => chain_model::header_at(chain, cursor.block),
            None => None,
        }),
    ensures
        !forked(chain, state) ==> engine_model::refusal(state, boundary, spans) is None
            && engine_model::first_fork(state, spans, 0) is None && observed_on(
            chain,
            state.window,
        ),
        forked(chain, state) ==> (engine_model::refusal(state, boundary, spans) matches Some(error)
            && (error is ForkSuspected || error is MissingBoundary)),
{
    let events = chain_model::between(chain.events, from, to);
    let window = state.window;
    chain_model::lemma_between(chain.events, from, to);
    lemma_well_shaped(events);
    batch::lemma_shape_error(spans);
    lemma_canonical_below(old, chain, window);
    if state.cursor is Some {
        ring::lemma_hash_in(window, window.len() - 1);
        assert(window[window.len() - 1] == window.last());
    }
    if !forked(chain, state) {
        assert forall|i: int| 0 <= i < window.len() implies canonical(
            chain,
            #[trigger] window[i],
        ) by {
            assert(canonical(chain, window[window.len() - 1]));
        }
        chain_laws::lemma_one_header(chain, from, to);
        assert forall|i: int| 0 <= i < spans.len() implies !engine_model::forks(
            state,
            (#[trigger] spans[i]).block,
        ) by {
            let k = choose|k: int|
                0 <= k < events.len() && spans[i].block == (#[trigger] events[k]).0;
            let number = spans[i].block.number;
            if ring::observed_in(window, number) {
                let j = choose|j: int|
                    0 <= j < window.len() && (#[trigger] window[j]).number == number;
                ring::lemma_hash_in(window, j);
                assert(canonical(chain, window[j]));
            }
        }
        lemma_no_first_fork(state, spans, 0);
    }
}

proof fn lemma_no_first_fork<F: Fold>(
    state: EngineState<F>,
    spans: Seq<Span<F::Event>>,
    at: int,
)
    requires
        0 <= at,
        forall|i: int|
            0 <= i < spans.len() ==> !engine_model::forks(state, (#[trigger] spans[i]).block),
    ensures
        engine_model::first_fork(state, spans, at) is None,
    decreases spans.len() - at,
{
    if at < spans.len() {
        assert(!engine_model::forks(state, spans[at].block));
        lemma_no_first_fork(state, spans, at + 1);
    }
}

/// A sweep of a source that never fails does not fail.
proof fn lemma_sweep_goes_through<S: Source>(
    start: S,
    log: Seq<Asked<S>>,
    end: S,
    at: int,
    from: u64,
    head: u64,
    window: u64,
    mark: Option<u64>,
)
    requires
        unfailing::<S>(),
        source::asked(start, log, end),
        0 <= at,
    ensures
        driver_model::sweep(log, at, from, head, window, mark) matches Some(swept)
            ==> !swept.failed,
    decreases log.len() - at,
{
    if from <= head && at < log.len() {
        assert(S::answers(
            source::source_before(start, log, at),
            log[at].call,
            log[at].after,
            log[at].reply,
        ));
        let to = driver_model::least(head, driver_model::plus(from, (window - 1) as u64));
        lemma_sweep_goes_through(
            start,
            log,
            end,
            at + 1,
            (to + 1) as u64,
            head,
            window,
            Some(to),
        );
    }
}

/// A scan of a source that never fails does not fail.
proof fn lemma_scan_goes_through<F: Fold, S: Source<Event = F::Event>, K>(
    config: DriverConfig,
    before: DriverState<F, S, K>,
    after: DriverState<F, S, K>,
)
    requires
        driver_model::scan_done(config, before, after, None),
    ensures
        !unfailing::<S>(),
{
    let found = None::<(Option<BlockRef>, Seq<Span<F::Event>>)>;
    let (log, window, entries) = choose|
        log: Seq<Asked<S>>,
        window: u64,
        entries: Seq<(BlockRef, u32, F::Event)>,
    |
        #![trigger source::asked(before.source, log, after.source),
            driver_model::reads_by(before.source, log, before.engine.cursor, window),
            driver_model::grouped(entries)]
        {
            &&& source::asked(before.source, log, after.source)
            &&& driver_model::reads_by(before.source, log, before.engine.cursor, window)
            &&& driver_model::scan_of(
                log,
                before.engine.cursor,
                before.scanned_to,
                config.start_block,
                driver_model::positive(window),
            ) matches Some(scanned)
            &&& after == (DriverState {
                source: after.source,
                scanned_to: scanned.scanned_to,
                ..before
            })
            &&& driver_model::arranged(scanned.entries, entries)
            &&& found == (if scanned.failed {
                None
            } else {
                Some((scanned.boundary, driver_model::grouped(entries)))
            })
        };
    if unfailing::<S>() {
        let at = driver_model::asked_first(before.engine.cursor) - 1;
        assert(log.len() > 0);
        assert(S::answers(
            source::source_before(before.source, log, 0),
            log[0].call,
            log[0].after,
            log[0].reply,
        ));
        assert(at < log.len());
        assert(S::answers(
            source::source_before(before.source, log, at),
            log[at].call,
            log[at].after,
            log[at].reply,
        ));
        lemma_sweep_goes_through(
            before.source,
            log,
            after.source,
            at + 1,
            driver_model::scan_start(
                before.engine.cursor,
                before.scanned_to,
                config.start_block,
            ),
            log[at].reply->Head_0,
            driver_model::positive(window),
            before.scanned_to,
        );
    }
}

/// One tick taken apart: what its scan left, what it found, and how the batch went.
struct Parts<F: Fold, S, K> {
    /// The driver after the scan.
    pub scanned: DriverState<F, S, K>,
    /// Header of the cursor block and the blocks of the batch, unless the scan failed.
    pub found: Option<(Option<BlockRef>, Seq<Span<F::Event>>)>,
    /// What the fold answered.
    pub calls: Seq<Call<F>>,
    /// The engine after the batch.
    pub engine: EngineState<F>,
    /// What the engine answered.
    pub result: Result<ApplySummary, ApplyError<F::Error>>,
    /// The driver before it notes whether the tick moved the cursor.
    pub end: DriverState<F, S, K>,
}

/// True when these are the parts of a tick.
spec fn opened<F: Fold + Clone, S: Source<Event = F::Event>, K: SnapshotSink<F>>(
    config: DriverConfig,
    genesis: F,
    before: DriverState<F, S, K>,
    after: DriverState<F, S, K>,
    tick: Tick,
    parts: Parts<F, S, K>,
) -> bool {
    &&& driver_model::scan_done(
        config,
        DriverState { generation: engine_model::counted(before.generation, 1), ..before },
        parts.scanned,
        parts.found,
    )
    &&& after == (DriverState { advanced: driver_model::moves_forward(tick), ..parts.end })
    &&& match parts.found {
        None => tick is SourceError && parts.end.engine == parts.scanned.engine
            && parts.end.errors == driver_model::one_more(before.errors),
        Some((boundary, spans)) => {
            &&& engine_model::batch_applied(
                parts.scanned.engine,
                boundary,
                spans,
                parts.calls,
                parts.engine,
                parts.result,
            )
            &&& driver_model::batch_followed(
                config,
                genesis,
                DriverState { engine: parts.engine, errors: 0, ..parts.scanned },
                spans.len() == 0,
                parts.result,
                parts.end,
                tick,
            )
        },
    }
}

proof fn lemma_parts<F: Fold + Clone, S: Source<Event = F::Event>, K: SnapshotSink<F>>(
    config: DriverConfig,
    genesis: F,
    before: DriverState<F, S, K>,
    after: DriverState<F, S, K>,
    tick: Tick,
) -> (parts: Parts<F, S, K>)
    requires
        driver_model::ticked(config, genesis, before, after, tick),
        before.engine.status is Active,
    ensures
        opened(config, genesis, before, after, tick, parts),
{
    let end = choose|end: DriverState<F, S, K>| #[trigger]
        driver_model::polled(config, genesis, before, end, tick) && after == (DriverState {
            advanced: driver_model::moves_forward(tick),
            ..end
        });
    let started = DriverState {
        generation: engine_model::counted(before.generation, 1),
        ..before
    };
    let (scanned, found) = choose|
        scanned: DriverState<F, S, K>,
        found: Option<(Option<BlockRef>, Seq<Span<F::Event>>)>,
    | #[trigger]
        driver_model::scan_done(config, started, scanned, found) && match found {
            None => {
                &&& end == (DriverState {
                    errors: driver_model::one_more(before.errors),
                    ..scanned
                })
                &&& tick == Tick::SourceError
            },
            Some((boundary, spans)) => driver_model::batch_polled(
                config,
                genesis,
                scanned,
                boundary,
                spans,
                end,
                tick,
            ),
        };
    match found {
        None => Parts {
            scanned,
            found,
            calls: Seq::empty(),
            engine: scanned.engine,
            result: Err(ApplyError::MissingBoundary),
            end,
        },
        Some((boundary, spans)) => {
            let (calls, engine, result) = choose|
                calls: Seq<Call<F>>,
                engine: EngineState<F>,
                result: Result<ApplySummary, ApplyError<F::Error>>,
            | #[trigger]
                engine_model::batch_applied(scanned.engine, boundary, spans, calls, engine, result)
                    && driver_model::batch_followed(
                    config,
                    genesis,
                    DriverState { engine, errors: 0, ..scanned },
                    spans.len() == 0,
                    result,
                    end,
                    tick,
                );
            Parts { scanned, found, calls, engine, result, end }
        },
    }
}

/// What a batch of the chain comes to: recovery when there is a fork, and otherwise the events
/// that follow the cursor.
proof fn lemma_batch_found<F: Fold + Clone, S: Source<Event = F::Event>, K: SnapshotSink<F>>(
    chain_of: spec_fn(S) -> Chain<F::Event>,
    on: S,
    config: DriverConfig,
    genesis: F,
    before: DriverState<F, S, K>,
    after: DriverState<F, S, K>,
    tick: Tick,
    parts: Parts<F, S, K>,
) -> (to: int)
    requires
        chain_laws::serves_chains(chain_of),
        retention_laws::orderly(before.engine),
        observed_on(chain_of(on), before.engine.window),
        before.engine.status is Active,
        opened(config, genesis, before, after, tick, parts),
        parts.found is Some,
    ensures
        ({
            let chain = chain_of(before.source);
            let (boundary, spans) = parts.found->0;
            let from = driver_model::scan_start(
                before.engine.cursor,
                before.scanned_to,
                config.start_block,
            );
            let all = engine_model::all_entries(spans);
            &&& parts.scanned.engine == before.engine
            &&& chain_of(parts.scanned.source) == chain
            &&& from - 1 <= to
            &&& all == chain_model::entries_between(chain, from as int, to)
            &&& spans.len() == 0 <==> all.len() == 0
            &&& all.len() == 0 ==> to >= chain.head
            &&& forked(chain, before.engine) ==> parts.engine == before.engine && (
            parts.result matches Err(error) && (error is ForkSuspected
                || error is MissingBoundary))
            &&& !forked(chain, before.engine) ==> engine_model::refusal(
                before.engine,
                boundary,
                spans,
            ) is None && engine_model::first_fork(before.engine, spans, 0) is None
        }),
{
    let chain = chain_of(before.source);
    let started = DriverState {
        generation: engine_model::counted(before.generation, 1),
        ..before
    };
    let (boundary, spans) = parts.found->0;
    let to = chain_laws::lemma_scan_finds(
        chain_of,
        config,
        started,
        parts.scanned,
        boundary,
        spans,
    );
    let from = driver_model::scan_start(
        before.engine.cursor,
        before.scanned_to,
        config.start_block,
    );
    let events = chain_model::between(chain.events, from as int, to);
    chain_laws::lemma_one_header(chain, from as int, to);
    chain_model::lemma_grouped_entries(events);
    assert(chain_model::commits(chain_of(on), chain_of(before.source)));
    lemma_batch_of_chain(
        chain_of(on),
        chain,
        before.engine,
        boundary,
        spans,
        from as int,
        to,
    );
    to
}

/// Starting again looks only at the engine and the source.
proof fn lemma_begun_frame<F: Clone, S: Source, K>(
    config: DriverConfig,
    genesis: F,
    old: EngineState<F>,
    end: DriverState<F, S, K>,
    after: DriverState<F, S, K>,
    tick: Tick,
)
    requires
        begun_again(config, genesis, old, end, tick),
        after.engine == end.engine,
        after.source == end.source,
    ensures
        begun_again(config, genesis, old, after, tick),
{
}

/// A fork is recovered from as far as the chain allows. When the newest observed block has left
/// the chain that the source is on, the tick restores the newest checkpoint that does not lie
/// above the highest observed block still on the chain; only when there is none does it start
/// again, or give up when the source cannot replay from the start. A source that fails may put
/// this off, and the engine is then as it was.
pub proof fn law_fork_restores_the_newest_checkpoint_below_it<
    F: Fold + Clone,
    S: Source<Event = F::Event>,
    K: SnapshotSink<F>,
>(
    chain_of: spec_fn(S) -> Chain<F::Event>,
    on: S,
    config: DriverConfig,
    genesis: F,
    before: DriverState<F, S, K>,
    after: DriverState<F, S, K>,
    tick: Tick,
)
    requires
        chain_laws::serves_chains(chain_of),
        retention_laws::orderly(before.engine),
        observed_on(chain_of(on), before.engine.window),
        before.engine.status is Active,
        driver_model::ticked(config, genesis, before, after, tick),
        forked(chain_of(before.source), before.engine),
    ensures
        tick is SourceError ==> after.engine == before.engine && !unfailing::<S>(),
        tick is RolledBack || tick is Resynced ==> !after.caught_up,
        tick is RolledBack ==> after.last_checkpoint == before.last_checkpoint,
        tick is Resynced ==> after.scanned_to is None,
        !(tick is SourceError) && (exists|k: int| #[trigger]
            serves(chain_of(before.source), before.engine, k)) ==> exists|k: int| #[trigger]
            serves(chain_of(before.source), before.engine, k) && (forall|j: int|
                k < j ==> !#[trigger] serves(chain_of(before.source), before.engine, j)) && tick
                == (Tick::RolledBack { to: before.engine.slots[k]->0.cursor }) && gone_back(
                chain_of(before.source),
                before.engine,
                k,
                after.engine,
            ),
        !(tick is SourceError) && (forall|k: int| !#[trigger]
            serves(chain_of(before.source), before.engine, k)) ==> begun_again(
            config,
            genesis,
            before.engine,
            after,
            tick,
        ),
{
    let chain = chain_of(before.source);
    let parts = lemma_parts(config, genesis, before, after, tick);
    if parts.found is None {
        lemma_scan_goes_through(
            config,
            DriverState {
                generation: engine_model::counted(before.generation, 1),
                ..before
            },
            parts.scanned,
        );
    } else {
        let to = lemma_batch_found(
            chain_of,
            on,
            config,
            genesis,
            before,
            after,
            tick,
            parts,
        );
        let applied = DriverState { engine: parts.engine, errors: 0, ..parts.scanned };
        assert(driver_model::recovered(config, genesis, applied, parts.end, tick));
        lemma_recovery(chain_of, on, config, genesis, applied, parts.end, tick);
        if begun_again(config, genesis, before.engine, parts.end, tick) {
            lemma_begun_frame(config, genesis, before.engine, parts.end, after, tick);
        }
    }
}

/// A driver whose newest observed block is still on the chain goes on from its cursor. The tick
/// hands the fold every event of the chain from behind the cursor's block, or from the start
/// block, up to some block, in chain order and none twice; that is at least one event unless
/// the chain holds none there, and then the tick is idle. Nothing is rolled back and nothing
/// starts again; the tick ends the driver only when the fold stopped.
pub proof fn law_tick_takes_the_next_events<
    F: Fold + Clone,
    S: Source<Event = F::Event>,
    K: SnapshotSink<F>,
>(
    chain_of: spec_fn(S) -> Chain<F::Event>,
    on: S,
    config: DriverConfig,
    genesis: F,
    before: DriverState<F, S, K>,
    after: DriverState<F, S, K>,
    tick: Tick,
    low: int,
)
    requires
        chain_laws::serves_chains(chain_of),
        chain_laws::on_chain(genesis, chain_of(on), config.start_block, before.engine),
        before.engine.status is Active,
        before.engine.cursor matches Some(cursor) ==> cursor.block < u64::MAX && (
        before.scanned_to matches Some(scanned) ==> cursor.block <= scanned),
        driver_model::ticked(config, genesis, before, after, tick),
        !forked(chain_of(before.source), before.engine),
        chain_of(before.source).events.len() <= u64::MAX,
        low == (match before.engine.cursor {
            Some(cursor) => cursor.block + 1,
            None => config.start_block as int,
        }),
    ensures
        !(tick is RolledBack) && !(tick is Resynced),
        tick is SourceError ==> after.engine.fold == before.engine.fold && after.engine.cursor
            == before.engine.cursor && !unfailing::<S>(),
        tick is Terminal ==> !(after.engine.status is Active) && tick == Tick::Terminal(
            after.engine.status,
        ),
        driver_laws::applies(tick) ==> exists|to: int|
            #![trigger chain_model::entries_between(chain_of(before.source), low, to)]
            {
                let chain = chain_of(before.source);
                let entries = chain_model::entries_between(chain, low, to);
                &&& entries.len() == 0 ==> chain_model::entries_between(
                    chain,
                    low,
                    chain.head as int,
                ).len() == 0
                &&& chain_laws::folded(before.engine.fold, entries, after.engine.fold)
                &&& after.engine.cursor == (if entries.len() == 0 {
                    before.engine.cursor
                } else {
                    Some(entries.last().pos)
                })
                &&& tick is Idle ==> entries.len() == 0
                &&& tick matches Tick::Progressed(summary) ==> entries.len() > 0 && summary.applied
                    + summary.skipped == entries.len() && summary.deduped == 0
                &&& after.caught_up == (entries.len() == 0)
            },
{
    let start = config.start_block;
    let chain = chain_of(before.source);
    let parts = lemma_parts(config, genesis, before, after, tick);
    if parts.found is None {
        lemma_scan_goes_through(
            config,
            DriverState {
                generation: engine_model::counted(before.generation, 1),
                ..before
            },
            parts.scanned,
        );
    } else {
        assert forall|i: int| 0 <= i < before.engine.window.len() implies canonical(
            chain_of(on),
            #[trigger] before.engine.window[i],
        ) by {
            assert(chain_model::header_at(
                chain_of(on),
                before.engine.window[i].number,
            ) == Some(before.engine.window[i]));
        }
        let to = lemma_batch_found(
            chain_of,
            on,
            config,
            genesis,
            before,
            after,
            tick,
            parts,
        );
        let (boundary, spans) = parts.found->0;
        lemma_fresh_above(genesis, chain_of(on), chain, start, before.engine, low, to);
        let todo = chain_model::entries_between(chain, low, to);
        assert(driver_model::scan_start(before.engine.cursor, before.scanned_to, start) == low);
        assert(engine_model::all_entries(spans) == todo);
        assert(engine_model::fresh(todo, before.engine.cursor) == todo);
        match parts.result {
            Ok(summary) => {
                lemma_range_is_short(chain.events, low, to);
                lemma_batch_took(
                    before.engine,
                    boundary,
                    spans,
                    parts.calls,
                    parts.engine,
                    summary,
                    todo,
                );
                lemma_rules_keep(
                    config,
                    DriverState { engine: parts.engine, errors: 0, ..parts.scanned },
                    spans.len() == 0,
                    summary,
                    parts.end,
                    tick,
                );
                if todo.len() == 0 {
                    chain_model::lemma_empty_part(chain.events, low, to, low, chain.head as int);
                }
            },
            Err(error) => {
                chain_laws::lemma_stop_deactivates(
                    before.engine,
                    boundary,
                    spans,
                    parts.calls,
                    parts.engine,
                    error,
                );
            },
        }
    }
}

/// What was read from behind the cursor is all new.
proof fn lemma_fresh_above<F: Fold>(
    genesis: F,
    old: Chain<F::Event>,
    chain: Chain<F::Event>,
    start: u64,
    state: EngineState<F>,
    low: int,
    to: int,
)
    requires
        chain_model::sound(chain),
        chain_model::commits(old, chain),
        chain_laws::on_chain(genesis, old, start, state),
        !forked(chain, state),
        low - 1 <= to,
        low == (match state.cursor {
            Some(cursor) => cursor.block + 1,
            None => start as int,
        }),
        low <= u64::MAX,
    ensures
        engine_model::fresh(chain_model::entries_between(chain, low, to), state.cursor)
            == chain_model::entries_between(chain, low, to),
{
    chain_laws::lemma_on_confirmed_chain(genesis, old, chain, start, state);
    chain_laws::lemma_fresh_range(chain, start, state.cursor, low as u64, to);
}

/// What a batch of new events that went through leaves.
proof fn lemma_batch_took<F: Fold>(
    before: EngineState<F>,
    boundary: Option<BlockRef>,
    spans: Seq<Span<F::Event>>,
    calls: Seq<Call<F>>,
    after: EngineState<F>,
    summary: ApplySummary,
    todo: Seq<Entry<F::Event>>,
)
    requires
        todo.len() <= u64::MAX,
        engine_model::batch_applied(before, boundary, spans, calls, after, Ok(summary)),
        engine_model::all_entries(spans) == todo,
        engine_model::fresh(todo, before.cursor) == todo,
    ensures
        chain_laws::folded(before.fold, todo, after.fold),
        after.cursor == (if todo.len() == 0 {
            before.cursor
        } else {
            Some(todo.last().pos)
        }),
        summary.applied + summary.skipped == todo.len(),
        summary.deduped == 0,
{
    assert(engine_model::calls_follow(before.fold, todo, calls));
    assert(!engine_model::stopped(calls));
    assert(calls.len() == todo.len());
    assert(summary.applied + summary.skipped == todo.len()) by {
        lemma_counts_add_up(calls);
        assert forall|i: int| 0 <= i < calls.len() implies !engine_model::stops(
            (#[trigger] calls[i]).outcome,
        ) by {
            if i == calls.len() - 1 {
                assert(calls[i] == calls.last());
            }
        }
    }
    let begun = engine_model::confirmed(before, boundary);
    assert(after.cursor == engine_model::advanced_over(begun, todo).cursor) by {
        assert(todo.take(engine_model::consumed_count(calls)) =~= todo);
    }
    engine_model::lemma_advanced_over_cursor(begun, todo);
}

/// A range holds no more events than the chain.
proof fn lemma_range_is_short<E>(events: Seq<(BlockRef, u32, E)>, low: int, high: int)
    ensures
        chain_model::between(events, low, high).len() <= events.len(),
    decreases events.len(),
{
    reveal(Seq::filter);
    if events.len() > 0 {
        lemma_range_is_short(events.drop_last(), low, high);
    }
}

/// Every event is accepted or skipped, unless it stops the fold.
proof fn lemma_counts_add_up<F: Fold>(calls: Seq<Call<F>>)
    ensures
        engine_model::applied_count(calls) + engine_model::skipped_count(calls) <= calls.len(),
        (forall|i: int| 0 <= i < calls.len() ==> !engine_model::stops((#[trigger] calls[i]).outcome))
            ==> engine_model::applied_count(calls) + engine_model::skipped_count(calls)
            == calls.len(),
    decreases calls.len(),
{
    if calls.len() > 0 {
        let rest = calls.drop_last();
        lemma_counts_add_up(rest);
        if forall|i: int|
            0 <= i < calls.len() ==> !engine_model::stops((#[trigger] calls[i]).outcome) {
            assert forall|i: int| 0 <= i < rest.len() implies !engine_model::stops(
                (#[trigger] rest[i]).outcome,
            ) by {
                assert(rest[i] == calls[i]);
            }
            assert(!engine_model::stops(calls[calls.len() - 1].outcome));
        }
    }
}

/// The rules that run after a batch leave the fold and the cursor alone.
proof fn lemma_rules_keep<F: Fold + Clone, S, K: SnapshotSink<F>>(
    config: DriverConfig,
    before: DriverState<F, S, K>,
    empty: bool,
    summary: ApplySummary,
    after: DriverState<F, S, K>,
    tick: Tick,
)
    requires
        driver_model::rules_ran(config, before, empty, summary, after, tick),
    ensures
        after.engine.fold == before.engine.fold,
        after.engine.cursor == before.engine.cursor,
        after.caught_up == empty,
        after.errors == before.errors,
        tick is Idle ==> empty,
        tick matches Tick::Progressed(told) ==> !empty && told == summary,
        driver_laws::applies(tick),
{
    let (middle, lost) = choose|middle: DriverState<F, S, K>, lost: bool| #[trigger]
        driver_model::offer_ruled(config, middle, after, lost) && driver_model::checkpoint_ruled(
            config,
            DriverState { caught_up: empty, ..before },
            middle,
        ) && tick == driver_model::progress_tick(lost, empty, summary);
    let noted = DriverState { caught_up: empty, ..before };
    if driver_model::wants_checkpoint(config, noted) {
        let copy = choose|copy: F| #[trigger]
            cloned(noted.engine.fold, copy) && middle == driver_model::checkpointed(noted, copy);
    }
}

/// Starting again from a given horizon: refused when the source replays only from a block above
/// the start block, and then nothing but the status changes; otherwise a new engine of the same
/// size stands at the start, and everything the driver noted of the old one is forgotten.
pub proof fn law_resync_starts_again<F: Clone, S, K>(
    config: DriverConfig,
    genesis: F,
    before: DriverState<F, S, K>,
    horizon: ReplayHorizon,
    after: DriverState<F, S, K>,
    tick: Tick,
)
    requires
        driver_model::resynced(config, genesis, before, horizon, after, tick),
    ensures
        after.source == before.source,
        after.sink == before.sink,
        after.generation == before.generation,
        after.durability_lost == before.durability_lost,
        match horizon {
            ReplayHorizon::FromBlock(first) if first > config.start_block => {
                &&& after.engine.status == EngineStatus::Unrecoverable {
                    cause: DivergenceCause::HorizonExceeded {
                        needed: config.start_block,
                        horizon: first,
                    },
                }
                &&& tick == Tick::Terminal(after.engine.status)
                &&& after.engine.fold == before.engine.fold
                &&& after.engine.cursor == before.engine.cursor
                &&& after.engine.window == before.engine.window
                &&& after.engine.slots == before.engine.slots
                &&& after.scanned_to == before.scanned_to
                &&& after.errors == before.errors
            },
            _ => {
                &&& tick is Resynced
                &&& cloned(genesis, after.engine.fold)
                &&& after.engine.cursor is None
                &&& after.engine.window.len() == 0
                &&& after.engine.capacity == before.engine.capacity
                &&& after.engine.slots.len() == before.engine.slots.len()
                &&& forall|k: int|
                    0 <= k < after.engine.slots.len() ==> (#[trigger] after.engine.slots[k])
                        is None
                &&& after.engine.status is Active
                &&& after.engine.last_verified is None
                &&& after.engine.skips == 0
                &&& after.scanned_to is None
                &&& after.errors == 0
                &&& !after.caught_up
                &&& after.last_checkpoint is None
                &&& after.last_snapshot is None
            },
        },
{
}

/// Source errors are counted in a row: a failed scan adds one, up to the largest count of 32
/// bits, and an error after a scan that went through is the first of a new row. Every other
/// tick of an active engine ends the row.
pub proof fn law_source_errors_are_counted_in_a_row<
    F: Fold + Clone,
    S: Source<Event = F::Event>,
    K: SnapshotSink<F>,
>(
    config: DriverConfig,
    genesis: F,
    before: DriverState<F, S, K>,
    after: DriverState<F, S, K>,
    tick: Tick,
)
    requires
        driver_model::ticked(config, genesis, before, after, tick),
        before.engine.status is Active,
    ensures
        tick is SourceError ==> after.errors == 1 || (before.errors < u32::MAX && after.errors
            == before.errors + 1) || (before.errors == u32::MAX && after.errors == u32::MAX),
        !(tick is SourceError) ==> after.errors == 0,
{
    let parts = lemma_parts(config, genesis, before, after, tick);
    match parts.found {
        None => {},
        Some((boundary, spans)) => {
            let applied = DriverState { engine: parts.engine, errors: 0, ..parts.scanned };
            match parts.result {
                Ok(summary) => {
                    lemma_rules_keep(
                        config,
                        applied,
                        spans.len() == 0,
                        summary,
                        parts.end,
                        tick,
                    );
                },
                Err(error) => {
                    if error is ForkSuspected || error is MissingBoundary
                        || error is CursorBlockUnobserved {
                        lemma_recovery_counts(config, genesis, applied, parts.end, tick);
                    }
                },
            }
        },
    }
}

/// Recovery counts an error of its own as the next, and otherwise leaves none.
proof fn lemma_recovery_counts<F: Fold + Clone, S: Source<Event = F::Event>, K>(
    config: DriverConfig,
    genesis: F,
    before: DriverState<F, S, K>,
    after: DriverState<F, S, K>,
    tick: Tick,
)
    requires
        before.errors == 0,
        driver_model::recovered(config, genesis, before, after, tick),
    ensures
        after.errors == (if tick is SourceError {
            1
        } else {
            0int
        }),
{
    let (log, end) = choose|log: Seq<Asked<S>>, end: S|
        #![trigger source::asked(before.source, log, end)]
        {
            let window = before.engine.window;
            let probed = DriverState { source: end, ..before };
            &&& source::asked(before.source, log, end)
            &&& match driver_model::bisected(window, log, 0, 0, window.len() as int) {
                None => false,
                Some(None) => {
                    &&& tick == Tick::SourceError
                    &&& after == (DriverState {
                        errors: driver_model::one_more(before.errors),
                        ..probed
                    })
                },
                Some(Some(low)) => if low == 0 {
                    driver_model::restarted(config, genesis, probed, after, tick)
                } else {
                    driver_model::rolled_back_to(
                        config,
                        genesis,
                        probed,
                        window[low - 1].number,
                        after,
                        tick,
                    )
                },
            }
        };
    let window = before.engine.window;
    let probed = DriverState { source: end, ..before };
    match driver_model::bisected(window, log, 0, 0, window.len() as int) {
        Some(Some(low)) => {
            let restarts = low == 0 || (engine::rollback_error(
                probed.engine,
                window[low - 1].number,
            ) matches Some(error) && error is NoCheckpointAtOrBelow);
            if restarts {
                let horizon = choose|horizon: ReplayHorizon|
                    source::reports_horizon(probed.source, horizon)
                        && #[trigger] driver_model::resynced(
                        config,
                        genesis,
                        probed,
                        horizon,
                        after,
                        tick,
                    );
            }
        },
        _ => {},
    }
}

} // verus!
