//! What one tick of a driver means.
use vstd::prelude::*;

use crate::batch::Span;
use crate::checkpoint;
use crate::checkpoint::Slot;
use crate::driver::{DriverConfig, Tick};
use crate::engine;
use crate::engine::ApplySummary;
use crate::engine_model;
use crate::engine_model::{Call, EngineState};
use crate::error::{ApplyError, DivergenceCause, DurabilityLost, EngineStatus, RollbackError};
use crate::fold::Fold;
use crate::position::{BlockRef, Position};
use crate::sink::SnapshotSink;
use crate::source;
use crate::source::{Asked, ReplayHorizon, Source, SourceCall, SourceReply};

verus! {

/// Everything a driver remembers that changes from tick to tick.
pub struct DriverState<F, S, K> {
    /// The engine.
    pub engine: EngineState<F>,
    /// The source.
    pub source: S,
    /// The sink.
    pub sink: K,
    /// Last block of the last range read.
    pub scanned_to: Option<u64>,
    /// Source errors in a row.
    pub errors: u32,
    /// True once the most recent poll returned no new blocks.
    pub caught_up: bool,
    /// Ticks so far, in 64 bits.
    pub generation: u64,
    /// Block of the last checkpoint.
    pub last_checkpoint: Option<u64>,
    /// Block of the last snapshot taken.
    pub last_snapshot: Option<u64>,
    /// True once the sink refused an offer.
    pub durability_lost: bool,
    /// True when the last tick moved the cursor forward.
    pub advanced: bool,
}

/// Sum of two numbers, at most the largest of 64 bits.
pub open spec fn plus(a: u64, b: u64) -> u64 {
    if a + b > u64::MAX {
        u64::MAX
    } else {
        (a + b) as u64
    }
}

/// The smaller of two numbers.
pub open spec fn least(a: u64, b: u64) -> u64 {
    if b < a {
        b
    } else {
        a
    }
}

/// One more error in a row.
pub open spec fn one_more(errors: u32) -> u32 {
    if errors == u32::MAX {
        u32::MAX
    } else {
        (errors + 1) as u32
    }
}

/// True when `block` has reached the next interval step past the last marked block.
pub open spec fn is_due(last: Option<u64>, block: u64, interval: u64) -> bool {
    match last {
        Some(last) => block >= plus(last, interval),
        None => true,
    }
}

/// First block to read: behind the cursor, or behind what was read last if that is lower.
pub open spec fn scan_start(
    cursor: Option<Position>,
    scanned_to: Option<u64>,
    start_block: u64,
) -> u64 {
    match cursor {
        Some(cursor) => match scanned_to {
            Some(to) => least(plus(to, 1), (cursor.block + 1) as u64),
            None => (cursor.block + 1) as u64,
        },
        None => start_block,
    }
}

/// Where a scan got to.
pub struct Swept<E> {
    /// True when the source failed.
    pub failed: bool,
    /// Events of the first range that holds any.
    pub entries: Seq<(BlockRef, u32, E)>,
    /// Last block of the last range read.
    pub scanned_to: Option<u64>,
}

/// Reads ranges of `window` blocks from `from` up to `head` until one holds events; None when
/// the log does not show that.
pub open spec fn sweep<S: Source>(
    log: Seq<Asked<S>>,
    at: int,
    from: u64,
    head: u64,
    window: u64,
    mark: Option<u64>,
) -> Option<Swept<S::Event>>
    decreases log.len() - at,
{
    let to = least(head, plus(from, (window - 1) as u64));
    if from > head {
        if at == log.len() {
            Some(Swept { failed: false, entries: Seq::empty(), scanned_to: mark })
        } else {
            None
        }
    } else if at < 0 || at >= log.len() || log[at].call != (SourceCall::<S::Event>::EventsIn {
        from,
        to,
        given: Seq::empty(),
    }) {
        None
    } else {
        match log[at].reply {
            SourceReply::Failed(_) => if at + 1 == log.len() {
                Some(Swept { failed: true, entries: Seq::empty(), scanned_to: mark })
            } else {
                None
            },
            SourceReply::Events(entries) => if entries.len() > 0 || to == head {
                if at + 1 == log.len() {
                    Some(Swept { failed: false, entries, scanned_to: Some(to) })
                } else {
                    None
                }
            } else {
                sweep(log, at + 1, (to + 1) as u64, head, window, Some(to))
            },
            _ => None,
        }
    }
}

/// What a scan finds.
pub struct Scanned<E> {
    /// True when the source failed.
    pub failed: bool,
    /// Header of the cursor block as the source reports it now.
    pub boundary: Option<BlockRef>,
    /// Events of the first range that holds any.
    pub entries: Seq<(BlockRef, u32, E)>,
    /// Last block of the last range read.
    pub scanned_to: Option<u64>,
}

/// A scan that failed before it read a range.
pub open spec fn scan_failed<E>(scanned_to: Option<u64>) -> Scanned<E> {
    Scanned { failed: true, boundary: None, entries: Seq::empty(), scanned_to }
}

/// Asks for the highest block and reads ranges up to it.
pub open spec fn scan_ranges<S: Source>(
    log: Seq<Asked<S>>,
    at: int,
    boundary: Option<BlockRef>,
    from: u64,
    window: u64,
    scanned_to: Option<u64>,
) -> Option<Scanned<S::Event>> {
    if at >= log.len() || log[at].call != SourceCall::<S::Event>::Head {
        None
    } else {
        match log[at].reply {
            SourceReply::Failed(_) => if at + 1 == log.len() {
                Some(scan_failed(scanned_to))
            } else {
                None
            },
            SourceReply::Head(head) => match sweep(
                log,
                at + 1,
                from,
                head,
                window,
                scanned_to,
            ) {
                Some(swept) => Some(
                    Scanned {
                        failed: swept.failed,
                        boundary,
                        entries: swept.entries,
                        scanned_to: swept.scanned_to,
                    },
                ),
                None => None,
            },
            _ => None,
        }
    }
}

/// What a scan asks of the source and what it makes of the answers; None when the log does not
/// show a scan.
pub open spec fn scan_of<S: Source>(
    log: Seq<Asked<S>>,
    cursor: Option<Position>,
    scanned_to: Option<u64>,
    start_block: u64,
    window: u64,
) -> Option<Scanned<S::Event>> {
    let from = scan_start(cursor, scanned_to, start_block);
    match cursor {
        None => scan_ranges(log, 0, None, from, window, scanned_to),
        Some(cursor) => if log.len() == 0 || log[0].call != SourceCall::<S::Event>::HeaderAt(
            cursor.block,
        ) {
            None
        } else {
            match log[0].reply {
                SourceReply::Failed(_) => if log.len() == 1 {
                    Some(scan_failed(scanned_to))
                } else {
                    None
                },
                SourceReply::Header(header) => scan_ranges(
                    log,
                    1,
                    header,
                    from,
                    window,
                    scanned_to,
                ),
                _ => None,
            }
        },
    }
}

/// Chain order of entries: by block number, then by log index.
pub open spec fn key_le<E>(a: (BlockRef, u32, E), b: (BlockRef, u32, E)) -> bool {
    a.0.number < b.0.number || (a.0.number == b.0.number && a.1 <= b.1)
}

/// True when entries share block number and log index.
pub open spec fn key_is<E>(entry: (BlockRef, u32, E), number: u64, log_index: u32) -> bool {
    entry.0.number == number && entry.1 == log_index
}

/// The entries of one key, in order.
pub open spec fn with_key<E>(
    entries: Seq<(BlockRef, u32, E)>,
    number: u64,
    log_index: u32,
) -> Seq<(BlockRef, u32, E)> {
    entries.filter(|entry: (BlockRef, u32, E)| key_is(entry, number, log_index))
}

/// True when `after` holds the entries of `before` in chain order, those with one key in the
/// order they came.
pub open spec fn arranged<E>(
    before: Seq<(BlockRef, u32, E)>,
    after: Seq<(BlockRef, u32, E)>,
) -> bool {
    &&& after.len() == before.len()
    &&& forall|i: int, j: int|
        0 <= i <= j < after.len() ==> key_le(#[trigger] after[i], #[trigger] after[j])
    &&& forall|number: u64, log_index: u32| #[trigger]
        with_key(after, number, log_index) == with_key(before, number, log_index)
}

/// Entries grouped by runs of one block number, under the header that came first.
pub open spec fn grouped<E>(entries: Seq<(BlockRef, u32, E)>) -> Seq<Span<E>>
    decreases entries.len(),
{
    if entries.len() == 0 {
        Seq::empty()
    } else {
        let spans = grouped(entries.drop_last());
        let (block, log_index, event) = entries.last();
        if spans.len() > 0 && spans.last().block.number == block.number {
            spans.update(
                spans.len() - 1,
                Span {
                    block: spans.last().block,
                    entries: spans.last().entries.push((log_index, event)),
                },
            )
        } else {
            spans.push(Span { block, entries: seq![(log_index, event)] })
        }
    }
}

/// A window as the scan uses it: at least one block.
pub open spec fn positive(window: u64) -> u64 {
    if window == 0 {
        1
    } else {
        window
    }
}

/// The number of questions a scan asks before it reads ranges.
pub open spec fn asked_first(cursor: Option<Position>) -> int {
    if cursor is Some {
        2
    } else {
        1
    }
}

/// True for the window that a scan reads by: what the source reports once it has named its
/// highest block.
pub open spec fn reads_by<S: Source>(
    start: S,
    log: Seq<Asked<S>>,
    cursor: Option<Position>,
    window: u64,
) -> bool {
    let at = asked_first(cursor);
    at <= log.len() && log[at - 1].reply is Head ==> source::reports_window(
        source::source_before(start, log, at),
        window,
    )
}

/// A scan and what it leaves of the driver: the spans of the range it stopped at, or None when
/// the source failed.
pub open spec fn scan_done<F: Fold, S: Source<Event = F::Event>, K>(
    config: DriverConfig,
    before: DriverState<F, S, K>,
    after: DriverState<F, S, K>,
    found: Option<(Option<BlockRef>, Seq<Span<F::Event>>)>,
) -> bool {
    exists|log: Seq<Asked<S>>, window: u64, entries: Seq<(BlockRef, u32, F::Event)>|
        #![trigger source::asked(before.source, log, after.source),
            reads_by(before.source, log, before.engine.cursor, window), grouped(entries)]
        {
            &&& source::asked(before.source, log, after.source)
            &&& reads_by(before.source, log, before.engine.cursor, window)
            &&& scan_of(
                log,
                before.engine.cursor,
                before.scanned_to,
                config.start_block,
                positive(window),
            ) matches Some(scanned)
            &&& after == (DriverState {
                source: after.source,
                scanned_to: scanned.scanned_to,
                ..before
            })
            &&& arranged(scanned.entries, entries)
            &&& found == (if scanned.failed {
                None
            } else {
                Some((scanned.boundary, grouped(entries)))
            })
        }
}

/// True when the checkpoint rule asks for a checkpoint.
pub open spec fn wants_checkpoint<F, S, K>(
    config: DriverConfig,
    state: DriverState<F, S, K>,
) -> bool {
    &&& config.checkpoint_interval matches Some(interval)
    &&& state.engine.cursor matches Some(cursor)
    &&& is_due(state.last_checkpoint, cursor.block, interval)
}

/// A checkpoint that copied the fold to `copy`, and its mark.
pub open spec fn checkpointed<F, S, K>(
    state: DriverState<F, S, K>,
    copy: F,
) -> DriverState<F, S, K> {
    DriverState {
        engine: if state.engine.status is Active {
            EngineState {
                slots: checkpoint::stored(
                    state.engine.slots,
                    Slot { fold: copy, cursor: state.engine.cursor },
                ),
                ..state.engine
            }
        } else {
            state.engine
        },
        last_checkpoint: match state.engine.cursor {
            Some(cursor) => Some(cursor.block),
            None => state.last_checkpoint,
        },
        ..state
    }
}

/// What a forced checkpoint does.
pub open spec fn checkpoint_taken<F: Clone, S, K>(
    before: DriverState<F, S, K>,
    after: DriverState<F, S, K>,
) -> bool {
    exists|copy: F| #[trigger]
        cloned(before.engine.fold, copy) && after == checkpointed(before, copy)
}

/// What the interval-based checkpoint rule does.
pub open spec fn checkpoint_ruled<F: Clone, S, K>(
    config: DriverConfig,
    before: DriverState<F, S, K>,
    after: DriverState<F, S, K>,
) -> bool {
    if wants_checkpoint(config, before) {
        checkpoint_taken(before, after)
    } else {
        after == before
    }
}

/// The durable point of an engine.
pub open spec fn durable_point<F>(state: EngineState<F>) -> Option<Position> {
    match checkpoint::oldest_live(state.slots, state.window) {
        Some(slot) => slot.cursor,
        None => None,
    }
}

/// True when the snapshot rule asks for an offer.
pub open spec fn wants_offer<F, S, K>(config: DriverConfig, state: DriverState<F, S, K>) -> bool {
    &&& !state.durability_lost
    &&& config.snapshot_interval matches Some(interval)
    &&& durable_point(state.engine) matches Some(point)
    &&& is_due(state.last_snapshot, point.block, interval)
}

/// What the interval-based snapshot rule does; `lost` when the sink refused.
pub open spec fn offer_ruled<F: Fold, S, K: SnapshotSink<F>>(
    config: DriverConfig,
    before: DriverState<F, S, K>,
    after: DriverState<F, S, K>,
    lost: bool,
) -> bool {
    if wants_offer(config, before) {
        &&& K::offered(before.sink, before.engine, after.sink, lost)
        &&& after == (if lost {
            DriverState { sink: after.sink, durability_lost: true, ..before }
        } else {
            DriverState {
                sink: after.sink,
                last_snapshot: Some(durable_point(before.engine)->0.block),
                ..before
            }
        })
    } else {
        after == before && !lost
    }
}

/// The snapshot mark after a rollback: not above the restored block, and none without one.
pub open spec fn clamped(mark: Option<u64>, to: Option<Position>) -> Option<u64> {
    match (mark, to) {
        (Some(mark), Some(point)) => Some(least(mark, point.block)),
        _ => None,
    }
}

/// What restarting from genesis does, given the horizon that the source reports.
pub open spec fn resynced<F: Clone, S, K>(
    config: DriverConfig,
    genesis: F,
    before: DriverState<F, S, K>,
    horizon: ReplayHorizon,
    after: DriverState<F, S, K>,
    tick: Tick,
) -> bool {
    if horizon matches ReplayHorizon::FromBlock(horizon) && horizon > config.start_block {
        let cause = DivergenceCause::HorizonExceeded {
            needed: config.start_block,
            horizon: horizon->FromBlock_0,
        };
        let status = EngineStatus::Unrecoverable { cause };
        &&& after == (DriverState { engine: EngineState { status, ..before.engine }, ..before })
        &&& tick == Tick::Terminal(status)
    } else {
        &&& tick == Tick::Resynced
        &&& exists|copy: F| #[trigger]
            cloned(genesis, copy) && after == (DriverState {
                engine: engine::genesis(copy, before.engine.capacity, before.engine.slots.len()),
                caught_up: false,
                errors: 0,
                scanned_to: None,
                last_checkpoint: None,
                last_snapshot: None,
                ..before
            })
    }
}

/// What restarting from genesis does, for the horizon that the source reports.
pub open spec fn restarted<F: Clone, S: Source, K>(
    config: DriverConfig,
    genesis: F,
    before: DriverState<F, S, K>,
    after: DriverState<F, S, K>,
    tick: Tick,
) -> bool {
    exists|horizon: ReplayHorizon|
        source::reports_horizon(before.source, horizon) && #[trigger] resynced(
            config,
            genesis,
            before,
            horizon,
            after,
            tick,
        )
}

/// What rolling back to an ancestor does; without a checkpoint to restore it restarts.
pub open spec fn rolled_back_to<F: Clone, S: Source, K>(
    config: DriverConfig,
    genesis: F,
    before: DriverState<F, S, K>,
    ancestor: u64,
    after: DriverState<F, S, K>,
    tick: Tick,
) -> bool {
    match engine::rollback_error(before.engine, ancestor) {
        None => {
            let slot = checkpoint::newest_within(
                before.engine.slots,
                before.engine.window,
                ancestor,
            )->0;
            &&& tick == (Tick::RolledBack { to: slot.cursor })
            &&& exists|fold: F| #[trigger]
                cloned(slot.fold, fold) && after == (DriverState {
                    engine: engine::rolled_back(before.engine, ancestor, slot, fold),
                    caught_up: false,
                    last_snapshot: clamped(before.last_snapshot, slot.cursor),
                    ..before
                })
        },
        Some(RollbackError::NoCheckpointAtOrBelow { .. }) => restarted(
            config,
            genesis,
            before,
            after,
            tick,
        ),
        Some(RollbackError::Unrecoverable { cause }) => {
            &&& after == before
            &&& tick == Tick::Terminal(EngineStatus::Unrecoverable { cause })
        },
    }
}

/// Halves the observed blocks between `low` and `high` by asking for headers: blocks below the
/// result are still canonical. The outer None means that the log does not show that, the
/// inner one that the source failed.
pub open spec fn bisected<S: Source>(
    window: Seq<BlockRef>,
    log: Seq<Asked<S>>,
    at: int,
    low: int,
    high: int,
) -> Option<Option<int>>
    decreases log.len() - at,
{
    let mid = low + (high - low) / 2;
    if low >= high {
        if at == log.len() {
            Some(Some(low))
        } else {
            None
        }
    } else if at < 0 || at >= log.len() || log[at].call != SourceCall::<S::Event>::HeaderAt(
        window[mid].number,
    ) {
        None
    } else {
        match log[at].reply {
            SourceReply::Failed(_) => if at + 1 == log.len() {
                Some(None)
            } else {
                None
            },
            SourceReply::Header(Some(header)) => if header.hash == window[mid].hash {
                bisected(window, log, at + 1, mid + 1, high)
            } else {
                bisected(window, log, at + 1, low, mid)
            },
            SourceReply::Header(None) => bisected(window, log, at + 1, low, mid),
            _ => None,
        }
    }
}

/// What recovery from a suspected fork does.
pub open spec fn recovered<F: Fold + Clone, S: Source<Event = F::Event>, K>(
    config: DriverConfig,
    genesis: F,
    before: DriverState<F, S, K>,
    after: DriverState<F, S, K>,
    tick: Tick,
) -> bool {
    exists|log: Seq<Asked<S>>, end: S|
        #![trigger source::asked(before.source, log, end)]
        {
            let window = before.engine.window;
            let probed = DriverState { source: end, ..before };
            &&& source::asked(before.source, log, end)
            &&& match bisected(window, log, 0, 0, window.len() as int) {
                None => false,
                Some(None) => {
                    &&& tick == Tick::SourceError
                    &&& after == (DriverState { errors: one_more(before.errors), ..probed })
                },
                Some(Some(low)) => if low == 0 {
                    restarted(config, genesis, probed, after, tick)
                } else {
                    rolled_back_to(
                        config,
                        genesis,
                        probed,
                        window[low - 1].number,
                        after,
                        tick,
                    )
                },
            }
        }
}

/// The tick that reports an applied batch.
pub open spec fn progress_tick(lost: bool, empty: bool, summary: ApplySummary) -> Tick {
    if lost {
        Tick::DurabilityLost
    } else if empty {
        Tick::Idle
    } else {
        Tick::Progressed(summary)
    }
}

/// What the rules do once a batch is applied.
pub open spec fn rules_ran<F: Fold + Clone, S, K: SnapshotSink<F>>(
    config: DriverConfig,
    before: DriverState<F, S, K>,
    empty: bool,
    summary: ApplySummary,
    after: DriverState<F, S, K>,
    tick: Tick,
) -> bool {
    exists|middle: DriverState<F, S, K>, lost: bool| #[trigger]
        offer_ruled(config, middle, after, lost) && checkpoint_ruled(
            config,
            DriverState { caught_up: empty, ..before },
            middle,
        ) && tick == progress_tick(lost, empty, summary)
}

/// What follows the application of a batch.
pub open spec fn batch_followed<F: Fold + Clone, S: Source<Event = F::Event>, K: SnapshotSink<F>>(
    config: DriverConfig,
    genesis: F,
    before: DriverState<F, S, K>,
    empty: bool,
    result: Result<ApplySummary, ApplyError<F::Error>>,
    after: DriverState<F, S, K>,
    tick: Tick,
) -> bool {
    match result {
        Ok(summary) => rules_ran(config, before, empty, summary, after, tick),
        Err(error) => match error {
            ApplyError::ForkSuspected { .. }
            | ApplyError::MissingBoundary
            | ApplyError::CursorBlockUnobserved { .. } => recovered(
                config,
                genesis,
                before,
                after,
                tick,
            ),
            ApplyError::Halted { .. } | ApplyError::Poisoned { .. } => {
                &&& after == before
                &&& tick == Tick::Terminal(before.engine.status)
            },
            ApplyError::Shape(_) | ApplyError::BoundaryNumberMismatch { .. } => {
                &&& after == (DriverState { errors: one_more(before.errors), ..before })
                &&& tick == Tick::SourceError
            },
            ApplyError::NotActive { .. } => false,
        },
    }
}

/// What one poll does: scan, apply, then the rules or recovery.
pub open spec fn polled<F: Fold + Clone, S: Source<Event = F::Event>, K: SnapshotSink<F>>(
    config: DriverConfig,
    genesis: F,
    before: DriverState<F, S, K>,
    after: DriverState<F, S, K>,
    tick: Tick,
) -> bool {
    let started = DriverState {
        generation: engine_model::counted(before.generation, 1),
        ..before
    };
    if !(before.engine.status is Active) {
        after == started && tick == Tick::Terminal(before.engine.status)
    } else {
        exists|
            scanned: DriverState<F, S, K>,
            found: Option<(Option<BlockRef>, Seq<Span<F::Event>>)>,
        | #[trigger]
            scan_done(config, started, scanned, found) && match found {
                None => {
                    &&& after == (DriverState { errors: one_more(before.errors), ..scanned })
                    &&& tick == Tick::SourceError
                },
                Some((boundary, spans)) => batch_polled(
                    config,
                    genesis,
                    scanned,
                    boundary,
                    spans,
                    after,
                    tick,
                ),
            }
    }
}

/// What one poll does with the batch it scanned.
pub open spec fn batch_polled<F: Fold + Clone, S: Source<Event = F::Event>, K: SnapshotSink<F>>(
    config: DriverConfig,
    genesis: F,
    scanned: DriverState<F, S, K>,
    boundary: Option<BlockRef>,
    spans: Seq<Span<F::Event>>,
    after: DriverState<F, S, K>,
    tick: Tick,
) -> bool {
    exists|
        calls: Seq<Call<F>>,
        engine: EngineState<F>,
        result: Result<ApplySummary, ApplyError<F::Error>>,
    | #[trigger]
        engine_model::batch_applied(scanned.engine, boundary, spans, calls, engine, result)
            && batch_followed(
            config,
            genesis,
            DriverState { engine, errors: 0, ..scanned },
            spans.len() == 0,
            result,
            after,
            tick,
        )
}

/// True when a tick moved the cursor forward.
pub open spec fn moves_forward(tick: Tick) -> bool {
    tick matches Tick::Progressed(summary) && (summary.applied > 0 || summary.skipped > 0)
}

/// What one tick does: a poll, and a note whether it moved the cursor forward.
pub open spec fn ticked<F: Fold + Clone, S: Source<Event = F::Event>, K: SnapshotSink<F>>(
    config: DriverConfig,
    genesis: F,
    before: DriverState<F, S, K>,
    after: DriverState<F, S, K>,
    tick: Tick,
) -> bool {
    exists|end: DriverState<F, S, K>| #[trigger]
        polled(config, genesis, before, end, tick) && after == (DriverState {
            advanced: moves_forward(tick),
            ..end
        })
}

/// A run of ticks, one driver state before each and one after the last. Before each tick the
/// source may have moved to another chain.
pub open spec fn ran<F: Fold + Clone, S: Source<Event = F::Event>, K: SnapshotSink<F>>(
    config: DriverConfig,
    genesis: F,
    states: Seq<DriverState<F, S, K>>,
    sources: Seq<S>,
    ticks: Seq<Tick>,
) -> bool {
    &&& states.len() == ticks.len() + 1
    &&& sources.len() == ticks.len()
    &&& forall|i: int|
        0 <= i < ticks.len() ==> ticked(
            config,
            genesis,
            DriverState { source: sources[i], ..states[i] },
            states[i + 1],
            #[trigger] ticks[i],
        )
}

} // verus!
