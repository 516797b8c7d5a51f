//! What a driver owes to its sink: nothing but durability.
use vstd::prelude::*;

use crate::batch::Span;
use crate::checkpoint;
use crate::driver::{DriverConfig, Tick};
use crate::driver_model;
use crate::driver_model::DriverState;
use crate::engine;
use crate::engine::ApplySummary;
use crate::engine_model;
use crate::engine_model::{Call, EngineState};
use crate::error::{ApplyError, RollbackError};
use crate::fold::Fold;
use crate::position::BlockRef;
use crate::sink::{NoSink, SnapshotSink};
use crate::source;
use crate::source::{Asked, ReplayHorizon, Source};

verus! {

/// Two drivers that differ in their sinks and in what they note about them, and in whether the
/// last tick moved forward, which a tick that reports a lost sink does not say.
pub open spec fn alike<F, S, K>(a: DriverState<F, S, K>, b: DriverState<F, S, NoSink>) -> bool {
    &&& a.engine == b.engine
    &&& a.source == b.source
    &&& a.scanned_to == b.scanned_to
    &&& a.errors == b.errors
    &&& a.caught_up == b.caught_up
    &&& a.generation == b.generation
    &&& a.last_checkpoint == b.last_checkpoint
}

/// Two ticks that report the same, but for a lost sink.
pub open spec fn same_report(a: Tick, b: Tick) -> bool {
    a == b || (a is DurabilityLost && (b is Progressed || b is Idle))
}

proof fn lemma_scan_alike<F: Fold, S: Source<Event = F::Event>, K>(
    config: DriverConfig,
    before: DriverState<F, S, K>,
    after: DriverState<F, S, K>,
    found: Option<(Option<BlockRef>, Seq<Span<F::Event>>)>,
    other: DriverState<F, S, NoSink>,
) -> (end: DriverState<F, S, NoSink>)
    requires
        alike(before, other),
        driver_model::scan_done(config, before, after, found),
    ensures
        alike(after, end),
        driver_model::scan_done(config, other, end, found),
{
    let (log, window, entries) = choose|
        log: Seq<Asked<S>>,
        window: u64,
        entries: Seq<(BlockRef, u32, F::Event)>,
    |
        #![trigger source::asked(before.source, log, after.source),
            driver_model::reads_by(before.source, log, before.engine.cursor, window),
            driver_model::grouped(entries)]
        {
            &&& source::asked(before.source, log, after.source)
            &&& driver_model::reads_by(before.source, log, before.engine.cursor, window)
            &&& driver_model::scan_of(
                log,
                before.engine.cursor,
                before.scanned_to,
                config.start_block,
                driver_model::positive(window),
            ) matches Some(scanned)
            &&& after == (DriverState {
                source: after.source,
                scanned_to: scanned.scanned_to,
                ..before
            })
            &&& driver_model::arranged(scanned.entries, entries)
            &&& found == (if scanned.failed {
                None
            } else {
                Some((scanned.boundary, driver_model::grouped(entries)))
            })
        };
    let end = DriverState { source: after.source, scanned_to: after.scanned_to, ..other };
    let spans = driver_model::grouped(entries);
    assert(source::asked(other.source, log, end.source));
    assert(driver_model::reads_by(other.source, log, other.engine.cursor, window));
    end
}

proof fn lemma_restart_alike<F: Clone, S: Source, K>(
    config: DriverConfig,
    genesis: F,
    before: DriverState<F, S, K>,
    after: DriverState<F, S, K>,
    tick: Tick,
    other: DriverState<F, S, NoSink>,
) -> (end: DriverState<F, S, NoSink>)
    requires
        alike(before, other),
        driver_model::restarted(config, genesis, before, after, tick),
    ensures
        alike(after, end),
        driver_model::restarted(config, genesis, other, end, tick),
{
    let horizon = choose|horizon: ReplayHorizon|
        source::reports_horizon(before.source, horizon) && #[trigger] driver_model::resynced(
            config,
            genesis,
            before,
            horizon,
            after,
            tick,
        );
    let end = if tick is Resynced {
        DriverState {
            engine: after.engine,
            caught_up: false,
            errors: 0,
            scanned_to: None,
            last_checkpoint: None,
            last_snapshot: None,
            ..other
        }
    } else {
        DriverState { engine: after.engine, ..other }
    };
    if tick is Resynced {
        let copy = choose|copy: F| #[trigger]
            cloned(genesis, copy) && after == (DriverState {
                engine: engine::genesis(
                    copy,
                    before.engine.capacity,
                    before.engine.slots.len(),
                ),
                caught_up: false,
                errors: 0,
                scanned_to: None,
                last_checkpoint: None,
                last_snapshot: None,
                ..before
            });
        assert(cloned(genesis, copy));
    }
    assert(driver_model::resynced(config, genesis, other, horizon, end, tick));
    end
}

proof fn lemma_rollback_alike<F: Clone, S: Source, K>(
    config: DriverConfig,
    genesis: F,
    before: DriverState<F, S, K>,
    ancestor: u64,
    after: DriverState<F, S, K>,
    tick: Tick,
    other: DriverState<F, S, NoSink>,
) -> (end: DriverState<F, S, NoSink>)
    requires
        alike(before, other),
        driver_model::rolled_back_to(config, genesis, before, ancestor, after, tick),
    ensures
        alike(after, end),
        driver_model::rolled_back_to(config, genesis, other, ancestor, end, tick),
{
    match engine::rollback_error(before.engine, ancestor) {
        None => {
            let slot = checkpoint::newest_within(
                before.engine.slots,
                before.engine.window,
                ancestor,
            )->0;
            let fold = choose|fold: F| #[trigger]
                cloned(slot.fold, fold) && after == (DriverState {
                    engine: engine::rolled_back(before.engine, ancestor, slot, fold),
                    caught_up: false,
                    last_snapshot: driver_model::clamped(before.last_snapshot, slot.cursor),
                    ..before
                });
            assert(cloned(slot.fold, fold));
            DriverState {
                engine: after.engine,
                caught_up: false,
                last_snapshot: driver_model::clamped(other.last_snapshot, slot.cursor),
                ..other
            }
        },
        Some(RollbackError::NoCheckpointAtOrBelow { .. }) => lemma_restart_alike(
            config,
            genesis,
            before,
            after,
            tick,
            other,
        ),
        Some(RollbackError::Unrecoverable { .. }) => other,
    }
}

proof fn lemma_recovery_alike<F: Fold + Clone, S: Source<Event = F::Event>, K>(
    config: DriverConfig,
    genesis: F,
    before: DriverState<F, S, K>,
    after: DriverState<F, S, K>,
    tick: Tick,
    other: DriverState<F, S, NoSink>,
) -> (end: DriverState<F, S, NoSink>)
    requires
        alike(before, other),
        driver_model::recovered(config, genesis, before, after, tick),
    ensures
        alike(after, end),
        driver_model::recovered(config, genesis, other, end, tick),
{
    let (log, stop) = choose|log: Seq<Asked<S>>, stop: S|
        #![trigger source::asked(before.source, log, stop)]
        {
            let window = before.engine.window;
            let probed = DriverState { source: stop, ..before };
            &&& source::asked(before.source, log, stop)
            &&& match driver_model::bisected(window, log, 0, 0, window.len() as int) {
                None => false,
                Some(None) => {
                    &&& tick == Tick::SourceError
                    &&& after == (DriverState {
                        errors: driver_model::one_more(before.errors),
                        ..probed
                    })
                },
                Some(Some(low)) => if low == 0 {
                    driver_model::restarted(config, genesis, probed, after, tick)
                } else {
                    driver_model::rolled_back_to(
                        config,
                        genesis,
                        probed,
                        window[low - 1].number,
                        after,
                        tick,
                    )
                },
            }
        };
    let window = before.engine.window;
    let probed = DriverState { source: stop, ..before };
    let other_probed = DriverState { source: stop, ..other };
    assert(source::asked(other.source, log, stop));
    match driver_model::bisected(window, log, 0, 0, window.len() as int) {
        Some(Some(low)) => if low == 0 {
            lemma_restart_alike(config, genesis, probed, after, tick, other_probed)
        } else {
            lemma_rollback_alike(
                config,
                genesis,
                probed,
                window[low - 1].number,
                after,
                tick,
                other_probed,
            )
        },
        _ => DriverState { errors: driver_model::one_more(other.errors), ..other_probed },
    }
}

proof fn lemma_rules_alike<F: Fold + Clone, S: Source<Event = F::Event>, K: SnapshotSink<F>>(
    config: DriverConfig,
    before: DriverState<F, S, K>,
    empty: bool,
    summary: ApplySummary,
    after: DriverState<F, S, K>,
    tick: Tick,
    other: DriverState<F, S, NoSink>,
) -> (end: (DriverState<F, S, NoSink>, Tick))
    requires
        alike(before, other),
        driver_model::rules_ran(config, before, empty, summary, after, tick),
    ensures
        alike(after, end.0),
        driver_model::rules_ran(config, other, empty, summary, end.0, end.1),
        same_report(tick, end.1),
{
    let (middle, lost) = choose|middle: DriverState<F, S, K>, lost: bool| #[trigger]
        driver_model::offer_ruled(config, middle, after, lost) && driver_model::checkpoint_ruled(
            config,
            DriverState { caught_up: empty, ..before },
            middle,
        ) && tick == driver_model::progress_tick(lost, empty, summary);
    let noted = DriverState { caught_up: empty, ..before };
    let other_noted = DriverState { caught_up: empty, ..other };
    let other_middle = DriverState {
        engine: middle.engine,
        last_checkpoint: middle.last_checkpoint,
        ..other_noted
    };
    if driver_model::wants_checkpoint(config, noted) {
        let copy = choose|copy: F| #[trigger]
            cloned(noted.engine.fold, copy) && middle == driver_model::checkpointed(noted, copy);
        assert(cloned(other_noted.engine.fold, copy));
        assert(other_middle == driver_model::checkpointed(other_noted, copy));
    }
    let end = if driver_model::wants_offer(config, other_middle) {
        DriverState {
            last_snapshot: Some(driver_model::durable_point(other_middle.engine)->0.block),
            ..other_middle
        }
    } else {
        other_middle
    };
    assert(driver_model::offer_ruled(config, other_middle, end, false));
    (end, driver_model::progress_tick(false, empty, summary))
}

proof fn lemma_batch_alike<F: Fold + Clone, S: Source<Event = F::Event>, K: SnapshotSink<F>>(
    config: DriverConfig,
    genesis: F,
    scanned: DriverState<F, S, K>,
    boundary: Option<BlockRef>,
    spans: Seq<Span<F::Event>>,
    after: DriverState<F, S, K>,
    tick: Tick,
    other: DriverState<F, S, NoSink>,
) -> (end: (DriverState<F, S, NoSink>, Tick))
    requires
        alike(scanned, other),
        driver_model::batch_polled(config, genesis, scanned, boundary, spans, after, tick),
    ensures
        alike(after, end.0),
        driver_model::batch_polled(config, genesis, other, boundary, spans, end.0, end.1),
        same_report(tick, end.1),
{
    let (calls, engine, result) = choose|
        calls: Seq<Call<F>>,
        engine: EngineState<F>,
        result: Result<ApplySummary, ApplyError<F::Error>>,
    | #[trigger]
        engine_model::batch_applied(scanned.engine, boundary, spans, calls, engine, result)
            && driver_model::batch_followed(
            config,
            genesis,
            DriverState { engine, errors: 0, ..scanned },
            spans.len() == 0,
            result,
            after,
            tick,
        );
    let applied = DriverState { engine, errors: 0, ..scanned };
    let other_applied = DriverState { engine, errors: 0, ..other };
    assert(engine_model::batch_applied(other.engine, boundary, spans, calls, engine, result));
    match result {
        Ok(summary) => lemma_rules_alike(
            config,
            applied,
            spans.len() == 0,
            summary,
            after,
            tick,
            other_applied,
        ),
        Err(error) => match error {
            ApplyError::ForkSuspected { .. }
            | ApplyError::MissingBoundary
            | ApplyError::CursorBlockUnobserved { .. } => (
                lemma_recovery_alike(config, genesis, applied, after, tick, other_applied),
                tick,
            ),
            ApplyError::Halted { .. } | ApplyError::Poisoned { .. } => (other_applied, tick),
            _ => (
                DriverState {
                    errors: driver_model::one_more(other_applied.errors),
                    ..other_applied
                },
                tick,
            ),
        },
    }
}

proof fn lemma_tick_alike<F: Fold + Clone, S: Source<Event = F::Event>, K: SnapshotSink<F>>(
    config: DriverConfig,
    genesis: F,
    before: DriverState<F, S, K>,
    after: DriverState<F, S, K>,
    tick: Tick,
    other: DriverState<F, S, NoSink>,
) -> (end: (DriverState<F, S, NoSink>, Tick))
    requires
        alike(before, other),
        driver_model::ticked(config, genesis, before, after, tick),
    ensures
        alike(after, end.0),
        driver_model::ticked(config, genesis, other, end.0, end.1),
        same_report(tick, end.1),
{
    let stop = choose|stop: DriverState<F, S, K>| #[trigger]
        driver_model::polled(config, genesis, before, stop, tick) && after == (DriverState {
            advanced: driver_model::moves_forward(tick),
            ..stop
        });
    let started = DriverState {
        generation: engine_model::counted(before.generation, 1),
        ..before
    };
    let other_started = DriverState {
        generation: engine_model::counted(other.generation, 1),
        ..other
    };
    let (polled, report) = if !(before.engine.status is Active) {
        (other_started, tick)
    } else {
        let (scanned, found) = choose|
            scanned: DriverState<F, S, K>,
            found: Option<(Option<BlockRef>, Seq<Span<F::Event>>)>,
        | #[trigger]
            driver_model::scan_done(config, started, scanned, found) && match found {
                None => {
                    &&& stop == (DriverState {
                        errors: driver_model::one_more(before.errors),
                        ..scanned
                    })
                    &&& tick == Tick::SourceError
                },
                Some((boundary, spans)) => driver_model::batch_polled(
                    config,
                    genesis,
                    scanned,
                    boundary,
                    spans,
                    stop,
                    tick,
                ),
            };
        let other_scanned = lemma_scan_alike(config, started, scanned, found, other_started);
        match found {
            None => (
                DriverState { errors: driver_model::one_more(other.errors), ..other_scanned },
                tick,
            ),
            Some((boundary, spans)) => lemma_batch_alike(
                config,
                genesis,
                scanned,
                boundary,
                spans,
                stop,
                tick,
                other_scanned,
            ),
        }
    };
    assert(driver_model::polled(config, genesis, other, polled, report));
    (DriverState { advanced: driver_model::moves_forward(report), ..polled }, report)
}

/// Fold and cursor go on as without a sink, whatever the sink does, before and after it is
/// lost: to every run of a driver there is one of a driver without a sink that asks its source
/// the same and goes through the same engines, and whose ticks report the same but for the
/// loss.
pub proof fn law_engine_goes_on_as_without_a_sink<
    F: Fold + Clone,
    S: Source<Event = F::Event>,
    K: SnapshotSink<F>,
>(
    config: DriverConfig,
    genesis: F,
    states: Seq<DriverState<F, S, K>>,
    sources: Seq<S>,
    ticks: Seq<Tick>,
    start: DriverState<F, S, NoSink>,
) -> (run: (Seq<DriverState<F, S, NoSink>>, Seq<Tick>))
    requires
        driver_model::ran(config, genesis, states, sources, ticks),
        alike(states[0], start),
    ensures
        driver_model::ran(config, genesis, run.0, sources, run.1),
        run.0[0] == start,
        forall|i: int| 0 <= i < states.len() ==> alike(states[i], #[trigger] run.0[i]),
        forall|i: int| 0 <= i < ticks.len() ==> same_report(ticks[i], #[trigger] run.1[i]),
    decreases ticks.len(),
{
    if ticks.len() == 0 {
        (seq![start], Seq::empty())
    } else {
        let n = ticks.len() - 1;
        let fewer = ticks.drop_last();
        let earlier = states.drop_last();
        assert forall|i: int| 0 <= i < fewer.len() implies driver_model::ticked(
            config,
            genesis,
            DriverState { source: sources.drop_last()[i], ..earlier[i] },
            earlier[i + 1],
            #[trigger] fewer[i],
        ) by {
            assert(fewer[i] == ticks[i]);
        }
        let (led, reports) = law_engine_goes_on_as_without_a_sink(
            config,
            genesis,
            earlier,
            sources.drop_last(),
            fewer,
            start,
        );
        assert(alike(earlier[n], led[n]));
        assert(driver_model::ticked(
            config,
            genesis,
            DriverState { source: sources[n], ..states[n] },
            states[n + 1],
            ticks[n],
        ));
        let (last, report) = lemma_tick_alike(
            config,
            genesis,
            DriverState { source: sources[n], ..states[n] },
            states[n + 1],
            ticks[n],
            DriverState { source: sources[n], ..led[n] },
        );
        let run = (led.push(last), reports.push(report));
        assert forall|i: int| 0 <= i < run.1.len() implies driver_model::ticked(
            config,
            genesis,
            DriverState { source: sources[i], ..run.0[i] },
            run.0[i + 1],
            #[trigger] run.1[i],
        ) by {
            if i < n {
                assert(run.1[i] == reports[i]);
                assert(sources.drop_last()[i] == sources[i]);
            }
        }
        assert forall|i: int| 0 <= i < states.len() implies alike(
            states[i],
            #[trigger] run.0[i],
        ) by {
            if i <= n {
                assert(alike(earlier[i], led[i]));
            }
        }
        assert forall|i: int| 0 <= i < ticks.len() implies same_report(
            ticks[i],
            #[trigger] run.1[i],
        ) by {
            if i < n {
                assert(same_report(fewer[i], reports[i]));
            }
        }
        run
    }
}

} // verus!
