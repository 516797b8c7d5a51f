//! What the driver promises as a whole.
use vstd::prelude::*;

use crate::batch::Span;
use crate::checkpoint;
use crate::checkpoint::Slot;
use crate::delay::Delay;
use crate::driver;
use crate::driver::{DriverConfig, Tick};
use crate::driver_model;
use crate::driver_model::DriverState;
use crate::engine;
use crate::engine_laws;
use crate::engine_model;
use crate::engine_model::{Call, EngineState};
use crate::engine::ApplySummary;
use crate::error::ApplyError;
use crate::fold::Fold;
use crate::position::{BlockRef, Position};
use crate::sink::SnapshotSink;
use crate::source::{ReplayHorizon, Source};

verus! {

/// The part of a driver that no rule and no recovery touches.
spec fn same_clock<F, S, K>(a: DriverState<F, S, K>, b: DriverState<F, S, K>) -> bool {
    a.generation == b.generation
}

/// Errors in a row end with a tick that reports none, unless the engine is no longer active.
spec fn calms<F, S, K>(a: DriverState<F, S, K>, b: DriverState<F, S, K>, tick: Tick) -> bool {
    tick is SourceError || b.errors == 0 || !(a.engine.status is Active)
}

/// No slot is new: some may be gone.
pub open spec fn no_new_slot<F>(old: Seq<Option<Slot<F>>>, new: Seq<Option<Slot<F>>>) -> bool {
    &&& new.len() == old.len()
    &&& forall|i: int| 0 <= i < new.len() ==> (#[trigger] new[i]) is None || new[i] == old[i]
}

/// True for a tick that applied its batch.
pub open spec fn applies(tick: Tick) -> bool {
    tick is Progressed || tick is Idle || tick is DurabilityLost
}

/// True when the checkpoint rule is due at the cursor that a tick left.
pub open spec fn due<F, S, K>(
    config: DriverConfig,
    before: DriverState<F, S, K>,
    after: DriverState<F, S, K>,
) -> bool {
    driver_model::wants_checkpoint(
        config,
        DriverState { last_checkpoint: before.last_checkpoint, ..after },
    )
}

/// What a tick does about automatic checkpoints: one that applied its batch takes one when it
/// is due, no other tick takes one, and only a restart forgets the last.
pub open spec fn rule_kept<F: Clone, S, K>(
    config: DriverConfig,
    before: DriverState<F, S, K>,
    after: DriverState<F, S, K>,
    tick: Tick,
) -> bool {
    if applies(tick) && due(config, before, after) {
        &&& after.last_checkpoint == Some(after.engine.cursor->0.block)
        &&& exists|copy: F| #[trigger]
            cloned(after.engine.fold, copy) && after.engine.slots == checkpoint::stored(
                before.engine.slots,
                Slot { fold: copy, cursor: after.engine.cursor },
            )
    } else if applies(tick) {
        &&& after.last_checkpoint == before.last_checkpoint
        &&& after.engine.slots == before.engine.slots
    } else if tick is Resynced {
        true
    } else {
        &&& after.last_checkpoint == before.last_checkpoint
        &&& no_new_slot(before.engine.slots, after.engine.slots)
    }
}

/// What a tick does about snapshots: one that applied its batch follows the rule for offers, and
/// no other offers anything; a rollback lowers the mark, a restart forgets it.
spec fn offer_kept<F: Fold, S, K: SnapshotSink<F>>(
    config: DriverConfig,
    before: DriverState<F, S, K>,
    after: DriverState<F, S, K>,
    tick: Tick,
) -> bool {
    if applies(tick) {
        driver_model::offer_ruled(
            config,
            DriverState {
                sink: before.sink,
                last_snapshot: before.last_snapshot,
                durability_lost: before.durability_lost,
                ..after
            },
            after,
            tick is DurabilityLost,
        )
    } else {
        &&& after.sink == before.sink
        &&& after.durability_lost == before.durability_lost
        &&& after.last_snapshot == (match tick {
            Tick::RolledBack { to } => driver_model::clamped(before.last_snapshot, to),
            Tick::Resynced => None,
            _ => before.last_snapshot,
        })
    }
}

/// Once the sink refused, it is left alone.
spec fn still_lost<F, S, K>(a: DriverState<F, S, K>, b: DriverState<F, S, K>) -> bool {
    a.durability_lost ==> b.durability_lost && b.sink == a.sink
}

proof fn lemma_restarted<F: Clone, S: Source, K>(
    config: DriverConfig,
    genesis: F,
    before: DriverState<F, S, K>,
    after: DriverState<F, S, K>,
    tick: Tick,
)
    requires
        driver_model::restarted(config, genesis, before, after, tick),
    ensures
        same_clock(before, after),
        still_lost(before, after),
        tick is Resynced || tick is Terminal,
        tick is Resynced ==> after.errors == 0,
        after.sink == before.sink,
        after.durability_lost == before.durability_lost,
        after.last_snapshot == (if tick is Resynced {
            None
        } else {
            before.last_snapshot
        }),
        tick is Terminal ==> after.errors == before.errors && after.last_checkpoint
            == before.last_checkpoint && after.engine.slots == before.engine.slots,
{
    let horizon = choose|horizon: ReplayHorizon| #[trigger]
        driver_model::resynced(config, genesis, before, horizon, after, tick);
}

proof fn lemma_recovered<F: Fold + Clone, S: Source<Event = F::Event>, K>(
    config: DriverConfig,
    genesis: F,
    before: DriverState<F, S, K>,
    after: DriverState<F, S, K>,
    tick: Tick,
)
    requires
        driver_model::recovered(config, genesis, before, after, tick),
    ensures
        same_clock(before, after),
        still_lost(before, after),
        tick is Resynced || tick is Terminal || tick is RolledBack || tick is SourceError,
        tick is SourceError ==> after.engine == before.engine,
        before.errors == 0 && !(tick is SourceError) ==> after.errors == 0,
        after.sink == before.sink,
        after.durability_lost == before.durability_lost,
        after.last_snapshot == (match tick {
            Tick::RolledBack { to } => driver_model::clamped(before.last_snapshot, to),
            Tick::Resynced => None,
            _ => before.last_snapshot,
        }),
        !(tick is Resynced) ==> after.last_checkpoint == before.last_checkpoint && no_new_slot(
            before.engine.slots,
            after.engine.slots,
        ),
{
    let (log, end) = choose|log: Seq<crate::source::Asked<S>>, end: S|
        #![trigger crate::source::asked(before.source, log, end)]
        {
            let window = before.engine.window;
            let probed = DriverState { source: end, ..before };
            &&& crate::source::asked(before.source, log, end)
            &&& match driver_model::bisected(window, log, 0, 0, window.len() as int) {
                None => false,
                Some(None) => {
                    &&& tick == Tick::SourceError
                    &&& after == (DriverState {
                        errors: driver_model::one_more(before.errors),
                        ..probed
                    })
                },
                Some(Some(low)) => if low == 0 {
                    driver_model::restarted(config, genesis, probed, after, tick)
                } else {
                    driver_model::rolled_back_to(
                        config,
                        genesis,
                        probed,
                        window[low - 1].number,
                        after,
                        tick,
                    )
                },
            }
        };
    let window = before.engine.window;
    let probed = DriverState { source: end, ..before };
    match driver_model::bisected(window, log, 0, 0, window.len() as int) {
        Some(Some(low)) => {
            if low == 0 {
                lemma_restarted(config, genesis, probed, after, tick);
            } else {
                let ancestor = window[low - 1].number;
                match crate::engine::rollback_error(probed.engine, ancestor) {
                    Some(crate::error::RollbackError::NoCheckpointAtOrBelow { .. }) => {
                        lemma_restarted(config, genesis, probed, after, tick);
                    },
                    _ => {},
                }
            }
        },
        _ => {},
    }
}

proof fn lemma_rules_ran<F: Fold + Clone, S, K: SnapshotSink<F>>(
    config: DriverConfig,
    before: DriverState<F, S, K>,
    empty: bool,
    summary: ApplySummary,
    after: DriverState<F, S, K>,
    tick: Tick,
)
    requires
        driver_model::rules_ran(config, before, empty, summary, after, tick),
    ensures
        same_clock(before, after),
        still_lost(before, after),
        before.durability_lost ==> !(tick is DurabilityLost),
        tick is DurabilityLost ==> after.durability_lost,
        !(tick is SourceError),
        after.errors == before.errors,
        applies(tick),
        before.engine.status is Active ==> rule_kept(config, before, after, tick),
        offer_kept(config, before, after, tick),
{
    let (middle, lost) = choose|middle: DriverState<F, S, K>, lost: bool| #[trigger]
        driver_model::offer_ruled(config, middle, after, lost) && driver_model::checkpoint_ruled(
            config,
            DriverState { caught_up: empty, ..before },
            middle,
        ) && tick == driver_model::progress_tick(lost, empty, summary);
    let noted = DriverState { caught_up: empty, ..before };
    if driver_model::wants_checkpoint(config, noted) {
        let copy = choose|copy: F| #[trigger]
            cloned(noted.engine.fold, copy) && middle == driver_model::checkpointed(noted, copy);
        if before.engine.status is Active {
            assert(after.engine == middle.engine);
            assert(cloned(after.engine.fold, copy));
            assert(after.engine.slots == checkpoint::stored(
                before.engine.slots,
                Slot { fold: copy, cursor: after.engine.cursor },
            ));
        }
    }
    assert(driver_model::wants_checkpoint(config, noted) == due(config, before, after));
}

/// A batch stores no checkpoint, and one that went through keeps the engine active.
proof fn lemma_batch_keeps_slots<F: Fold>(
    before: EngineState<F>,
    boundary: Option<BlockRef>,
    spans: Seq<Span<F::Event>>,
    calls: Seq<Call<F>>,
    after: EngineState<F>,
    result: Result<ApplySummary, ApplyError<F::Error>>,
)
    requires
        engine_model::batch_applied(before, boundary, spans, calls, after, result),
    ensures
        after.slots == before.slots,
        result is Ok ==> after.status == before.status,
{
    let todo = engine_model::fresh(engine_model::all_entries(spans), before.cursor);
    engine_model::lemma_advanced_over_cursor(
        engine_model::confirmed(before, boundary),
        todo.take(engine_model::consumed_count(calls)),
    );
}

/// The checkpoint rule looks at the slots and the mark that a tick found.
proof fn lemma_rule_frame<F: Clone, S, K>(
    config: DriverConfig,
    before: DriverState<F, S, K>,
    other: DriverState<F, S, K>,
    after: DriverState<F, S, K>,
    tick: Tick,
)
    requires
        rule_kept(config, before, after, tick),
        other.last_checkpoint == before.last_checkpoint,
        other.engine.slots == before.engine.slots,
    ensures
        rule_kept(config, other, after, tick),
{
}

#[verifier::rlimit(40)]
#[verifier::spinoff_prover]
proof fn lemma_batch_polled<F: Fold + Clone, S: Source<Event = F::Event>, K: SnapshotSink<F>>(
    config: DriverConfig,
    genesis: F,
    scanned: DriverState<F, S, K>,
    boundary: Option<BlockRef>,
    spans: Seq<Span<F::Event>>,
    after: DriverState<F, S, K>,
    tick: Tick,
)
    requires
        driver_model::batch_polled(config, genesis, scanned, boundary, spans, after, tick),
    ensures
        same_clock(scanned, after),
        still_lost(scanned, after),
        scanned.durability_lost ==> !(tick is DurabilityLost),
        tick is DurabilityLost ==> after.durability_lost,
        tick is SourceError ==> unharmed(scanned.engine, after.engine),
        calms(scanned, after, tick),
        scanned.engine.status is Active ==> rule_kept(config, scanned, after, tick),
        offer_kept(config, scanned, after, tick),
{
    let (calls, engine, result) = choose|
        calls: Seq<Call<F>>,
        engine: EngineState<F>,
        result: Result<ApplySummary, ApplyError<F::Error>>,
    | #[trigger]
        engine_model::batch_applied(scanned.engine, boundary, spans, calls, engine, result)
            && driver_model::batch_followed(
            config,
            genesis,
            DriverState { engine, errors: 0, ..scanned },
            spans.len() == 0,
            result,
            after,
            tick,
        );
    let applied = DriverState { engine, errors: 0, ..scanned };
    lemma_batch_keeps_slots(scanned.engine, boundary, spans, calls, engine, result);
    match result {
        Ok(summary) => {
            lemma_rules_ran(config, applied, spans.len() == 0, summary, after, tick);
            lemma_rule_frame(config, applied, scanned, after, tick);
        },
        Err(error) => {
            if !(error is Halted) && !(error is Poisoned) {
                engine_laws::law_refused_batch_changes_nothing(
                    scanned.engine,
                    boundary,
                    spans,
                    calls,
                    engine,
                    error,
                );
            }
            if error is ForkSuspected || error is MissingBoundary
                || error is CursorBlockUnobserved {
                lemma_recovered(config, genesis, applied, after, tick);
            }
        },
    }
}

/// The engine but for what the source last confirmed.
pub open spec fn unharmed<F>(before: EngineState<F>, after: EngineState<F>) -> bool {
    after == (EngineState { last_verified: after.last_verified, ..before })
}

proof fn lemma_polled<F: Fold + Clone, S: Source<Event = F::Event>, K: SnapshotSink<F>>(
    config: DriverConfig,
    genesis: F,
    before: DriverState<F, S, K>,
    after: DriverState<F, S, K>,
    tick: Tick,
)
    requires
        driver_model::polled(config, genesis, before, after, tick),
    ensures
        after.generation == engine_model::counted(before.generation, 1),
        still_lost(before, after),
        before.durability_lost ==> !(tick is DurabilityLost),
        tick is DurabilityLost ==> after.durability_lost,
        tick is SourceError ==> unharmed(before.engine, after.engine),
        calms(before, after, tick),
        rule_kept(config, before, after, tick),
        offer_kept(config, before, after, tick),
{
    let started = DriverState {
        generation: engine_model::counted(before.generation, 1),
        ..before
    };
    if before.engine.status is Active {
        let (scanned, found) = choose|
            scanned: DriverState<F, S, K>,
            found: Option<(Option<BlockRef>, Seq<Span<F::Event>>)>,
        | #[trigger]
            driver_model::scan_done(config, started, scanned, found) && match found {
                None => {
                    &&& after == (DriverState {
                        errors: driver_model::one_more(before.errors),
                        ..scanned
                    })
                    &&& tick == Tick::SourceError
                },
                Some((boundary, spans)) => driver_model::batch_polled(
                    config,
                    genesis,
                    scanned,
                    boundary,
                    spans,
                    after,
                    tick,
                ),
            };
        match found {
            Some((boundary, spans)) => {
                lemma_batch_polled(config, genesis, scanned, boundary, spans, after, tick);
            },
            None => {},
        }
    }
}

/// What a tick keeps.
proof fn lemma_ticked<F: Fold + Clone, S: Source<Event = F::Event>, K: SnapshotSink<F>>(
    config: DriverConfig,
    genesis: F,
    before: DriverState<F, S, K>,
    after: DriverState<F, S, K>,
    tick: Tick,
)
    requires
        driver_model::ticked(config, genesis, before, after, tick),
    ensures
        after.generation == engine_model::counted(before.generation, 1),
        still_lost(before, after),
        before.durability_lost ==> !(tick is DurabilityLost),
        tick is DurabilityLost ==> after.durability_lost,
        tick is SourceError ==> unharmed(before.engine, after.engine),
        calms(before, after, tick),
        rule_kept(config, before, after, tick),
        offer_kept(config, before, after, tick),
        after.advanced == driver_model::moves_forward(tick),
{
    let end = choose|end: DriverState<F, S, K>| #[trigger]
        driver_model::polled(config, genesis, before, end, tick) && after == (DriverState {
            advanced: driver_model::moves_forward(tick),
            ..end
        });
    lemma_polled(config, genesis, before, end, tick);
}

/// Every tick counts: the generation rises by one, in 64 bits, whatever the tick did.
pub proof fn law_generation_counts_ticks<
    F: Fold + Clone,
    S: Source<Event = F::Event>,
    K: SnapshotSink<F>,
>(
    config: DriverConfig,
    genesis: F,
    before: DriverState<F, S, K>,
    after: DriverState<F, S, K>,
    tick: Tick,
)
    requires
        driver_model::ticked(config, genesis, before, after, tick),
    ensures
        after.generation == engine_model::counted(before.generation, 1),
{
    lemma_ticked(config, genesis, before, after, tick);
}

/// A sink refusal is reported once: afterwards no tick reports it, the sink is offered nothing
/// more, and the loss stays on record.
pub proof fn law_durability_loss_is_reported_once<
    F: Fold + Clone,
    S: Source<Event = F::Event>,
    K: SnapshotSink<F>,
>(
    config: DriverConfig,
    genesis: F,
    before: DriverState<F, S, K>,
    after: DriverState<F, S, K>,
    tick: Tick,
)
    requires
        driver_model::ticked(config, genesis, before, after, tick),
    ensures
        tick is DurabilityLost ==> !before.durability_lost && after.durability_lost,
        before.durability_lost ==> after.durability_lost && after.sink == before.sink,
{
    lemma_ticked(config, genesis, before, after, tick);
}

/// A tick that ends in a source error leaves the fold, the cursor, the observed blocks and the
/// checkpoints as they were.
pub proof fn law_source_error_harms_nothing<
    F: Fold + Clone,
    S: Source<Event = F::Event>,
    K: SnapshotSink<F>,
>(
    config: DriverConfig,
    genesis: F,
    before: DriverState<F, S, K>,
    after: DriverState<F, S, K>,
)
    requires
        driver_model::ticked(config, genesis, before, after, Tick::SourceError),
    ensures
        unharmed(before.engine, after.engine),
{
    let tick = Tick::SourceError;
    lemma_ticked(config, genesis, before, after, tick);
}

/// Catch-up polls run back to back: a tick that applied or skipped an event asks for no delay.
pub proof fn law_catching_up_asks_for_no_delay<
    F: Fold + Clone,
    S: Source<Event = F::Event>,
    K: SnapshotSink<F>,
>(
    config: DriverConfig,
    genesis: F,
    before: DriverState<F, S, K>,
    after: DriverState<F, S, K>,
    summary: ApplySummary,
)
    requires
        driver_model::ticked(config, genesis, before, after, Tick::Progressed(summary)),
        summary.applied > 0 || summary.skipped > 0,
    ensures
        driver::delay_after(config, after.errors, after.advanced) == (Delay { nanos: 0 }),
{
    let tick = Tick::Progressed(summary);
    lemma_ticked(config, genesis, before, after, tick);
}

/// An inactive engine ends every tick at once, with its status.
pub proof fn law_inactive_engine_is_terminal<
    F: Fold + Clone,
    S: Source<Event = F::Event>,
    K: SnapshotSink<F>,
>(
    config: DriverConfig,
    genesis: F,
    before: DriverState<F, S, K>,
    after: DriverState<F, S, K>,
    tick: Tick,
)
    requires
        !(before.engine.status is Active),
        driver_model::ticked(config, genesis, before, after, tick),
    ensures
        tick == Tick::Terminal(before.engine.status),
        after.engine == before.engine,
        after.source == before.source,
        after.sink == before.sink,
{
}

/// Backoff never exceeds its ceiling, and never shrinks with more errors in a row.
pub proof fn law_backoff_grows_to_its_ceiling(config: DriverConfig, errors: u32, more: u32)
    requires
        0 < errors <= more,
        config.backoff_base.nanos <= crate::delay::MAX_NANOS,
    ensures
        driver::delay_after(config, errors, false).nanos <= config.backoff_max.nanos,
        driver::delay_after(config, errors, false).nanos <= driver::delay_after(
            config,
            more,
            false,
        ).nanos,
{
    lemma_factor_grows(errors, more);
    let base = config.backoff_base.nanos as int;
    let some = driver::factor_after(errors);
    let many = driver::factor_after(more);
    assert(0 <= base * some <= base * many) by (nonlinear_arith)
        requires
            0 <= base,
            0 < some <= many,
    ;
}

proof fn lemma_factor_grows(errors: u32, more: u32)
    requires
        0 < errors <= more,
    ensures
        0 < driver::factor_after(errors) <= driver::factor_after(more) <= u32::MAX,
{
    vstd::arithmetic::power2::lemma2_to64();
    let a = (errors - 1) as nat;
    let b = (more - 1) as nat;
    vstd::arithmetic::power2::lemma_pow2_pos(a);
    if b < 32 {
        if a < b {
            vstd::arithmetic::power2::lemma_pow2_strictly_increases(a, b);
        }
        if b < 31 {
            vstd::arithmetic::power2::lemma_pow2_strictly_increases(b, 31);
        }
    } else if a < 31 {
        vstd::arithmetic::power2::lemma_pow2_strictly_increases(a, 31);
    }
}

/// After a rollback the snapshot mark never lies above the restored block, so the next offer
/// is not held back.
pub proof fn law_rollback_lowers_snapshot_mark(mark: Option<u64>, to: Option<Position>)
    ensures
        driver_model::clamped(mark, to) matches Some(lowered) ==> to matches Some(point)
            && lowered <= point.block,
{
}

/// A tick whose scan failed.
pub open spec fn scan_lost<F: Fold, S: Source<Event = F::Event>, K>(
    config: DriverConfig,
    before: DriverState<F, S, K>,
    after: DriverState<F, S, K>,
) -> bool {
    let started = DriverState {
        generation: engine_model::counted(before.generation, 1),
        ..before
    };
    &&& before.engine.status is Active
    &&& exists|scanned: DriverState<F, S, K>| #[trigger]
        driver_model::scan_done(config, started, scanned, None) && after == (DriverState {
            errors: driver_model::one_more(before.errors),
            advanced: false,
            ..scanned
        })
}

/// A failed scan is a tick that reports a source error.
pub proof fn law_failed_scan_is_a_source_error<
    F: Fold + Clone,
    S: Source<Event = F::Event>,
    K: SnapshotSink<F>,
>(
    config: DriverConfig,
    genesis: F,
    before: DriverState<F, S, K>,
    after: DriverState<F, S, K>,
)
    requires
        scan_lost(config, before, after),
    ensures
        driver_model::ticked(config, genesis, before, after, Tick::SourceError),
{
    let started = DriverState {
        generation: engine_model::counted(before.generation, 1),
        ..before
    };
    let scanned = choose|scanned: DriverState<F, S, K>| #[trigger]
        driver_model::scan_done(config, started, scanned, None) && after == (DriverState {
            errors: driver_model::one_more(before.errors),
            advanced: false,
            ..scanned
        });
    let end = DriverState { errors: driver_model::one_more(before.errors), ..scanned };
    assert(driver_model::polled(config, genesis, before, end, Tick::SourceError));
}

/// A tick that reports no source error ends the count of errors in a row, unless the engine is
/// no longer active.
pub proof fn law_other_ticks_end_the_errors<
    F: Fold + Clone,
    S: Source<Event = F::Event>,
    K: SnapshotSink<F>,
>(
    config: DriverConfig,
    genesis: F,
    before: DriverState<F, S, K>,
    after: DriverState<F, S, K>,
    tick: Tick,
)
    requires
        driver_model::ticked(config, genesis, before, after, tick),
        before.engine.status is Active,
        !(tick is SourceError),
    ensures
        after.errors == 0,
{
    lemma_ticked(config, genesis, before, after, tick);
}

/// A run of failed scans; before each the source may have moved on.
pub open spec fn scans_lost<F: Fold, S: Source<Event = F::Event>, K>(
    config: DriverConfig,
    states: Seq<DriverState<F, S, K>>,
    sources: Seq<S>,
) -> bool {
    &&& states.len() == sources.len() + 1
    &&& forall|i: int|
        0 <= i < sources.len() ==> scan_lost(
            config,
            DriverState { source: #[trigger] sources[i], ..states[i] },
            states[i + 1],
        )
}

proof fn lemma_errors_counted<F: Fold, S: Source<Event = F::Event>, K>(
    config: DriverConfig,
    states: Seq<DriverState<F, S, K>>,
    sources: Seq<S>,
    at: int,
)
    requires
        scans_lost(config, states, sources),
        states[0].errors == 0,
        0 <= at <= sources.len(),
        at <= u32::MAX,
    ensures
        states[at].errors == at,
        at > 0 ==> !states[at].advanced,
    decreases at,
{
    if at > 0 {
        lemma_errors_counted(config, states, sources, at - 1);
        assert(scan_lost(
            config,
            DriverState { source: sources[at - 1], ..states[at - 1] },
            states[(at - 1) + 1],
        ));
    }
}

/// Backoff doubles with each failed scan in a row, up to its ceiling: after `k` of them the
/// driver waits the base times `2^(k-1)`, or the ceiling when that is less.
pub proof fn law_backoff_doubles<F: Fold, S: Source<Event = F::Event>, K>(
    config: DriverConfig,
    states: Seq<DriverState<F, S, K>>,
    sources: Seq<S>,
)
    requires
        scans_lost(config, states, sources),
        states[0].errors == 0,
        1 <= sources.len() <= 32,
        config.backoff_base.nanos <= crate::delay::MAX_NANOS,
        config.backoff_max.nanos <= crate::delay::MAX_NANOS,
    ensures
        ({
            let steps = config.backoff_base.nanos * vstd::arithmetic::power2::pow2(
                (sources.len() - 1) as nat,
            );
            driver::delay_after(config, states.last().errors, states.last().advanced).nanos == (
            if steps < config.backoff_max.nanos {
                steps
            } else {
                config.backoff_max.nanos as int
            })
        }),
{
    lemma_errors_counted(config, states, sources, sources.len() as int);
    let base = config.backoff_base.nanos as int;
    let factor = vstd::arithmetic::power2::pow2((sources.len() - 1) as nat) as int;
    assert(0 <= base * factor) by (nonlinear_arith)
        requires
            0 <= base,
            0 <= factor,
    ;
}

/// A tick that found nothing new, or nothing but events it already had, waits the poll
/// interval.
pub proof fn law_nothing_new_waits_the_poll_interval<
    F: Fold + Clone,
    S: Source<Event = F::Event>,
    K: SnapshotSink<F>,
>(
    config: DriverConfig,
    genesis: F,
    before: DriverState<F, S, K>,
    after: DriverState<F, S, K>,
    tick: Tick,
)
    requires
        driver_model::ticked(config, genesis, before, after, tick),
        before.engine.status is Active,
        tick is Idle || (tick matches Tick::Progressed(summary) && summary.applied == 0
            && summary.skipped == 0),
    ensures
        driver::delay_after(config, after.errors, after.advanced) == config.poll_interval,
{
    lemma_ticked(config, genesis, before, after, tick);
}

/// A forced checkpoint is what a rollback to its block gives back; fold, cursor and generation
/// stay, and the next automatic checkpoint is counted from its block.
pub proof fn law_forced_checkpoint_is_restorable<F: Clone, S, K>(
    before: DriverState<F, S, K>,
    after: DriverState<F, S, K>,
)
    requires
        engine_model::anchored(before.engine),
        before.engine.status is Active,
        before.engine.slots.len() > 0,
        before.engine.cursor is Some,
        driver_model::checkpoint_taken(before, after),
    ensures
        ({
            let cursor = before.engine.cursor->0;
            &&& after.engine.fold == before.engine.fold
            &&& after.engine.cursor == before.engine.cursor
            &&& after.generation == before.generation
            &&& after.last_checkpoint == Some(cursor.block)
            &&& engine::rollback_error(after.engine, cursor.block) is None
            &&& checkpoint::newest_within(
                after.engine.slots,
                after.engine.window,
                cursor.block,
            ) matches Some(slot) && slot.cursor == Some(cursor) && cloned(
                before.engine.fold,
                slot.fold,
            )
        }),
{
    let copy = choose|copy: F| #[trigger]
        cloned(before.engine.fold, copy) && after == driver_model::checkpointed(before, copy);
    engine_laws::law_rollback_restores_checkpoint(
        before.engine,
        copy,
        before.engine.cursor->0.block,
    );
}

/// When automatic checkpoints come: a tick that applied its batch takes one at its cursor as
/// soon as that has reached the last checkpoint's block plus the interval, and none before; no
/// other tick takes one, and only a restart forgets the last.
pub proof fn law_checkpoints_come_when_due<
    F: Fold + Clone,
    S: Source<Event = F::Event>,
    K: SnapshotSink<F>,
>(
    config: DriverConfig,
    genesis: F,
    before: DriverState<F, S, K>,
    after: DriverState<F, S, K>,
    tick: Tick,
    mark: u64,
    interval: u64,
)
    requires
        driver_model::ticked(config, genesis, before, after, tick),
        config.checkpoint_interval == Some(interval),
        before.last_checkpoint == Some(mark),
        !(tick is Resynced),
    ensures
        ({
            let reached = applies(tick) && (after.engine.cursor matches Some(cursor)
                && cursor.block >= driver_model::plus(mark, interval));
            if reached {
                &&& after.last_checkpoint == Some(after.engine.cursor->0.block)
                &&& exists|copy: F| #[trigger]
                    cloned(after.engine.fold, copy) && after.engine.slots == checkpoint::stored(
                        before.engine.slots,
                        Slot { fold: copy, cursor: after.engine.cursor },
                    )
            } else {
                &&& after.last_checkpoint == Some(mark)
                &&& no_new_slot(before.engine.slots, after.engine.slots)
            }
        }),
        applies(tick) ==> (after.engine.cursor matches Some(cursor) ==> if cursor.block >= mark
            + interval || cursor.block == u64::MAX {
            &&& after.last_checkpoint == Some(cursor.block)
            &&& joined(before.engine, after.engine)
        } else {
            after.last_checkpoint == Some(mark)
        }),
{
    lemma_ticked(config, genesis, before, after, tick);
}

/// The fold and cursor of `after` are its newest slot, and the others moved one place towards
/// the oldest, which is gone; an engine without slots keeps none.
pub open spec fn joined<F: Clone>(before: EngineState<F>, after: EngineState<F>) -> bool {
    let old = before.slots;
    let new = after.slots;
    &&& new.len() == old.len()
    &&& forall|i: int| 0 <= i < new.len() - 1 ==> #[trigger] new[i] == old[i + 1]
    &&& new.len() > 0 ==> (new[new.len() - 1] matches Some(slot) && cloned(after.fold, slot.fold)
        && slot.cursor == after.cursor)
}

/// Without a last checkpoint, the first tick that leaves a cursor takes one there; without an
/// interval none is ever taken.
pub proof fn law_first_checkpoint_comes_at_once<
    F: Fold + Clone,
    S: Source<Event = F::Event>,
    K: SnapshotSink<F>,
>(
    config: DriverConfig,
    genesis: F,
    before: DriverState<F, S, K>,
    after: DriverState<F, S, K>,
    tick: Tick,
)
    requires
        driver_model::ticked(config, genesis, before, after, tick),
    ensures
        config.checkpoint_interval is Some && before.last_checkpoint is None && applies(tick) ==> (
        after.engine.cursor matches Some(cursor) ==> after.last_checkpoint == Some(cursor.block)
            && joined(before.engine, after.engine)),
        config.checkpoint_interval is None && !(tick is Resynced) ==> after.last_checkpoint
            == before.last_checkpoint && no_new_slot(before.engine.slots, after.engine.slots),
        tick is Resynced ==> after.last_checkpoint is None,
{
    lemma_ticked(config, genesis, before, after, tick);
}

/// True when slot `k` can be restored: it is filled, and the block of its cursor is among the
/// observed ones.
pub open spec fn restorable<F>(state: EngineState<F>, k: int) -> bool {
    &&& 0 <= k < state.slots.len()
    &&& state.slots[k] matches Some(slot)
    &&& slot.cursor matches Some(cursor) ==> exists|i: int|
        0 <= i < state.window.len() && (#[trigger] state.window[i]).number == cursor.block
}

/// True when slot `k` is the oldest that can be restored, and `block` is its cursor's.
pub open spec fn durable_at<F>(state: EngineState<F>, k: int, block: u64) -> bool {
    &&& restorable(state, k)
    &&& forall|j: int| 0 <= j < k ==> !#[trigger] restorable(state, j)
    &&& state.slots[k] matches Some(slot) && (slot.cursor matches Some(cursor) && cursor.block
        == block)
}

/// The durable point is the cursor of the oldest slot that can be restored.
proof fn lemma_durable_at<F>(state: EngineState<F>, part: Seq<Option<Slot<F>>>, from: int)
    requires
        0 <= from <= state.slots.len(),
        part == state.slots.skip(from),
        forall|j: int| 0 <= j < from ==> !#[trigger] restorable(state, j),
    ensures
        (match checkpoint::oldest_live(part, state.window) {
            Some(slot) => match slot.cursor {
                Some(point) => exists|k: int| #[trigger] durable_at(state, k, point.block),
                None => forall|k: int, block: u64| !#[trigger] durable_at(state, k, block),
            },
            None => forall|k: int, block: u64| !#[trigger] durable_at(state, k, block),
        }),
    decreases part.len(),
{
    if part.len() > 0 {
        assert(part[0] == state.slots[from]);
        assert(restorable(state, from) == checkpoint::live_in(part[0], state.window));
        if checkpoint::live_in(part[0], state.window) {
            match state.slots[from]->0.cursor {
                Some(point) => {
                    assert(durable_at(state, from, point.block));
                },
                None => {},
            }
        } else {
            assert(part.drop_first() =~= state.slots.skip(from + 1));
            lemma_durable_at(state, part.drop_first(), from + 1);
        }
    }
}

/// When snapshots are offered: a tick that applied its batch offers the sink the engine it left
/// when durability is not lost and the durable block has reached the last block offered plus
/// the interval, or nothing was offered yet. An offer that was taken moves the mark to that
/// block; a refused one loses durability and moves no mark. Nothing else is ever offered: the
/// sink stays as it was.
pub proof fn law_offers_come_when_due<
    F: Fold + Clone,
    S: Source<Event = F::Event>,
    K: SnapshotSink<F>,
>(
    config: DriverConfig,
    genesis: F,
    before: DriverState<F, S, K>,
    after: DriverState<F, S, K>,
    tick: Tick,
    interval: u64,
)
    requires
        driver_model::ticked(config, genesis, before, after, tick),
        config.snapshot_interval == Some(interval),
    ensures
        forall|k: int, block: u64| #[trigger]
            durable_at(after.engine, k, block) && applies(tick) && !before.durability_lost && (
            before.last_snapshot matches Some(mark) ==> block >= mark + interval || block
                == u64::MAX) ==> {
                &&& K::offered(
                    before.sink,
                    after.engine,
                    after.sink,
                    tick is DurabilityLost,
                )
                &&& after.durability_lost == (tick is DurabilityLost)
                &&& after.last_snapshot == (if tick is DurabilityLost {
                    before.last_snapshot
                } else {
                    Some(block)
                })
            },
        applies(tick) && (before.durability_lost || forall|k: int, block: u64| #[trigger]
            durable_at(after.engine, k, block) ==> (before.last_snapshot matches Some(mark)
                && block < mark + interval && block < u64::MAX)) ==> {
            &&& !(tick is DurabilityLost)
            &&& after.sink == before.sink
            &&& after.durability_lost == before.durability_lost
            &&& after.last_snapshot == before.last_snapshot
        },
        !applies(tick) ==> after.sink == before.sink && after.durability_lost
            == before.durability_lost,
{
    lemma_ticked(config, genesis, before, after, tick);
    assert(after.engine.slots.skip(0) =~= after.engine.slots);
    lemma_durable_at(after.engine, after.engine.slots, 0);
    assert forall|k: int, block: u64, j: int, other: u64| #[trigger]
        durable_at(after.engine, k, block) && #[trigger] durable_at(
            after.engine,
            j,
            other,
        ) implies k == j && block == other by {
        if k < j {
            assert(restorable(after.engine, k));
        } else if j < k {
            assert(restorable(after.engine, j));
        }
    }
}

/// What else moves the mark of the last block offered: a rollback lowers it to the block
/// restored, a rollback to no block and a restart forget it, and no other tick that left the
/// batch unapplied touches it. Without an interval the sink is never offered anything.
pub proof fn law_offer_mark_follows_rollbacks<
    F: Fold + Clone,
    S: Source<Event = F::Event>,
    K: SnapshotSink<F>,
>(
    config: DriverConfig,
    genesis: F,
    before: DriverState<F, S, K>,
    after: DriverState<F, S, K>,
    tick: Tick,
)
    requires
        driver_model::ticked(config, genesis, before, after, tick),
    ensures
        tick matches Tick::RolledBack { to } ==> match to {
            Some(point) => match before.last_snapshot {
                Some(mark) => after.last_snapshot matches Some(new) && new <= mark && new
                    <= point.block && (new == mark || new == point.block),
                None => after.last_snapshot is None,
            },
            None => after.last_snapshot is None,
        },
        tick is Resynced ==> after.last_snapshot is None,
        tick is SourceError || tick is Terminal ==> after.last_snapshot == before.last_snapshot,
        config.snapshot_interval is None ==> after.sink == before.sink && after.durability_lost
            == before.durability_lost && !(tick is DurabilityLost) && (applies(tick)
            ==> after.last_snapshot == before.last_snapshot),
{
    lemma_ticked(config, genesis, before, after, tick);
}

/// No automatic checkpoint comes before it is due: over a run of ticks without a restart whose
/// applied batches all left the cursor below the last checkpoint's block plus the interval,
/// the mark stays and no slot is new.
pub proof fn law_no_checkpoint_before_it_is_due<
    F: Fold + Clone,
    S: Source<Event = F::Event>,
    K: SnapshotSink<F>,
>(
    config: DriverConfig,
    genesis: F,
    states: Seq<DriverState<F, S, K>>,
    sources: Seq<S>,
    ticks: Seq<Tick>,
    mark: u64,
    interval: u64,
)
    requires
        driver_model::ran(config, genesis, states, sources, ticks),
        config.checkpoint_interval == Some(interval),
        states[0].last_checkpoint == Some(mark),
        forall|i: int| 0 <= i < ticks.len() ==> !((#[trigger] ticks[i]) is Resynced),
        forall|i: int|
            0 <= i < ticks.len() && applies(#[trigger] ticks[i]) ==> (
            states[i + 1].engine.cursor matches Some(cursor) ==> cursor.block
                < driver_model::plus(mark, interval)),
    ensures
        states.last().last_checkpoint == Some(mark),
        no_new_slot(states[0].engine.slots, states.last().engine.slots),
    decreases ticks.len(),
{
    if ticks.len() > 0 {
        let n = ticks.len() - 1;
        let fewer = ticks.drop_last();
        let earlier = states.drop_last();
        assert forall|i: int| 0 <= i < fewer.len() implies driver_model::ticked(
            config,
            genesis,
            DriverState { source: sources.drop_last()[i], ..earlier[i] },
            earlier[i + 1],
            #[trigger] fewer[i],
        ) by {
            assert(fewer[i] == ticks[i]);
        }
        assert forall|i: int| 0 <= i < fewer.len() implies !((#[trigger] fewer[i])
            is Resynced) by {
            assert(fewer[i] == ticks[i]);
        }
        assert forall|i: int|
            0 <= i < fewer.len() && applies(#[trigger] fewer[i]) implies (
        earlier[i + 1].engine.cursor matches Some(cursor) ==> cursor.block < driver_model::plus(
            mark,
            interval,
        )) by {
            assert(fewer[i] == ticks[i]);
        }
        law_no_checkpoint_before_it_is_due(
            config,
            genesis,
            earlier,
            sources.drop_last(),
            fewer,
            mark,
            interval,
        );
        assert(earlier.last() == states[n]);
        law_checkpoints_come_when_due(
            config,
            genesis,
            DriverState { source: sources[n], ..states[n] },
            states[n + 1],
            ticks[n],
            mark,
            interval,
        );
    }
}

/// A driver starts out with the engine, source and sink it was given, and with nothing
/// scanned, no error, no mark, no tick and durability not lost.
pub proof fn law_new_driver_starts_clean<F, S, K>(engine: EngineState<F>, source: S, sink: K)
    ensures
        ({
            let new = driver::fresh_driver(engine, source, sink);
            &&& new.engine == engine
            &&& new.source == source
            &&& new.sink == sink
            &&& new.scanned_to is None
            &&& new.errors == 0
            &&& !new.caught_up
            &&& new.generation == 0
            &&& new.last_checkpoint is None
            &&& new.last_snapshot is None
            &&& !new.durability_lost
            &&& !new.advanced
        }),
{
}

/// How long a driver waits: not at all after a tick that moved the cursor, the poll interval
/// after any other without errors. After errors in a row it waits the base times two to the
/// number of errors before the last, or times the largest factor of 32 bits from the 33rd on,
/// but no longer than the ceiling.
pub proof fn law_waits_by_errors_in_a_row(config: DriverConfig, errors: u32, advanced: bool)
    requires
        config.backoff_base.nanos <= crate::delay::MAX_NANOS,
        config.backoff_max.nanos <= crate::delay::MAX_NANOS,
    ensures
        ({
            let delay = driver::delay_after(config, errors, advanced).nanos;
            let factor = if errors <= 32 {
                vstd::arithmetic::power2::pow2((errors - 1) as nat) as int
            } else {
                0xffff_ffff
            };
            &&& errors == 0 && advanced ==> delay == 0
            &&& errors == 0 && !advanced ==> delay == config.poll_interval.nanos
            &&& errors > 0 ==> delay == (if config.backoff_base.nanos * factor
                < config.backoff_max.nanos {
                config.backoff_base.nanos * factor
            } else {
                config.backoff_max.nanos as int
            })
        }),
{
    if errors > 0 {
        lemma_factor_grows(errors, errors);
        let base = config.backoff_base.nanos as int;
        let factor = driver::factor_after(errors);
        assert(0 <= base * factor) by (nonlinear_arith)
            requires
                0 <= base,
                0 < factor,
        ;
    }
}

} // verus!
