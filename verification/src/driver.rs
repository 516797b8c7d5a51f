//! Poll loop over one source: cadence, backoff, scanning, and fork recovery.
use vstd::prelude::*;

use crate::batch::{Batch, Span};
use crate::checkpoint;
use crate::checkpoint::Slot;
use crate::delay::Delay;
use crate::driver_model;
use crate::driver_model::DriverState;
use crate::engine;
use crate::engine::{ApplySummary, Engine, EngineConfig};
use crate::engine_model;
use crate::engine_model::{Call, EngineState};
use crate::error::{
    ApplyError, ConfigError, DivergenceCause, DurabilityLost, EngineStatus, RollbackError,
};
use crate::fold::Fold;
use crate::position::{same_hash, BlockRef, Position};
use crate::sink::{NoSink, SnapshotSink};
use crate::source;
use crate::source::{Asked, ReplayHorizon, Source, SourceCall, SourceReply};

verus! {

/// Outcome of one driver tick.
#[derive(Debug, Clone, Copy, PartialEq, Eq, Structural)]
pub enum Tick {
    /// Batch applied; the summary counts what the fold saw.
    Progressed(ApplySummary),
    /// Poll returned nothing new.
    Idle,
    /// A fork rolled the engine back to a checkpoint.
    RolledBack {
        /// Cursor the rollback restored.
        to: Option<Position>,
    },
    /// Engine reset to genesis; the next poll carries no cursor.
    Resynced,
    /// Source or its contract failed; the next delay backs off.
    SourceError,
    /// Sink refused a snapshot offer; reported once, folding continues unpersisted.
    DurabilityLost,
    /// Engine can make no further automated progress.
    Terminal(EngineStatus),
}

/// Point-in-time snapshot of driver and engine state for external observers.
#[derive(Debug, Clone, Copy, PartialEq)]
pub struct DriverStatus {
    /// Most recently applied position.
    pub cursor: Option<Position>,
    /// Most recent block whose hash the source confirmed.
    pub last_verified: Option<BlockRef>,
    /// Engine status behind this driver.
    pub engine: EngineStatus,
    /// True once the most recent poll returned no new blocks.
    pub caught_up: bool,
    /// Events the fold declared not its own.
    pub skips: u64,
    /// Cursor the sink reports a restart would recover; None without a sink or a
    /// flush. A resync lowers it, so it holds for the instant it was read.
    pub durable_cursor: Option<Position>,
    /// True once the sink refused an offer; folding continues unpersisted.
    pub durability_lost: bool,
    /// Increments once per tick; a level signal for wait primitives.
    pub generation: u64,
}

impl DriverStatus {
    /// True once the engine can no longer make automated progress.
    pub fn is_terminal(&self) -> (terminal: bool)
        ensures
            terminal == !(self.engine is Active),
    {
        !self.engine.is_active()
    }
}

/// Poll cadence, backoff, and recovery tuning for a driver.
#[derive(Debug, Clone, Copy, PartialEq, Eq, Structural)]
pub struct DriverConfig {
    /// Fold genesis; resync feasibility is judged against this block.
    pub start_block: u64,
    /// Delay between polls while the source is healthy.
    pub poll_interval: Delay,
    /// First backoff step after a source error.
    pub backoff_base: Delay,
    /// Ceiling on the exponential backoff.
    pub backoff_max: Delay,
    /// In-memory rollback points every N blocks of cursor progress; persists
    /// nothing. None means caller-driven only.
    pub checkpoint_interval: Option<u64>,
    /// Blocks of durable-point progress between snapshot offers; None disables
    /// offers.
    pub snapshot_interval: Option<u64>,
}

/// Default blocks between checkpoints.
pub const DEFAULT_CHECKPOINT_INTERVAL: u64 = 64;

impl Default for DriverConfig {
    fn default() -> (config: Self)
        ensures
            config == default_config(0),
    {
        DriverConfig {
            start_block: 0,
            poll_interval: Delay::from_secs(1),
            backoff_base: Delay::from_millis(200),
            backoff_max: Delay::from_secs(30),
            checkpoint_interval: Some(DEFAULT_CHECKPOINT_INTERVAL),
            snapshot_interval: Some(DEFAULT_CHECKPOINT_INTERVAL),
        }
    }
}

/// One poll a second, backoff from 200 milliseconds to 30 seconds, marks every 64 blocks.
pub open spec fn default_config(start_block: u64) -> DriverConfig {
    DriverConfig {
        start_block,
        poll_interval: Delay { nanos: 1_000_000_000 },
        backoff_base: Delay { nanos: 200_000_000 },
        backoff_max: Delay { nanos: 30_000_000_000 },
        checkpoint_interval: Some(DEFAULT_CHECKPOINT_INTERVAL),
        snapshot_interval: Some(DEFAULT_CHECKPOINT_INTERVAL),
    }
}

impl DriverConfig {
    /// Defaults, folding from `start_block`.
    pub fn from_block(start_block: u64) -> (config: Self)
        ensures
            config == default_config(start_block),
    {
        DriverConfig { start_block, ..DriverConfig::default() }
    }
}

/// True when `block` has reached the next interval step past the last marked block.
pub fn due(last: Option<u64>, block: u64, interval: u64) -> (yes: bool)
    ensures
        yes == driver_model::is_due(last, block, interval),
        yes == (last matches Some(mark) ==> block >= mark + interval || block == u64::MAX),
{
    match last {
        Some(last) => block >= last.saturating_add(interval),
        None => true,
    }
}

/// The shortfall of a source that cannot replay from the start block, if it is short.
pub open spec fn horizon_error(config: DriverConfig, horizon: ReplayHorizon) -> Option<
    ConfigError,
> {
    match horizon {
        ReplayHorizon::FromBlock(horizon) => if horizon > config.start_block {
            Some(ConfigError::HorizonExceedsStart { start: config.start_block, horizon })
        } else {
            None
        },
        ReplayHorizon::Genesis => None,
    }
}

/// Checks the source horizon against the configured start block.
pub fn check_horizon(config: &DriverConfig, horizon: ReplayHorizon) -> (result: Result<
    (),
    ConfigError,
>)
    ensures
        match result {
            Ok(()) => horizon_error(*config, horizon) is None,
            Err(error) => horizon_error(*config, horizon) == Some(error),
        },
        result is Ok <==> (horizon matches ReplayHorizon::FromBlock(first) ==> first
            <= config.start_block),
        result matches Err(error) ==> error == (ConfigError::HorizonExceedsStart {
            start: config.start_block,
            horizon: horizon->FromBlock_0,
        }),
{
    match horizon {
        ReplayHorizon::FromBlock(horizon) => if horizon > config.start_block {
            Err(ConfigError::HorizonExceedsStart { start: config.start_block, horizon })
        } else {
            Ok(())
        },
        ReplayHorizon::Genesis => Ok(()),
    }
}

/// `slice::sort_by_key` on entries by block number and log index: it puts them in that order
/// and keeps the order of entries with equal keys.
#[verifier::external_body]
fn sort_entries<E>(entries: &mut Vec<(BlockRef, u32, E)>)
    ensures
        driver_model::arranged(old(entries)@, final(entries)@),
{
    entries.sort_by_key(|entry| (entry.0.number, entry.1))
}

/// Drains `entries` into `batch`, one span per block, in chain order.
pub fn group_into<E>(batch: &mut Batch<E>, entries: &mut Vec<(BlockRef, u32, E)>)
    requires
        old(batch).wf(),
    ensures
        final(batch).wf(),
        final(batch).boundary == old(batch).boundary,
        final(entries)@ == Seq::<(BlockRef, u32, E)>::empty(),
        exists|sorted: Seq<(BlockRef, u32, E)>|
            driver_model::arranged(old(entries)@, sorted) && final(batch)@ == old(batch)@
                + #[trigger] driver_model::grouped(sorted),
{
    sort_entries(entries);
    let ghost sorted = entries@;
    let ghost spans = batch@;
    let mut rest: Vec<(BlockRef, u32, E)> = Vec::new();
    rest.append(entries);
    let mut span: Vec<(u32, E)> = Vec::new();
    let mut current: Option<BlockRef> = None;
    proof {
        assert(rest@ =~= sorted);
        assert(sorted.take(0) =~= Seq::<(BlockRef, u32, E)>::empty());
        assert(spans =~= spans + driver_model::grouped(sorted.take(0)));
    }
    for entry in it: rest
        invariant
            it.seq() == sorted,
            batch.wf(),
            batch.boundary == old(batch).boundary,
            match current {
                None => it.index() == 0 && span@.len() == 0 && batch@ == spans
                    + driver_model::grouped(sorted.take(0)),
                Some(open) => batch@.push(Span { block: open, entries: span@ }) == spans
                    + driver_model::grouped(sorted.take(it.index() as int))
                    && driver_model::grouped(sorted.take(it.index() as int)).len() > 0,
            },
    {
        let (block, log_index, event) = entry;
        let ghost at = it.index() as int;
        let ghost before = driver_model::grouped(sorted.take(at));
        let ghost after = driver_model::grouped(sorted.take(at + 1));
        proof {
            assert(sorted.take(at + 1).drop_last() =~= sorted.take(at));
            assert(sorted.take(at + 1).last() == (block, log_index, event));
            if current is Some {
                assert(before.last() == (Span { block: current->0, entries: span@ })) by {
                    let whole = spans + before;
                    assert(whole.last() == before.last());
                }
            } else {
                assert(sorted.take(at) =~= sorted.take(0));
            }
        }
        let ghost held = span@;
        match current {
            Some(open) => if open.number != block.number {
                let mut full: Vec<(u32, E)> = Vec::new();
                full.append(&mut span);
                assert(full@ =~= held);
                batch.push_block(open, full);
                current = Some(block);
                span.push((log_index, event));
                proof {
                    assert(span@ =~= seq![(log_index, event)]);
                    assert(batch@.push(Span { block, entries: span@ }) =~= spans + after);
                }
            } else {
                span.push((log_index, event));
                proof {
                    assert(batch@ =~= (spans + before).drop_last());
                    assert(after.last() == (Span { block: open, entries: span@ }));
                    assert(after.drop_last() =~= before.drop_last());
                    assert(batch@.push(Span { block: open, entries: span@ }) =~= spans + after);
                }
            },
            None => {
                current = Some(block);
                span.push((log_index, event));
                proof {
                    assert(span@ =~= seq![(log_index, event)]);
                    assert(batch@.push(Span { block, entries: span@ }) =~= spans + after);
                }
            },
        }
    }
    proof {
        assert(sorted.take(sorted.len() as int) =~= sorted);
    }
    if let Some(open) = current {
        batch.push_block(open, span);
    } else {
        assert(sorted.take(0) =~= sorted);
    }
    assert(batch@ =~= spans + driver_model::grouped(sorted));
}

/// Poll loop over one source: owns cadence, backoff, scanning, and fork recovery.
pub struct Driver<F, S, K = NoSink> where
    F: Fold,
    S: Source<Event = F::Event>,
    K: SnapshotSink<F>,
 {
    engine: Engine<F>,
    source: S,
    sink: K,
    config: DriverConfig,
    batch: Batch<F::Event>,
    scratch: Vec<(BlockRef, u32, F::Event)>,
    scanned_to: Option<u64>,
    initial: F,
    consecutive_errors: u32,
    caught_up: bool,
    generation: u64,
    last_checkpoint_block: Option<u64>,
    last_snapshot_block: Option<u64>,
    durability_lost: bool,
    advanced: bool,
}

/// A driver that has not ticked yet.
pub open spec fn fresh_driver<F, S, K>(
    engine: EngineState<F>,
    source: S,
    sink: K,
) -> DriverState<F, S, K> {
    DriverState {
        engine,
        source,
        sink,
        scanned_to: None,
        errors: 0,
        caught_up: false,
        generation: 0,
        last_checkpoint: None,
        last_snapshot: None,
        durability_lost: false,
        advanced: false,
    }
}

impl<F, S, K> Driver<F, S, K> where F: Fold, S: Source<Event = F::Event>, K: SnapshotSink<F> {
    /// Everything the driver remembers that changes from tick to tick.
    pub closed spec fn state(&self) -> DriverState<F, S, K> {
        DriverState {
            engine: self.engine.state(),
            source: self.source,
            sink: self.sink,
            scanned_to: self.scanned_to,
            errors: self.consecutive_errors,
            caught_up: self.caught_up,
            generation: self.generation,
            last_checkpoint: self.last_checkpoint_block,
            last_snapshot: self.last_snapshot_block,
            durability_lost: self.durability_lost,
            advanced: self.advanced,
        }
    }

    /// The tuning the driver was built with.
    pub closed spec fn tuning(&self) -> DriverConfig {
        self.config
    }

    /// The fold a resync restarts from.
    pub closed spec fn genesis(&self) -> F {
        self.initial
    }

    /// The engine is in order.
    pub closed spec fn wf(&self) -> bool {
        self.engine.wf()
    }

    /// While the engine is active, there are blocks after the cursor block.
    pub open spec fn has_room(&self) -> bool {
        self.state().engine.status is Active ==> (self.state().engine.cursor matches Some(cursor)
            ==> cursor.block < u64::MAX)
    }

    /// True for the driver that wraps an engine, given the horizon that the source reports.
    pub open spec fn wraps(
        result: Result<Self, ConfigError>,
        engine: EngineState<F>,
        source: S,
        sink: K,
        genesis: F,
        config: DriverConfig,
        horizon: ReplayHorizon,
    ) -> bool {
        &&& source::reports_horizon(source, horizon)
        &&& match result {
            Ok(driver) => {
                &&& horizon_error(config, horizon) is None
                &&& driver.wf()
                &&& driver.state() == fresh_driver(engine, source, sink)
                &&& driver.tuning() == config
                &&& driver.genesis() == genesis
            },
            Err(error) => horizon_error(config, horizon) == Some(error),
        }
    }

    /// True for the driver that is built around a new engine, given the copy of the fold it
    /// keeps and the horizon that the source reports.
    pub open spec fn builds(
        result: Result<Self, ConfigError>,
        fold: F,
        source: S,
        sink: K,
        engine_config: EngineConfig,
        config: DriverConfig,
        copy: F,
        horizon: ReplayHorizon,
    ) -> bool {
        match engine::config_error(engine_config) {
            Some(error) => result == Err::<Self, _>(error),
            None => Self::wraps(
                result,
                engine::genesis(
                    fold,
                    engine_config.ring_capacity as nat,
                    engine_config.checkpoint_slots as nat,
                ),
                source,
                sink,
                copy,
                config,
                horizon,
            ),
        }
    }
}

impl<F, S> Driver<F, S> where F: Fold + Clone, S: Source<Event = F::Event> {
    /// Builds a driver that persists nothing.
    pub fn new(fold: F, source: S, engine: EngineConfig, config: DriverConfig) -> (result: Result<
        Self,
        ConfigError,
    >)
        ensures
            exists|copy: F, horizon: ReplayHorizon|
                cloned(fold, copy) && #[trigger] Self::builds(
                    result,
                    fold,
                    source,
                    NoSink,
                    engine,
                    config,
                    copy,
                    horizon,
                ),
    {
        Self::build(fold, source, NoSink, engine, config)
    }

    /// Resumes from a recovered engine, polling onward from its cursor.
    ///
    /// `genesis` is the fold a resync restarts from, so it is empty state rather than
    /// the recovered state.
    pub fn resume(engine: Engine<F>, source: S, genesis: F, config: DriverConfig) -> (result:
        Result<Self, ConfigError>)
        requires
            engine.wf(),
        ensures
            exists|horizon: ReplayHorizon| #[trigger]
                Self::wraps(result, engine.state(), source, NoSink, genesis, config, horizon),
    {
        Self::around(engine, source, NoSink, genesis, config)
    }
}

impl<F, S, K> Driver<F, S, K> where
    F: Fold + Clone,
    S: Source<Event = F::Event>,
    K: SnapshotSink<F>,
 {
    /// Builds a driver that offers durable snapshots to the sink.
    pub fn with_sink(
        fold: F,
        source: S,
        sink: K,
        engine: EngineConfig,
        config: DriverConfig,
    ) -> (result: Result<Self, ConfigError>)
        ensures
            exists|copy: F, horizon: ReplayHorizon|
                cloned(fold, copy) && #[trigger] Self::builds(
                    result,
                    fold,
                    source,
                    sink,
                    engine,
                    config,
                    copy,
                    horizon,
                ),
    {
        Self::build(fold, source, sink, engine, config)
    }

    /// Resumes from a recovered engine, offering durable snapshots to the sink.
    pub fn resume_with_sink(
        engine: Engine<F>,
        source: S,
        sink: K,
        genesis: F,
        config: DriverConfig,
    ) -> (result: Result<Self, ConfigError>)
        requires
            engine.wf(),
        ensures
            exists|horizon: ReplayHorizon| #[trigger]
                Self::wraps(result, engine.state(), source, sink, genesis, config, horizon),
    {
        Self::around(engine, source, sink, genesis, config)
    }

    fn build(
        fold: F,
        source: S,
        sink: K,
        engine_config: EngineConfig,
        driver_config: DriverConfig,
    ) -> (result: Result<Self, ConfigError>)
        ensures
            exists|copy: F, horizon: ReplayHorizon|
                cloned(fold, copy) && #[trigger] Self::builds(
                    result,
                    fold,
                    source,
                    sink,
                    engine_config,
                    driver_config,
                    copy,
                    horizon,
                ),
    {
        let initial = fold.clone();
        assert(cloned(fold, initial));
        match Engine::new(fold, engine_config) {
            Ok(engine) => {
                let result = Self::around(engine, source, sink, initial, driver_config);
                proof {
                    let horizon = choose|horizon: ReplayHorizon| #[trigger]
                        Self::wraps(
                            result,
                            engine.state(),
                            source,
                            sink,
                            initial,
                            driver_config,
                            horizon,
                        );
                    assert(Self::builds(
                        result,
                        fold,
                        source,
                        sink,
                        engine_config,
                        driver_config,
                        initial,
                        horizon,
                    ));
                }
                result
            },
            Err(error) => {
                let result = Err(error);
                assert(Self::builds(
                    result,
                    fold,
                    source,
                    sink,
                    engine_config,
                    driver_config,
                    initial,
                    ReplayHorizon::Genesis,
                ));
                result
            },
        }
    }

    /// Wraps an engine, checking the source horizon against the configured start block.
    fn around(
        engine: Engine<F>,
        source: S,
        sink: K,
        initial: F,
        driver_config: DriverConfig,
    ) -> (result: Result<Self, ConfigError>)
        requires
            engine.wf(),
        ensures
            exists|horizon: ReplayHorizon| #[trigger]
                Self::wraps(
                    result,
                    engine.state(),
                    source,
                    sink,
                    initial,
                    driver_config,
                    horizon,
                ),
    {
        let horizon = source.horizon();
        let ghost engine_state = engine.state();
        let result = match check_horizon(&driver_config, horizon) {
            Err(error) => Err(error),
            Ok(()) => Ok(
                Driver {
                    engine,
                    source,
                    sink,
                    config: driver_config,
                    batch: Batch::new(),
                    scratch: Vec::new(),
                    scanned_to: None,
                    initial,
                    consecutive_errors: 0,
                    caught_up: false,
                    generation: 0,
                    last_checkpoint_block: None,
                    last_snapshot_block: None,
                    durability_lost: false,
                    advanced: false,
                },
            ),
        };
        assert(Self::wraps(
            result,
            engine_state,
            source,
            sink,
            initial,
            driver_config,
            horizon,
        ));
        result
    }

    /// Borrows the durability sink.
    pub fn sink(&self) -> (sink: &K)
        ensures
            *sink == self.state().sink,
    {
        &self.sink
    }

    /// Consumes the driver, returning the sink for joining or inspection.
    pub fn into_sink(self) -> (sink: K)
        ensures
            sink == self.state().sink,
    {
        self.sink
    }

    /// Borrows the underlying engine.
    pub fn engine(&self) -> (engine: &Engine<F>)
        requires
            self.wf(),
        ensures
            engine.wf(),
            engine.state() == self.state().engine,
    {
        &self.engine
    }

    /// Manual recovery access: rollback out of Halted or Poisoned, then keep ticking.
    pub fn engine_mut(&mut self) -> (engine: &mut Engine<F>)
        requires
            old(self).wf(),
        ensures
            engine.wf(),
            engine.state() == old(self).state().engine,
            final(engine).wf() ==> final(self).wf(),
            final(self).state() == (DriverState {
                engine: final(engine).state(),
                ..old(self).state()
            }),
            final(self).tuning() == old(self).tuning(),
            final(self).genesis() == old(self).genesis(),
    {
        &mut self.engine
    }

    /// Mutable access to the underlying event source.
    pub fn source_mut(&mut self) -> (source: &mut S)
        ensures
            *source == old(self).state().source,
            final(self).state() == (DriverState { source: *final(source), ..old(self).state() }),
            final(self).wf() == old(self).wf(),
            final(self).tuning() == old(self).tuning(),
            final(self).genesis() == old(self).genesis(),
    {
        &mut self.source
    }

    /// True once the most recent poll returned no new blocks.
    pub fn is_caught_up(&self) -> (yes: bool)
        ensures
            yes == self.state().caught_up,
    {
        self.caught_up
    }

    /// Runs the interval-based checkpoint rule.
    fn auto_checkpoint(&mut self)
        requires
            old(self).wf(),
        ensures
            final(self).wf(),
            final(self).tuning() == old(self).tuning(),
            final(self).genesis() == old(self).genesis(),
            final(self).batch == old(self).batch,
            driver_model::checkpoint_ruled(
                old(self).tuning(),
                old(self).state(),
                final(self).state(),
            ),
    {
        let interval = match self.config.checkpoint_interval {
            Some(interval) => interval,
            None => return,
        };
        let cursor = match self.engine.cursor() {
            Some(cursor) => cursor,
            None => return,
        };
        if due(self.last_checkpoint_block, cursor.block, interval) {
            self.run_checkpoint();
        }
    }

    /// Stores a checkpoint and records the block it was taken at.
    fn run_checkpoint(&mut self)
        requires
            old(self).wf(),
        ensures
            final(self).wf(),
            final(self).tuning() == old(self).tuning(),
            final(self).genesis() == old(self).genesis(),
            final(self).batch == old(self).batch,
            driver_model::checkpoint_taken(old(self).state(), final(self).state()),
    {
        let ghost before = self.engine.state();
        self.engine.checkpoint();
        proof {
            if before.status is Active {
                let copy = choose|copy: F|
                    #[trigger] cloned(before.fold, copy) && self.engine.state() == (EngineState {
                        slots: checkpoint::stored(
                            before.slots,
                            Slot { fold: copy, cursor: before.cursor },
                        ),
                        ..before
                    });
                assert(cloned(old(self).state().engine.fold, copy));
            } else {
                assert(cloned(before.fold, before.fold));
            }
        }
        if let Some(cursor) = self.engine.cursor() {
            self.last_checkpoint_block = Some(cursor.block);
        }
    }

    /// Runs the interval-based snapshot rule; returns the overriding tick, if any.
    fn offer_snapshot(&mut self) -> (tick: Option<Tick>)
        requires
            old(self).wf(),
        ensures
            final(self).wf(),
            final(self).tuning() == old(self).tuning(),
            final(self).genesis() == old(self).genesis(),
            final(self).batch == old(self).batch,
            tick is None || tick == Some(Tick::DurabilityLost),
            driver_model::offer_ruled(
                old(self).tuning(),
                old(self).state(),
                final(self).state(),
                tick is Some,
            ),
    {
        if self.durability_lost {
            return None;
        }
        let interval = match self.config.snapshot_interval {
            Some(interval) => interval,
            None => return None,
        };
        let point = match self.engine.durable_point() {
            Some(point) => point,
            None => return None,
        };
        if !due(self.last_snapshot_block, point.block, interval) {
            return None;
        }
        let reply = self.sink.offer(&self.engine);
        match reply {
            Ok(()) => {
                self.last_snapshot_block = Some(point.block);
                None
            },
            Err(DurabilityLost) => Some(self.lose_durability()),
        }
    }

    /// Latches the sink refusal so no further offer runs; folding continues unpersisted.
    fn lose_durability(&mut self) -> (tick: Tick)
        requires
            old(self).wf(),
        ensures
            final(self).wf(),
            final(self).tuning() == old(self).tuning(),
            final(self).genesis() == old(self).genesis(),
            final(self).batch == old(self).batch,
            final(self).state() == (DriverState { durability_lost: true, ..old(self).state() }),
            tick == Tick::DurabilityLost,
    {
        self.durability_lost = true;
        Tick::DurabilityLost
    }

    /// Lowers the snapshot mark to the restore point so the next offer is not suppressed.
    fn clamp_snapshot_mark(&mut self, to: Option<Position>)
        requires
            old(self).wf(),
        ensures
            final(self).wf(),
            final(self).tuning() == old(self).tuning(),
            final(self).genesis() == old(self).genesis(),
            final(self).state() == (DriverState {
                last_snapshot: driver_model::clamped(old(self).state().last_snapshot, to),
                ..old(self).state()
            }),
    {
        self.last_snapshot_block =
        match (self.last_snapshot_block, to) {
            (Some(last), Some(point)) => Some(
                if point.block < last {
                    point.block
                } else {
                    last
                },
            ),
            _ => None,
        };
    }

    /// Rolls back to the newest checkpoint at or below the ancestor, else escalates.
    fn roll_back_to(&mut self, ancestor: u64) -> (tick: Tick)
        requires
            old(self).wf(),
        ensures
            final(self).wf(),
            final(self).tuning() == old(self).tuning(),
            final(self).genesis() == old(self).genesis(),
            driver_model::rolled_back_to(
                old(self).tuning(),
                old(self).genesis(),
                old(self).state(),
                ancestor,
                final(self).state(),
                tick,
            ),
    {
        match self.engine.rollback_at_or_below(ancestor) {
            Ok(to) => {
                self.caught_up = false;
                self.clamp_snapshot_mark(to);
                Tick::RolledBack { to }
            },
            Err(RollbackError::NoCheckpointAtOrBelow { .. }) => self.resync_or_terminal(),
            Err(RollbackError::Unrecoverable { cause }) => Tick::Terminal(
                EngineStatus::Unrecoverable { cause },
            ),
        }
    }

    /// Resyncs from genesis when the source horizon still covers the start block,
    /// otherwise marks the engine unrecoverable with the horizon shortfall.
    fn resync_or_terminal(&mut self) -> (tick: Tick)
        requires
            old(self).wf(),
        ensures
            final(self).wf(),
            final(self).tuning() == old(self).tuning(),
            final(self).genesis() == old(self).genesis(),
            driver_model::restarted(
                old(self).tuning(),
                old(self).genesis(),
                old(self).state(),
                final(self).state(),
                tick,
            ),
    {
        let horizon = self.source.horizon();
        self.resync_from(horizon)
    }

    /// Resyncs from genesis, given the horizon that the source reports.
    pub fn resync_from(&mut self, horizon: ReplayHorizon) -> (tick: Tick)
        requires
            old(self).wf(),
        ensures
            final(self).wf(),
            final(self).tuning() == old(self).tuning(),
            final(self).genesis() == old(self).genesis(),
            driver_model::resynced(
                old(self).tuning(),
                old(self).genesis(),
                old(self).state(),
                horizon,
                final(self).state(),
                tick,
            ),
    {
        if let ReplayHorizon::FromBlock(horizon) = horizon {
            // The same shortfall `around` rejects at construction, reached at runtime.
            if horizon > self.config.start_block {
                self.engine.mark_unrecoverable(
                    DivergenceCause::HorizonExceeded {
                        needed: self.config.start_block,
                        horizon,
                    },
                );
                return Tick::Terminal(self.engine.status());
            }
        }
        self.resync()
    }

    fn resync(&mut self) -> (tick: Tick)
        requires
            old(self).wf(),
        ensures
            final(self).wf(),
            final(self).tuning() == old(self).tuning(),
            final(self).genesis() == old(self).genesis(),
            driver_model::resynced(
                old(self).tuning(),
                old(self).genesis(),
                old(self).state(),
                ReplayHorizon::Genesis,
                final(self).state(),
                tick,
            ),
    {
        let copy = self.initial.clone();
        assert(cloned(old(self).genesis(), copy));
        self.engine.reset(copy);
        self.caught_up = false;
        self.consecutive_errors = 0;
        self.scanned_to = None;
        self.last_checkpoint_block = None;
        self.last_snapshot_block = None;
        Tick::Resynced
    }

    /// Fills `batch` with the blocks strictly after the cursor, plus the cursor block's
    /// header as the source reports it now.
    fn scan(&mut self) -> (result: Result<(), S::Error>)
        requires
            old(self).wf(),
            old(self).has_room(),
            old(self).state().engine.status is Active,
        ensures
            final(self).wf(),
            final(self).tuning() == old(self).tuning(),
            final(self).genesis() == old(self).genesis(),
            final(self).batch.wf(),
            driver_model::scan_done(
                old(self).tuning(),
                old(self).state(),
                final(self).state(),
                match result {
                    Ok(()) => Some((final(self).batch.boundary, final(self).batch@)),
                    Err(_) => None,
                },
            ),
    {
        let ghost before = self.state();
        let ghost config = self.config;
        let ghost start = self.source;
        let ghost none: Seq<(BlockRef, u32, F::Event)> = Seq::empty();
        let ghost mut log: Seq<Asked<S>> = Seq::empty();
        self.batch.clear();
        let cursor = self.engine.cursor();
        if let Some(cursor) = cursor {
            let header = self.source.header_at(cursor.block);
            proof {
                let call = SourceCall::HeaderAt(cursor.block);
                let reply = source::header_reply(header);
                source::lemma_asked_push(start, log, start, call, reply, self.source);
                log = log.push(Asked { call, reply, after: self.source });
            }
            match header {
                Ok(header) => {
                    self.batch.boundary = header;
                },
                Err(error) => {
                    proof {
                        assert(source::asked(before.source, log, self.source));
                        lemma_scan_failed(config, before, self.state(), log, 1, none);
                    }
                    return Err(error);
                },
            }
        }
        let boundary = self.batch.boundary;
        let ghost at = log.len() as int;
        let ghost middle = self.source;

        let highest = self.source.head();
        proof {
            let call = SourceCall::Head;
            let reply = source::head_reply(highest);
            source::lemma_asked_push(start, log, middle, call, reply, self.source);
            log = log.push(Asked { call, reply, after: self.source });
        }
        let head = match highest {
            Ok(head) => head,
            Err(error) => {
                proof {
                    assert(source::asked(before.source, log, self.source));
                    lemma_scan_failed(config, before, self.state(), log, 1, none);
                }
                return Err(error);
            },
        };
        let reported = self.source.window();
        let window = if reported == 0 {
            1
        } else {
            reported
        };
        let mut from = match cursor {
            Some(cursor) => {
                let behind = cursor.block + 1;
                match self.scanned_to {
                    Some(to) => {
                        let next = to.saturating_add(1);
                        if behind < next {
                            behind
                        } else {
                            next
                        }
                    },
                    None => behind,
                }
            },
            None => self.config.start_block,
        };
        let ghost first = from;
        let ghost mark = self.scanned_to;
        let ghost base = log;
        while from <= head
            invariant
                self.wf(),
                self.config == config,
                config == old(self).config,
                self.initial == old(self).initial,
                before == old(self).state(),
                start == before.source,
                window == driver_model::positive(reported),
                source::reports_window(base[at].after, reported),
                self.batch.wf(),
                self.batch@ == Seq::<Span<F::Event>>::empty(),
                self.batch.boundary == boundary,
                self.state() == (DriverState {
                    source: self.source,
                    scanned_to: self.scanned_to,
                    ..before
                }),
                source::asked(start, log, self.source),
                base.len() == at + 1,
                is_prefix(base, log),
                at == (if before.engine.cursor is Some {
                    1int
                } else {
                    0int
                }),
                first == driver_model::scan_start(
                    before.engine.cursor,
                    before.scanned_to,
                    config.start_block,
                ),
                mark == before.scanned_to,
                base[at].call == SourceCall::<S::Event>::Head,
                base[at].reply == SourceReply::<S::Event, S::Error>::Head(head),
                before.engine.cursor matches Some(cursor) ==> base[0].call == SourceCall::<
                    S::Event,
                >::HeaderAt(cursor.block) && base[0].reply == SourceReply::<
                    S::Event,
                    S::Error,
                >::Header(boundary),
                before.engine.cursor is None ==> boundary is None,
                sweep_goes_on(log, at + 1, first, mark, from, self.scanned_to, head, window),
                none == Seq::<(BlockRef, u32, F::Event)>::empty(),
            decreases head - from,
        {
            let reach = from.saturating_add(window - 1);
            let to = if reach < head {
                reach
            } else {
                head
            };
            self.scratch.clear();
            let ghost here = self.source;
            let ghost prior = log;
            let ghost scanned_before = self.scanned_to;
            let served = self.source.events_in(from, to, &mut self.scratch);
            let ghost entries = self.scratch@;
            proof {
                let call = SourceCall::EventsIn { from, to, given: none };
                let reply = source::events_reply(served, entries);
                source::lemma_asked_push(start, log, here, call, reply, self.source);
                log = log.push(Asked { call, reply, after: self.source });
                assert(log[prior.len() as int].call == call);
            }
            match served {
                Ok(()) => {},
                Err(error) => {
                    proof {
                        assert(driver_model::sweep(
                            log,
                            prior.len() as int,
                            from,
                            head,
                            window,
                            scanned_before,
                        ) is Some);
                        lemma_sweep_ends(
                            log,
                            prior,
                            at + 1,
                            first,
                            mark,
                            from,
                            scanned_before,
                            head,
                            window,
                        );
                        lemma_scan_sweeps(config, before, boundary, head, log, at, window);
                        lemma_scan_failed(config, before, self.state(), log, reported, none);
                    }
                    return Err(error);
                },
            }
            self.scanned_to = Some(to);
            if self.scratch.len() > 0 || to == head {
                proof {
                    lemma_sweep_ends(
                        log,
                        prior,
                        at + 1,
                        first,
                        mark,
                        from,
                        scanned_before,
                        head,
                        window,
                    );
                    lemma_scan_sweeps(config, before, boundary, head, log, at, window);
                }
                group_into(&mut self.batch, &mut self.scratch);
                proof {
                    let empty: Seq<Span<F::Event>> = Seq::empty();
                    let sorted = choose|sorted: Seq<(BlockRef, u32, F::Event)>|
                        driver_model::arranged(entries, sorted) && self.batch@ == empty
                            + #[trigger] driver_model::grouped(sorted);
                    assert(empty + driver_model::grouped(sorted) =~= driver_model::grouped(
                        sorted,
                    ));
                    lemma_scan_found(
                        config,
                        before,
                        self.state(),
                        log,
                        reported,
                        sorted,
                        (boundary, self.batch@),
                    );
                }
                return Ok(());
            }
            proof {
                lemma_sweep_step(
                    log,
                    prior,
                    at + 1,
                    first,
                    mark,
                    from,
                    scanned_before,
                    head,
                    window,
                );
            }
            from = to + 1;
        }
        proof {
            lemma_sweep_none(log, at + 1, first, mark, from, self.scanned_to, head, window);
            lemma_scan_sweeps(config, before, boundary, head, log, at, window);
            assert(driver_model::grouped(none) =~= Seq::<Span<F::Event>>::empty());
            lemma_scan_found(
                config,
                before,
                self.state(),
                log,
                reported,
                none,
                (boundary, self.batch@),
            );
        }
        Ok(())
    }

    /// Bisects the observed ring for the deepest still-canonical block, then rolls back.
    fn recover_via_bisection(&mut self) -> (tick: Tick)
        requires
            old(self).wf(),
        ensures
            final(self).wf(),
            final(self).tuning() == old(self).tuning(),
            final(self).genesis() == old(self).genesis(),
            driver_model::recovered(
                old(self).tuning(),
                old(self).genesis(),
                old(self).state(),
                final(self).state(),
                tick,
            ),
    {
        let ghost before = self.state();
        let ghost start = self.source;
        let ghost window = before.engine.window;
        let observed = self.engine.observed().to_vec();
        let ghost mut log: Seq<Asked<S>> = Seq::empty();
        let mut low: usize = 0;
        let mut high: usize = observed.len();
        while low < high
            invariant
                self.wf(),
                self.config == old(self).config,
                self.initial == old(self).initial,
                before == old(self).state(),
                start == before.source,
                observed@ == window,
                window == before.engine.window,
                low <= high <= window.len(),
                self.state() == (DriverState { source: self.source, ..before }),
                source::asked(start, log, self.source),
                forall|full: Seq<Asked<S>>| #[trigger]
                    is_prefix(log, full) ==> driver_model::bisected(
                        window,
                        full,
                        0,
                        0,
                        window.len() as int,
                    ) == driver_model::bisected(
                        window,
                        full,
                        log.len() as int,
                        low as int,
                        high as int,
                    ),
            decreases high - low,
        {
            let mid = low + (high - low) / 2;
            let ghost here = self.source;
            let ghost prior = log;
            let probe = self.source.header_at(observed[mid].number);
            proof {
                let call = SourceCall::HeaderAt(observed[mid as int].number);
                let reply = source::header_reply(probe);
                source::lemma_asked_push(start, log, here, call, reply, self.source);
                log = log.push(Asked { call, reply, after: self.source });
                assert(is_prefix(prior, log));
                assert forall|full: Seq<Asked<S>>| #[trigger] is_prefix(log, full) implies (
                is_prefix(prior, full) && full[prior.len() as int] == log[prior.len() as int]) by {
                    assert(full[prior.len() as int] == log[prior.len() as int]);
                    assert forall|i: int| 0 <= i < prior.len() implies full[i] == prior[i] by {
                        assert(full[i] == log[i]);
                    }
                }
            }
            match probe {
                Ok(Some(header)) => if same_hash(&header.hash, &observed[mid].hash) {
                    low = mid + 1;
                } else {
                    high = mid;
                },
                Ok(None) => {
                    high = mid;
                },
                Err(_) => {
                    self.consecutive_errors = self.consecutive_errors.saturating_add(1);
                    proof {
                        assert(is_prefix(log, log));
                        assert(source::asked(before.source, log, self.source));
                    }
                    return Tick::SourceError;
                },
            }
        }
        proof {
            assert(is_prefix(log, log));
            assert(source::asked(before.source, log, self.source));
        }
        if low == 0 {
            return self.resync_or_terminal();
        }
        self.roll_back_to(observed[low - 1].number)
    }

    /// Scans the source and applies the batch, recovering from a fork by bisection.
    fn poll_apply(&mut self) -> (tick: Tick)
        requires
            old(self).wf(),
            old(self).has_room(),
        ensures
            final(self).wf(),
            final(self).tuning() == old(self).tuning(),
            final(self).genesis() == old(self).genesis(),
            driver_model::polled(
                old(self).tuning(),
                old(self).genesis(),
                old(self).state(),
                final(self).state(),
                tick,
            ),
    {
        let ghost config = self.config;
        let ghost genesis = self.initial;
        self.generation = self.generation.wrapping_add(1);
        let ghost started = self.state();
        assert(started.generation == engine_model::counted(old(self).state().generation, 1));
        if !self.engine.status().is_active() {
            return Tick::Terminal(self.engine.status());
        }
        if self.scan().is_err() {
            let ghost scanned = self.state();
            self.consecutive_errors = self.consecutive_errors.saturating_add(1);
            assert(driver_model::scan_done(config, started, scanned, None));
            return Tick::SourceError;
        }
        let ghost scanned = self.state();
        let ghost boundary = self.batch.boundary;
        let ghost spans = self.batch@;
        assert(driver_model::scan_done(config, started, scanned, Some((boundary, spans))));
        self.consecutive_errors = 0;
        let result = self.engine.apply_batch(&self.batch);
        let ghost calls = choose|calls: Seq<Call<F>>| #[trigger]
            engine_model::batch_applied(
                scanned.engine,
                boundary,
                spans,
                calls,
                self.engine.state(),
                result,
            );
        let ghost engine = self.engine.state();
        let ghost applied = self.state();
        let ghost outcome = result;
        let empty = self.batch.is_empty();
        let tick = match result {
            Ok(summary) => {
                self.caught_up = empty;
                // A snapshot refusal overrides progress; a checkpoint is silent.
                self.auto_checkpoint();
                let ghost middle = self.state();
                let lost = self.offer_snapshot();
                assert(driver_model::offer_ruled(config, middle, self.state(), lost is Some));
                match lost {
                    Some(tick) => tick,
                    None => if empty {
                        Tick::Idle
                    } else {
                        Tick::Progressed(summary)
                    },
                }
            },
            Err(error) => match error {
                ApplyError::ForkSuspected { .. } => self.recover_via_bisection(),
                ApplyError::MissingBoundary => self.recover_via_bisection(),
                ApplyError::CursorBlockUnobserved { .. } => self.recover_via_bisection(),
                ApplyError::Halted { .. } => Tick::Terminal(self.engine.status()),
                ApplyError::Poisoned { .. } => Tick::Terminal(self.engine.status()),
                ApplyError::Shape(_) => {
                    self.consecutive_errors = self.consecutive_errors.saturating_add(1);
                    Tick::SourceError
                },
                ApplyError::BoundaryNumberMismatch { .. } => {
                    self.consecutive_errors = self.consecutive_errors.saturating_add(1);
                    Tick::SourceError
                },
                // The engine was active before this batch, so this never comes.
                ApplyError::NotActive { status } => Tick::Terminal(status),
            },
        };
        proof {
            assert(applied == (DriverState { engine, errors: 0, ..scanned }));
            if outcome is Err {
                engine_model::lemma_active_accepts(
                    scanned.engine,
                    boundary,
                    spans,
                    calls,
                    engine,
                    outcome->Err_0,
                );
            }
            assert(driver_model::batch_followed(
                config,
                genesis,
                applied,
                spans.len() == 0,
                outcome,
                self.state(),
                tick,
            ));
            assert(driver_model::batch_polled(
                config,
                genesis,
                scanned,
                boundary,
                spans,
                self.state(),
                tick,
            ));
        }
        tick
    }

    /// Runs one poll-apply step, then records whether the cursor moved forward.
    fn step(&mut self) -> (tick: Tick)
        requires
            old(self).wf(),
            old(self).has_room(),
        ensures
            final(self).wf(),
            final(self).tuning() == old(self).tuning(),
            final(self).genesis() == old(self).genesis(),
            driver_model::ticked(
                old(self).tuning(),
                old(self).genesis(),
                old(self).state(),
                final(self).state(),
                tick,
            ),
    {
        let tick = self.poll_apply();
        let ghost end = self.state();
        assert(driver_model::polled(
            old(self).tuning(),
            old(self).genesis(),
            old(self).state(),
            end,
            tick,
        ));
        // Only forward cursor movement earns an immediate re-poll; a batch the
        // engine fully deduped leaves the loop on its poll interval.
        self.advanced =
        match tick {
            Tick::Progressed(summary) => summary.applied > 0 || summary.skipped > 0,
            _ => false,
        };
        tick
    }

    /// Advances the loop by one poll, apply, and recovery step.
    pub fn tick(&mut self) -> (tick: Tick)
        requires
            old(self).wf(),
            old(self).has_room(),
        ensures
            final(self).wf(),
            final(self).tuning() == old(self).tuning(),
            final(self).genesis() == old(self).genesis(),
            driver_model::ticked(
                old(self).tuning(),
                old(self).genesis(),
                old(self).state(),
                final(self).state(),
                tick,
            ),
    {
        self.step()
    }

    /// Forces a checkpoint now.
    pub fn checkpoint(&mut self)
        requires
            old(self).wf(),
        ensures
            final(self).wf(),
            final(self).tuning() == old(self).tuning(),
            final(self).genesis() == old(self).genesis(),
            driver_model::checkpoint_taken(old(self).state(), final(self).state()),
    {
        self.run_checkpoint();
    }

    /// Snapshots the current driver and engine state.
    pub fn status(&self) -> (status: DriverStatus)
        requires
            self.wf(),
        ensures
            self.state().sink.reports(status.durable_cursor),
            status == (DriverStatus {
                cursor: self.state().engine.cursor,
                last_verified: self.state().engine.last_verified,
                engine: self.state().engine.status,
                caught_up: self.state().caught_up,
                skips: self.state().engine.skips,
                durable_cursor: status.durable_cursor,
                durability_lost: self.state().durability_lost,
                generation: self.state().generation,
            }),
    {
        DriverStatus {
            cursor: self.engine.cursor(),
            last_verified: self.engine.last_verified(),
            engine: self.engine.status(),
            caught_up: self.caught_up,
            skips: self.engine.skip_count(),
            durable_cursor: self.sink.durable_cursor(),
            durability_lost: self.durability_lost,
            generation: self.generation,
        }
    }

    /// How long to wait before the next tick.
    pub fn next_delay(&self) -> (delay: Delay)
        ensures
            delay == delay_after(self.tuning(), self.state().errors, self.state().advanced),
    {
        if self.consecutive_errors == 0 {
            // Catch-up polls run back to back; the poll interval paces the tip.
            return if self.advanced {
                Delay::zero()
            } else {
                self.config.poll_interval
            };
        }
        let factor = backoff_factor(self.consecutive_errors);
        self.config.backoff_base.saturating_mul(factor).shorter(self.config.backoff_max)
    }
}

/// The factor on the first backoff step after some errors in a row: it doubles with each error
/// as far as 32 bits go.
pub open spec fn factor_after(errors: u32) -> int {
    if errors - 1 < 32 {
        vstd::arithmetic::power2::pow2((errors - 1) as nat) as int
    } else {
        u32::MAX as int
    }
}

/// The wait before the next tick.
pub open spec fn delay_after(config: DriverConfig, errors: u32, advanced: bool) -> Delay {
    if errors == 0 {
        if advanced {
            Delay { nanos: 0 }
        } else {
            config.poll_interval
        }
    } else {
        let backoff = config.backoff_base.nanos * factor_after(errors);
        let capped = if backoff > crate::delay::MAX_NANOS {
            crate::delay::MAX_NANOS as int
        } else {
            backoff
        };
        if config.backoff_max.nanos < capped {
            config.backoff_max
        } else {
            Delay { nanos: capped as u128 }
        }
    }
}

/// Doubles the factor with each error in a row.
fn backoff_factor(errors: u32) -> (factor: u32)
    requires
        errors > 0,
    ensures
        factor == factor_after(errors),
{
    if errors > 32 {
        return u32::MAX;
    }
    let mut factor: u32 = 1;
    let mut doubled: u32 = 0;
    proof {
        vstd::arithmetic::power2::lemma2_to64();
    }
    while doubled < errors - 1
        invariant
            doubled <= errors - 1 < 32,
            factor == vstd::arithmetic::power2::pow2(doubled as nat),
        decreases errors - doubled,
    {
        proof {
            vstd::arithmetic::power2::lemma_pow2_unfold((doubled + 1) as nat);
            vstd::arithmetic::power2::lemma2_to64();
            if doubled + 1 < 31 {
                vstd::arithmetic::power2::lemma_pow2_strictly_increases(
                    (doubled + 1) as nat,
                    31,
                );
            }
        }
        factor = factor * 2;
        doubled += 1;
    }
    factor
}

/// True when a log starts with another.
pub open spec fn is_prefix<S: Source>(part: Seq<Asked<S>>, whole: Seq<Asked<S>>) -> bool {
    part.len() <= whole.len() && forall|i: int| 0 <= i < part.len() ==> whole[i] == part[i]
}

/// However a log goes on, its sweep goes on from here.
spec fn sweep_goes_on<S: Source>(
    log: Seq<Asked<S>>,
    at: int,
    first: u64,
    mark: Option<u64>,
    from: u64,
    scanned_to: Option<u64>,
    head: u64,
    window: u64,
) -> bool {
    forall|full: Seq<Asked<S>>| #[trigger]
        is_prefix(log, full) ==> driver_model::sweep(full, at, first, head, window, mark)
            == driver_model::sweep(full, log.len() as int, from, head, window, scanned_to)
}

/// A sweep that ends with the last question of the log.
proof fn lemma_sweep_ends<S: Source>(
    log: Seq<Asked<S>>,
    prior: Seq<Asked<S>>,
    at: int,
    first: u64,
    mark: Option<u64>,
    from: u64,
    scanned_to: Option<u64>,
    head: u64,
    window: u64,
)
    requires
        log.len() == prior.len() + 1,
        is_prefix(prior, log),
        sweep_goes_on(prior, at, first, mark, from, scanned_to, head, window),
    ensures
        driver_model::sweep(log, at, first, head, window, mark) == driver_model::sweep(
            log,
            prior.len() as int,
            from,
            head,
            window,
            scanned_to,
        ),
{
    assert(is_prefix(prior, log));
}

/// A sweep that ends because nothing is left to read.
proof fn lemma_sweep_none<S: Source>(
    log: Seq<Asked<S>>,
    at: int,
    first: u64,
    mark: Option<u64>,
    from: u64,
    scanned_to: Option<u64>,
    head: u64,
    window: u64,
)
    requires
        from > head,
        sweep_goes_on(log, at, first, mark, from, scanned_to, head, window),
    ensures
        driver_model::sweep(log, at, first, head, window, mark) == Some(
            driver_model::Swept {
                failed: false,
                entries: Seq::<(BlockRef, u32, S::Event)>::empty(),
                scanned_to,
            },
        ),
{
    assert(is_prefix(log, log));
}

/// A sweep that goes on behind a range without events.
proof fn lemma_sweep_step<S: Source>(
    log: Seq<Asked<S>>,
    prior: Seq<Asked<S>>,
    at: int,
    first: u64,
    mark: Option<u64>,
    from: u64,
    scanned_to: Option<u64>,
    head: u64,
    window: u64,
)
    requires
        log.len() == prior.len() + 1,
        is_prefix(prior, log),
        from <= head,
        sweep_goes_on(prior, at, first, mark, from, scanned_to, head, window),
        ({
            let to = driver_model::least(head, driver_model::plus(from, (window - 1) as u64));
            let last = log[prior.len() as int];
            &&& to < head
            &&& last.call == (SourceCall::<S::Event>::EventsIn {
                from,
                to,
                given: Seq::empty(),
            })
            &&& last.reply matches SourceReply::Events(entries)
            &&& entries.len() == 0
        }),
    ensures
        ({
            let to = driver_model::least(head, driver_model::plus(from, (window - 1) as u64));
            sweep_goes_on(log, at, first, mark, (to + 1) as u64, Some(to), head, window)
        }),
{
    let to = driver_model::least(head, driver_model::plus(from, (window - 1) as u64));
    assert forall|full: Seq<Asked<S>>| #[trigger] is_prefix(log, full) implies driver_model::sweep(
        full,
        at,
        first,
        head,
        window,
        mark,
    ) == driver_model::sweep(
        full,
        log.len() as int,
        (to + 1) as u64,
        head,
        window,
        Some(to),
    ) by {
        assert forall|i: int| 0 <= i < prior.len() implies full[i] == prior[i] by {
            assert(full[i] == log[i]);
        }
        assert(is_prefix(prior, full));
        assert(full[prior.len() as int] == log[prior.len() as int]);
    }
}

/// A scan that got as far as the ranges.
proof fn lemma_scan_sweeps<F: Fold, S: Source<Event = F::Event>, K>(
    config: DriverConfig,
    before: DriverState<F, S, K>,
    boundary: Option<BlockRef>,
    head: u64,
    log: Seq<Asked<S>>,
    at: int,
    window: u64,
)
    requires
        at == (if before.engine.cursor is Some {
            1int
        } else {
            0int
        }),
        at < log.len(),
        log[at].call == SourceCall::<S::Event>::Head,
        log[at].reply == SourceReply::<S::Event, S::Error>::Head(head),
        before.engine.cursor matches Some(cursor) ==> log[0].call == SourceCall::<
            S::Event,
        >::HeaderAt(cursor.block) && log[0].reply == SourceReply::<S::Event, S::Error>::Header(
            boundary,
        ),
        before.engine.cursor is None ==> boundary is None,
    ensures
        ({
            let first = driver_model::scan_start(
                before.engine.cursor,
                before.scanned_to,
                config.start_block,
            );
            driver_model::scan_of(
                log,
                before.engine.cursor,
                before.scanned_to,
                config.start_block,
                window,
            ) == (match driver_model::sweep(
                log,
                at + 1,
                first,
                head,
                window,
                before.scanned_to,
            ) {
                Some(swept) => Some(
                    driver_model::Scanned {
                        failed: swept.failed,
                        boundary,
                        entries: swept.entries,
                        scanned_to: swept.scanned_to,
                    },
                ),
                None => None,
            })
        }),
{
}

/// A scan that found nothing but a failure.
proof fn lemma_scan_failed<F: Fold, S: Source<Event = F::Event>, K>(
    config: DriverConfig,
    before: DriverState<F, S, K>,
    after: DriverState<F, S, K>,
    log: Seq<Asked<S>>,
    window: u64,
    none: Seq<(BlockRef, u32, F::Event)>,
)
    requires
        driver_model::reads_by(before.source, log, before.engine.cursor, window),
        none.len() == 0,
        source::asked(before.source, log, after.source),
        driver_model::scan_of(
            log,
            before.engine.cursor,
            before.scanned_to,
            config.start_block,
            driver_model::positive(window),
        ) matches Some(scanned) && scanned.failed && scanned.entries.len() == 0 && after == (
        DriverState { source: after.source, scanned_to: scanned.scanned_to, ..before }),
    ensures
        driver_model::scan_done(config, before, after, None),
{
    let scanned = driver_model::scan_of(
        log,
        before.engine.cursor,
        before.scanned_to,
        config.start_block,
        driver_model::positive(window),
    )->0;
    assert(scanned.entries =~= none);
    let spans = driver_model::grouped(none);
}

/// A scan that found a batch.
proof fn lemma_scan_found<F: Fold, S: Source<Event = F::Event>, K>(
    config: DriverConfig,
    before: DriverState<F, S, K>,
    after: DriverState<F, S, K>,
    log: Seq<Asked<S>>,
    window: u64,
    sorted: Seq<(BlockRef, u32, F::Event)>,
    found: (Option<BlockRef>, Seq<Span<F::Event>>),
)
    requires
        driver_model::reads_by(before.source, log, before.engine.cursor, window),
        source::asked(before.source, log, after.source),
        driver_model::scan_of(
            log,
            before.engine.cursor,
            before.scanned_to,
            config.start_block,
            driver_model::positive(window),
        ) matches Some(scanned) && !scanned.failed && driver_model::arranged(
            scanned.entries,
            sorted,
        ) && scanned.boundary == found.0 && after == (DriverState {
            source: after.source,
            scanned_to: scanned.scanned_to,
            ..before
        }),
        driver_model::grouped(sorted) == found.1,
    ensures
        driver_model::scan_done(config, before, after, Some(found)),
{
}

} // verus!
