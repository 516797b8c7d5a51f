use chainfold::{
    ApplySummary, Batch, BlockRef, ConfigError, Delay, DivergenceCause, Driver, DriverConfig,
    DurabilityLost, Engine, EngineConfig, EngineStatus, Fold, FoldError, Position, ReplayHorizon,
    SnapshotSink, Source, Tick,
};

/// Fold that records every applied event and can fail on a scripted position.
#[derive(Debug, Clone, Default, PartialEq)]
pub struct RecordingFold {
    /// Every position the fold accepted, with its event.
    pub applied: Vec<(Position, u64)>,
    /// Position the fold fails at, and how.
    pub fail_at: Option<(Position, FailKind)>,
}

/// Scripted failure the recording fold raises at its `fail_at` position.
#[derive(Debug, Clone, Copy, PartialEq, Eq)]
pub enum FailKind {
    /// Declares the event not mine.
    Skip,
    /// Refuses the event with clean state below it.
    Halt,
    /// Records the event, then refuses it.
    Poison,
}

impl Fold for RecordingFold {
    type Event = u64;
    type View = Vec<(Position, u64)>;
    type Error = FailKind;

    fn apply(&mut self, pos: Position, event: &u64) -> Result<(), FoldError<FailKind>> {
        if let Some((scripted_pos, kind)) = self.fail_at {
            if scripted_pos == pos {
                return match kind {
                    FailKind::Skip => Err(FoldError::Skip(kind)),
                    FailKind::Halt => Err(FoldError::Halt(kind)),
                    FailKind::Poison => {
                        self.applied.push((pos, *event));
                        Err(FoldError::Poison(kind))
                    }
                };
            }
        }
        self.applied.push((pos, *event));
        Ok(())
    }

    fn view(&self) -> Vec<(Position, u64)> {
        self.applied.clone()
    }
}

/// One splitmix64 mixing step.
fn splitmix64(mut x: u64) -> u64 {
    x = x.wrapping_add(0x9e3779b97f4a7c15);
    x = (x ^ (x >> 30)).wrapping_mul(0xbf58476d1ce4e5b9);
    x = (x ^ (x >> 27)).wrapping_mul(0x94d049bb133111eb);
    x ^ (x >> 31)
}

/// Derives a block hash from its parent hash, number, and salt across four lanes.
fn block_hash(parent_hash: [u8; 32], number: u64, salt: u64) -> [u8; 32] {
    let mut hash = [0u8; 32];
    for lane in 0..4usize {
        let offset = lane * 8;
        let parent_lane = u64::from_le_bytes(
            parent_hash[offset..offset + 8].try_into().expect("lane slice is exactly 8 bytes"),
        );
        let value = splitmix64(parent_lane ^ number ^ salt ^ lane as u64);
        hash[offset..offset + 8].copy_from_slice(&value.to_le_bytes());
    }
    hash
}

/// One recorded block: identity, ancestry-committing hash, and its event payload.
#[derive(Debug, Clone)]
struct ScriptedBlock {
    number: u64,
    hash: [u8; 32],
    events: Vec<u64>,
}

/// In-memory chain with deterministic ancestry-committing hashes and reorg injection.
#[derive(Debug, Clone)]
pub struct ScriptedChain {
    first_block: u64,
    blocks: Vec<ScriptedBlock>,
    next_salt: u64,
    horizon: ReplayHorizon,
    window: u64,
    batch_blocks: usize,
    pending_failures: u32,
}

/// Error returned by a scripted poll that consumed its injected failure budget.
#[derive(Debug, Clone, Copy, PartialEq, Eq)]
pub struct PollFailure;

#[allow(dead_code)]
impl ScriptedChain {
    /// Builds an empty chain whose first pushed block is numbered `first_block`.
    pub fn new(first_block: u64) -> Self {
        Self {
            first_block,
            blocks: Vec::new(),
            next_salt: 0,
            horizon: ReplayHorizon::Genesis,
            window: 1000,
            batch_blocks: usize::MAX,
            pending_failures: 0,
        }
    }

    /// Appends a block carrying the given events, hashed from the tip and a fresh salt.
    pub fn push_block(&mut self, events: &[u64]) {
        let number = self.first_block + self.blocks.len() as u64;
        let parent_hash = self.blocks.last().map_or([0u8; 32], |block| block.hash);
        let hash = block_hash(parent_hash, number, self.next_salt);
        self.next_salt += 1;
        self.blocks.push(ScriptedBlock {
            number,
            hash,
            events: events.to_vec(),
        });
    }

    /// Replaces the last depth blocks; hashes of all replacements change.
    pub fn reorg(&mut self, depth: usize, replacements: &[&[u64]]) {
        let keep = self.blocks.len().saturating_sub(depth);
        self.blocks.truncate(keep);
        for events in replacements {
            self.push_block(events);
        }
    }

    /// Current tip header, or None for an empty chain.
    pub fn tip(&self) -> Option<BlockRef> {
        self.blocks.last().map(|block| BlockRef {
            number: block.number,
            hash: block.hash,
        })
    }

    /// Header for an exact block number if it exists on the current chain.
    pub fn header(&self, number: u64) -> Option<BlockRef> {
        let offset = number.checked_sub(self.first_block)?;
        let index = usize::try_from(offset).ok()?;
        self.blocks.get(index).map(|block| BlockRef {
            number: block.number,
            hash: block.hash,
        })
    }

    /// Sets the horizon the chain reports.
    pub fn set_horizon(&mut self, horizon: ReplayHorizon) {
        self.horizon = horizon;
    }

    /// Sets the blocks per query.
    pub fn set_window(&mut self, window: u64) {
        self.window = window;
    }

    /// Caps the event-bearing blocks served per batch.
    pub fn set_batch_blocks(&mut self, blocks: usize) {
        self.batch_blocks = blocks;
    }

    /// The next n polls return PollFailure.
    pub fn fail_next_polls(&mut self, n: u32) {
        self.pending_failures = n;
    }

    /// Spends one injected failure, if there is one.
    fn poll(&mut self) -> Result<(), PollFailure> {
        if self.pending_failures > 0 {
            self.pending_failures -= 1;
            return Err(PollFailure);
        }
        Ok(())
    }

    /// Every event-bearing block above the cursor, with the current header of the cursor block.
    pub fn next_batch(
        &mut self,
        cursor: Option<Position>,
        out: &mut Batch<u64>,
    ) -> Result<(), PollFailure> {
        self.poll()?;
        out.clear();
        let start_number = match cursor {
            Some(pos) => {
                out.boundary = self.header(pos.block);
                pos.block.checked_add(1).expect("cursor block at u64::MAX")
            }
            None => self.first_block,
        };
        let mut served = 0usize;
        for block in &self.blocks {
            if block.number < start_number || block.events.is_empty() {
                continue;
            }
            if served >= self.batch_blocks {
                break;
            }
            out.push_block(
                BlockRef {
                    number: block.number,
                    hash: block.hash,
                },
                block
                    .events
                    .iter()
                    .enumerate()
                    .map(|(index, event)| {
                        (u32::try_from(index).expect("log index fits in u32"), *event)
                    })
                    .collect(),
            );
            served += 1;
        }
        Ok(())
    }
}

impl Source for ScriptedChain {
    type Event = u64;
    type Error = PollFailure;

    fn head(&mut self) -> Result<u64, PollFailure> {
        self.poll()?;
        Ok(self.tip().map_or(0, |block| block.number))
    }

    fn header_at(&mut self, number: u64) -> Result<Option<BlockRef>, PollFailure> {
        self.poll()?;
        Ok(self.header(number))
    }

    fn events_in(
        &mut self,
        from: u64,
        to: u64,
        out: &mut Vec<(BlockRef, u32, u64)>,
    ) -> Result<(), PollFailure> {
        self.poll()?;
        for block in &self.blocks {
            if from <= block.number && block.number <= to {
                let header = BlockRef {
                    number: block.number,
                    hash: block.hash,
                };
                for (index, event) in block.events.iter().enumerate() {
                    out.push((header, index as u32, *event));
                }
            }
        }
        Ok(())
    }

    fn horizon(&self) -> ReplayHorizon {
        self.horizon
    }

    fn window(&self) -> u64 {
        self.window
    }
}

/// Sink recording each accepted offer's durable point; fails scripted offers.
#[derive(Debug, Clone, Default, PartialEq)]
pub struct WatermarkSink {
    /// Durable point of every accepted offer, in offer order.
    pub offered: Vec<Position>,
    /// Offers still scripted to fail before the sink accepts again.
    pub fail_next_offers: u32,
}

impl<F: Fold> SnapshotSink<F> for WatermarkSink {
    fn offer(&mut self, engine: &Engine<F>) -> Result<(), DurabilityLost> {
        if self.fail_next_offers > 0 {
            self.fail_next_offers -= 1;
            return Err(DurabilityLost);
        }
        if let Some(point) = engine.durable_point() {
            self.offered.push(point);
        }
        Ok(())
    }

    fn durable_cursor(&self) -> Option<Position> {
        self.offered.last().copied()
    }
}



/// Wraps a scripted chain, counting probes and optionally failing the next few.
struct Probe {
    inner: ScriptedChain,
    calls: u32,
    fail_next: u32,
}

impl Probe {
    fn new(inner: ScriptedChain) -> Self {
        Self {
            inner,
            calls: 0,
            fail_next: 0,
        }
    }

    fn fail_next_probes(&mut self, n: u32) {
        self.fail_next = n;
    }
}

impl Source for Probe {
    type Event = u64;
    type Error = PollFailure;

    fn head(&mut self) -> Result<u64, PollFailure> {
        self.inner.head()
    }

    fn header_at(&mut self, number: u64) -> Result<Option<BlockRef>, PollFailure> {
        self.calls += 1;
        if self.fail_next > 0 {
            self.fail_next -= 1;
            return Err(PollFailure);
        }
        self.inner.header_at(number)
    }

    fn events_in(
        &mut self,
        from: u64,
        to: u64,
        out: &mut Vec<(BlockRef, u32, u64)>,
    ) -> Result<(), PollFailure> {
        self.inner.events_in(from, to, out)
    }

    fn horizon(&self) -> ReplayHorizon {
        self.inner.horizon()
    }

    fn window(&self) -> u64 {
        self.inner.window()
    }
}

/// Source that re-serves the same one-event block whatever range is asked for,
/// so the engine dedupes every poll after the first.
struct Stuck {
    block: BlockRef,
}

impl Source for Stuck {
    type Event = u64;
    type Error = PollFailure;

    fn head(&mut self) -> Result<u64, PollFailure> {
        // above the block, so the scan keeps querying and keeps being re-served it
        Ok(self.block.number + 1)
    }

    fn header_at(&mut self, _number: u64) -> Result<Option<BlockRef>, PollFailure> {
        Ok(Some(self.block))
    }

    fn events_in(
        &mut self,
        _from: u64,
        _to: u64,
        out: &mut Vec<(BlockRef, u32, u64)>,
    ) -> Result<(), PollFailure> {
        out.push((self.block, 0, 1));
        Ok(())
    }
}

fn engine_config(checkpoint_slots: usize) -> EngineConfig {
    EngineConfig {
        ring_capacity: 8,
        checkpoint_slots,
    }
}

fn new_driver(
    chain: ScriptedChain,
    engine: EngineConfig,
    config: DriverConfig,
) -> Driver<RecordingFold, ScriptedChain> {
    Driver::new(RecordingFold::default(), chain, engine, config).unwrap()
}

fn run_to_idle<F, S, K>(driver: &mut Driver<F, S, K>) -> Tick
where
    F: Fold + Clone,
    S: Source<Event = F::Event>,
    K: SnapshotSink<F>,
{
    let mut outcome = driver.tick();
    while !matches!(outcome, Tick::Idle) {
        outcome = driver.tick();
    }
    outcome
}

fn collect_to_idle<F, S, K>(driver: &mut Driver<F, S, K>) -> Vec<Tick>
where
    F: Fold + Clone,
    S: Source<Event = F::Event>,
    K: SnapshotSink<F>,
{
    let mut ticks = vec![driver.tick()];
    while !matches!(ticks.last(), Some(Tick::Idle)) {
        ticks.push(driver.tick());
    }
    ticks
}

/// Chain of `blocks` one-event blocks served one event-bearing block per poll.
fn one_event_chain(blocks: u64) -> ScriptedChain {
    let mut chain = ScriptedChain::new(1);
    for value in 1..=blocks {
        chain.push_block(&[value]);
    }
    chain.set_window(1);
    chain
}

fn cadence_config(checkpoint: u64, snapshot: u64) -> DriverConfig {
    DriverConfig {
        checkpoint_interval: Some(checkpoint),
        snapshot_interval: Some(snapshot),
        ..DriverConfig::default()
    }
}

/// Recording fold over a scripted chain, offering snapshots to a watermark sink.
type SinkDriver = Driver<RecordingFold, ScriptedChain, WatermarkSink>;

fn sink_driver(blocks: u64, slots: usize, config: DriverConfig) -> SinkDriver {
    Driver::with_sink(
        RecordingFold::default(),
        one_event_chain(blocks),
        WatermarkSink::default(),
        engine_config(slots),
        config,
    )
    .unwrap()
}

fn probed_sink_driver(blocks: u64, slots: usize, config: DriverConfig) -> SinkDriver {
    Driver::with_sink(
        RecordingFold::default(),
        one_event_chain(blocks),
        WatermarkSink::default(),
        engine_config(slots),
        config,
    )
    .unwrap()
}

#[test]
fn snapshot_interval_offers_on_durable_point_cadence() {
    // given twelve one-event blocks, 3 slots, checkpoints every 2, snapshots every 4
    let mut driver = sink_driver(12, 3, cadence_config(2, 4));
    // when driven to the tip
    run_to_idle(&mut driver);
    // then offers land on durable-point progress, not cursor progress
    assert_eq!(
        driver.sink().offered,
        vec![Position::new(1, 0), Position::new(5, 0)]
    );
}

#[test]
fn no_sink_never_offers_and_reports_no_durable_cursor() {
    // given a NoSink driver over four blocks with both cadences at their tightest
    let mut driver =
        new_driver(one_event_chain(4), engine_config(2), cadence_config(1, 1));
    // when driven to the tip collecting every tick
    let ticks = collect_to_idle(&mut driver);
    // then no tick reports lost durability and the status carries no durable cursor
    assert!(!ticks.contains(&Tick::DurabilityLost));
    assert_eq!(driver.status().durable_cursor, None);
    assert!(!driver.status().durability_lost);
}

#[test]
fn zero_checkpoint_slots_never_offers() {
    // given zero checkpoint slots over four blocks with both cadences at 1
    let mut driver = sink_driver(4, 0, cadence_config(1, 1));
    // when driven to the tip
    run_to_idle(&mut driver);
    // then nothing was ever offered and the durable cursor stays None
    assert!(driver.sink().offered.is_empty());
    assert_eq!(driver.status().durable_cursor, None);
}

#[test]
fn durable_cursor_trails_the_live_cursor_by_checkpoint_coverage() {
    // given twelve blocks, 3 slots, checkpoints every 2, snapshots every block
    let mut driver = sink_driver(12, 3, cadence_config(2, 1));
    // when driven to the tip
    run_to_idle(&mut driver);
    // then the durable cursor trails the live cursor by at least (slots - 1) * interval
    let status = driver.status();
    assert_eq!(status.cursor, Some(Position::new(12, 0)));
    assert_eq!(status.durable_cursor, Some(Position::new(7, 0)));
    assert!(status.cursor.unwrap().block - status.durable_cursor.unwrap().block >= 4);
}

#[test]
fn reorg_across_the_live_cursor_leaves_the_durable_cursor_untouched() {
    // given eight blocks driven to a durable cursor of (5, 0) with 4 slots
    let mut driver = probed_sink_driver(8, 4, cadence_config(1, 1));
    run_to_idle(&mut driver);
    let before = driver.status().durable_cursor;
    assert_eq!(before, Some(Position::new(5, 0)));
    // when a depth-2 reorg rolls the driver back
    driver.source_mut().reorg(2, &[&[70], &[80]]);
    let outcome = driver.tick();
    // then the rollback lands above the durable cursor and leaves it unchanged
    let status = driver.status();
    assert_eq!(
        outcome,
        Tick::RolledBack {
            to: Some(Position::new(6, 0)),
        }
    );
    assert_eq!(status.durable_cursor, before);
    assert!(status.durable_cursor.unwrap() <= Position::new(6, 0));
}

#[test]
fn sink_failure_is_reported_once_then_folding_continues() {
    // given a sink scripted to refuse its first offer, 2 slots, six blocks
    let mut driver = Driver::with_sink(
        RecordingFold::default(),
        one_event_chain(6),
        WatermarkSink {
            offered: Vec::new(),
            fail_next_offers: 1,
        },
        engine_config(2),
        cadence_config(1, 1),
    )
    .unwrap();
    // when driven to the tip collecting every tick
    let ticks = collect_to_idle(&mut driver);
    // then exactly one tick reports the loss and folding still reaches every event
    let lost = ticks
        .iter()
        .filter(|tick| **tick == Tick::DurabilityLost)
        .count();
    assert_eq!(lost, 1);
    assert!(driver.status().durability_lost);
    assert!(driver.sink().offered.is_empty());
    let expected: Vec<(Position, u64)> = (1..=6u64)
        .map(|value| (Position::new(value, 0), value))
        .collect();
    assert_eq!(driver.engine().fold().applied, expected);
}

#[test]
fn rollback_does_not_suppress_the_next_offer() {
    // given eight blocks driven to the tip with 4 slots and both cadences at 1
    let mut driver = probed_sink_driver(8, 4, cadence_config(1, 1));
    run_to_idle(&mut driver);
    // when a depth-3 reorg rolls back and folding resumes to the new tip
    driver.source_mut().reorg(3, &[&[60], &[70], &[80], &[90]]);
    let outcome = driver.tick();
    let Tick::RolledBack { to } = outcome else {
        panic!("expected RolledBack, got {outcome:?}");
    };
    let restore = to.expect("the rollback restores a cursor").block;
    run_to_idle(&mut driver);
    // then offers stayed strictly ascending and resumed above the restore point
    let offered = &driver.sink().offered;
    assert!(offered.windows(2).all(|pair| pair[0].block < pair[1].block));
    assert!(offered.last().expect("offers were made").block > restore);
}

#[test]
fn resync_lowers_the_reported_durable_cursor() {
    // given eight blocks driven to a durable cursor at block 5
    let mut driver = sink_driver(8, 4, cadence_config(1, 1));
    run_to_idle(&mut driver);
    let before = driver.status().durable_cursor.expect("offers were made");
    assert_eq!(before, Position::new(5, 0));
    // when a reorg below the ring forces a resync and folding rebuilds from genesis
    driver.source_mut().reorg(8, &[&[10], &[20], &[30], &[40]]);
    let outcome = driver.tick();
    run_to_idle(&mut driver);
    // then the durable cursor names the rebuilt state, below where it stood
    assert_eq!(outcome, Tick::Resynced);
    let after = driver.status().durable_cursor.expect("offers resumed");
    assert!(after < before);
}

#[test]
fn driver_folds_to_tip_and_reports_caught_up() {
    // given a ten-block chain with one event per block
    let mut chain = ScriptedChain::new(1);
    for value in 1..=10u64 {
        chain.push_block(&[value]);
    }
    let mut driver = new_driver(chain, engine_config(0), DriverConfig::default());
    // when ticking until Idle
    run_to_idle(&mut driver);
    // then the view holds every event in order and is_caught_up
    let expected: Vec<(Position, u64)> = (1..=10u64)
        .map(|value| (Position::new(value, 0), value))
        .collect();
    assert_eq!(driver.engine().fold().applied, expected);
    assert!(driver.is_caught_up());
}

#[test]
fn empty_poll_is_idle() {
    // given a caught-up driver over a two-block chain
    let mut chain = ScriptedChain::new(1);
    chain.push_block(&[1]);
    chain.push_block(&[2]);
    let mut driver = new_driver(chain, engine_config(0), DriverConfig::default());
    driver.tick();
    // when ticked again
    let outcome = driver.tick();
    // then Idle
    assert_eq!(outcome, Tick::Idle);
}

#[test]
fn source_errors_back_off_exponentially() {
    // given a chain that fails the next three polls
    let mut chain = ScriptedChain::new(1);
    chain.push_block(&[1]);
    chain.fail_next_polls(3);
    let mut driver = new_driver(chain, engine_config(0), DriverConfig::default());
    // when ticking
    let first = driver.tick();
    let first_delay = driver.next_delay();
    let second = driver.tick();
    let second_delay = driver.next_delay();
    let third = driver.tick();
    let third_delay = driver.next_delay();
    let fourth = driver.tick();
    // then three SourceError ticks with next_delay 200ms, 400ms, 800ms, then a
    // progressing tick that clears the backoff
    assert_eq!(first, Tick::SourceError);
    assert_eq!(first_delay, Delay::from_millis(200));
    assert_eq!(second, Tick::SourceError);
    assert_eq!(second_delay, Delay::from_millis(400));
    assert_eq!(third, Tick::SourceError);
    assert_eq!(third_delay, Delay::from_millis(800));
    assert!(matches!(fourth, Tick::Progressed(_)));
    assert_eq!(driver.next_delay(), Delay::zero());
}

#[test]
fn backoff_caps_at_max() {
    // given a chain that fails every poll
    let mut chain = ScriptedChain::new(1);
    chain.fail_next_polls(u32::MAX);
    let mut driver = new_driver(chain, engine_config(0), DriverConfig::default());
    // when the doubling passes backoff_max
    for _ in 0..10 {
        driver.tick();
    }
    // then next_delay equals backoff_max
    assert_eq!(driver.next_delay(), Delay::from_secs(30));
}

#[test]
fn catch_up_ticks_ask_for_no_delay_until_the_tip() {
    // given ten one-event blocks served one per poll
    let mut driver = new_driver(
        one_event_chain(10),
        engine_config(0),
        DriverConfig::default(),
    );
    // when one tick folds a block and the rest run to the tip
    driver.tick();
    let while_behind = driver.next_delay();
    run_to_idle(&mut driver);
    let at_tip = driver.next_delay();
    // then the catch-up tick asks for no delay and the tip tick asks for the interval
    assert_eq!(while_behind, Delay::zero());
    assert_eq!(at_tip, Delay::from_secs(1));
}

#[test]
fn an_empty_window_does_not_report_caught_up_while_behind_head() {
    // given ten blocks where only the last carries events, read one block per query
    let mut chain = ScriptedChain::new(1);
    for _ in 1..10 {
        chain.push_block(&[]);
    }
    chain.push_block(&[42]);
    chain.set_window(1);
    let mut driver = new_driver(chain, engine_config(0), DriverConfig::from_block(1));
    // when polled once
    let tick = driver.tick();
    // then the scan walked every empty window instead of stopping at the first
    assert!(matches!(tick, Tick::Progressed(_)), "got {tick:?}");
    assert!(!driver.is_caught_up());
    assert_eq!(
        driver.engine().fold().applied,
        vec![(Position::new(10, 0), 42)]
    );
}

#[test]
fn rollback_replays_from_the_restored_cursor_not_the_scan_mark() {
    // given a driver caught up on ten blocks, checkpointing every block
    let mut chain = ScriptedChain::new(1);
    for value in 1..=10u64 {
        chain.push_block(&[value]);
    }
    chain.set_window(1);
    let mut driver = new_driver(
        chain,
        engine_config(4),
        DriverConfig {
            checkpoint_interval: Some(1),
            ..DriverConfig::from_block(1)
        },
    );
    run_to_idle(&mut driver);
    // when the last three blocks are replaced
    driver.source_mut().reorg(3, &[&[80], &[90], &[100]]);
    run_to_idle(&mut driver);
    // then the scan restarted at the restored cursor, so the replacements folded;
    // resuming at the high-water mark instead would have skipped them entirely
    let applied: Vec<u64> = driver
        .engine()
        .fold()
        .applied
        .iter()
        .map(|(_, event)| *event)
        .collect();
    assert_eq!(applied, vec![1, 2, 3, 4, 5, 6, 7, 80, 90, 100]);
}

#[test]
fn a_fully_deduped_batch_keeps_the_poll_interval() {
    // given a source that re-serves the same one-event block on every poll
    let block = BlockRef {
        number: 1,
        hash: [7u8; 32],
    };
    let mut driver = Driver::new(
        RecordingFold::default(),
        Stuck { block },
        engine_config(0),
        DriverConfig::default(),
    )
    .unwrap();
    // when the first tick applies the block and the second dedupes it
    let applying = driver.tick();
    let after_apply = driver.next_delay();
    let deduping = driver.tick();
    let after_dedup = driver.next_delay();
    // then only the applying tick asks for an immediate re-poll
    assert_eq!(
        applying,
        Tick::Progressed(ApplySummary {
            applied: 1,
            deduped: 0,
            skipped: 0,
        })
    );
    assert_eq!(after_apply, Delay::zero());
    assert_eq!(
        deduping,
        Tick::Progressed(ApplySummary {
            applied: 0,
            deduped: 1,
            skipped: 0,
        })
    );
    assert_eq!(after_dedup, Delay::from_secs(1));
}

#[test]
fn fork_without_probe_resyncs_from_start() {
    // given a chain of five one-event blocks driven to the tip
    let mut chain = ScriptedChain::new(1);
    for value in 1..=5u64 {
        chain.push_block(&[value]);
    }
    let mut driver = new_driver(chain, engine_config(0), DriverConfig::default());
    driver.tick();
    // when the chain reorgs below the cursor and the boundary mismatch surfaces
    driver.source_mut().reorg(3, &[&[10], &[20], &[30]]);
    let outcome = driver.tick();
    // then the tick reports Resynced
    assert_eq!(outcome, Tick::Resynced);
    // and subsequent ticks rebuild the post-reorg view from scratch
    run_to_idle(&mut driver);
    let expected = vec![
        (Position::new(1, 0), 1),
        (Position::new(2, 0), 2),
        (Position::new(3, 0), 10),
        (Position::new(4, 0), 20),
        (Position::new(5, 0), 30),
    ];
    assert_eq!(driver.engine().fold().applied, expected);
}

#[test]
fn resync_with_moved_horizon_is_terminal() {
    // given a fork and a horizon raised above start_block
    let mut chain = ScriptedChain::new(1);
    for value in 1..=5u64 {
        chain.push_block(&[value]);
    }
    let mut driver = new_driver(chain, engine_config(0), DriverConfig::default());
    driver.tick();
    driver.source_mut().reorg(3, &[&[10], &[20], &[30]]);
    driver.source_mut().set_horizon(ReplayHorizon::FromBlock(1));
    // when the fork surfaces
    let outcome = driver.tick();
    // then Terminal with HorizonExceeded { needed, horizon }
    assert_eq!(
        outcome,
        Tick::Terminal(EngineStatus::Unrecoverable {
            cause: DivergenceCause::HorizonExceeded {
                needed: 0,
                horizon: 1,
            },
        })
    );
}

#[test]
fn construction_refuses_horizon_above_start() {
    // given a chain whose horizon starts at block 100 and default start_block 0
    let mut chain = ScriptedChain::new(1);
    chain.set_horizon(ReplayHorizon::FromBlock(100));
    // when constructing
    let result = Driver::new(
        RecordingFold::default(),
        chain,
        engine_config(0),
        DriverConfig::default(),
    );
    // then HorizonExceedsStart
    assert_eq!(
        result.err(),
        Some(ConfigError::HorizonExceedsStart {
            start: 0,
            horizon: 100,
        })
    );
}

#[test]
fn auto_checkpoint_follows_interval() {
    // given checkpoint_interval 4 over twelve one-event blocks polled one at a time
    let mut chain = ScriptedChain::new(1);
    for value in 1..=12u64 {
        chain.push_block(&[value]);
    }
    chain.set_window(1);
    let config = DriverConfig {
        checkpoint_interval: Some(4),
        ..DriverConfig::default()
    };
    let engine = EngineConfig {
        ring_capacity: 16,
        checkpoint_slots: 8,
    };
    let mut driver = new_driver(chain, engine, config);
    // when driven to the tip
    run_to_idle(&mut driver);
    // then checkpoint_count is at least 3
    assert!(driver.engine().checkpoint_count() >= 3);
}

#[test]
fn checkpoints_expire_once_their_block_leaves_the_ring() {
    // given checkpoint_interval 4 over twelve blocks with a ring holding only 8
    let mut chain = ScriptedChain::new(1);
    for value in 1..=12u64 {
        chain.push_block(&[value]);
    }
    chain.set_window(1);
    let config = DriverConfig {
        checkpoint_interval: Some(4),
        ..DriverConfig::default()
    };
    let mut driver = new_driver(chain, engine_config(8), config);
    // when driven to the tip, leaving the block 4 checkpoint outside the window
    run_to_idle(&mut driver);
    // then only the checkpoints the ring still observes are retained
    assert_eq!(driver.engine().checkpoint_count(), 2);
    assert_eq!(driver.engine().durable_point(), Some(Position::new(5, 0)));
}

#[test]
fn halt_is_terminal_and_recoverable_via_engine_mut() {
    // given a fold that halts at block 3 after a checkpoint taken at block 2
    let mut chain = ScriptedChain::new(1);
    chain.push_block(&[1]);
    chain.push_block(&[2]);
    chain.push_block(&[3]);
    chain.push_block(&[4]);
    chain.push_block(&[5]);
    chain.set_window(1);
    let halt_pos = Position::new(3, 0);
    let fold = RecordingFold {
        applied: Vec::new(),
        fail_at: Some((halt_pos, FailKind::Halt)),
    };
    let mut driver =
        Driver::new(fold, chain, engine_config(2), DriverConfig::default()).unwrap();
    driver.tick();
    driver.tick();
    driver.checkpoint();
    // when ticked to Terminal
    let outcome = driver.tick();
    assert_eq!(
        outcome,
        Tick::Terminal(EngineStatus::Halted { at: halt_pos })
    );
    driver.source_mut().reorg(3, &[&[], &[40], &[50]]);
    // then engine_mut rollback restores Active
    let restored = driver.engine_mut().rollback_at_or_below(2).unwrap();
    assert_eq!(restored, Some(Position::new(2, 0)));
    assert_eq!(driver.engine().status(), EngineStatus::Active);
    // and further ticks reach the tip
    run_to_idle(&mut driver);
    assert!(driver.is_caught_up());
    assert_eq!(driver.engine().cursor(), Some(Position::new(5, 0)));
}

#[test]
fn generation_increments_every_tick() {
    // given a driver over an empty chain
    let chain = ScriptedChain::new(1);
    let mut driver = new_driver(chain, engine_config(0), DriverConfig::default());
    let start = driver.status().generation;
    // when three ticks of any outcome run
    driver.tick();
    driver.tick();
    driver.tick();
    // then status generation rose by three
    assert_eq!(driver.status().generation, start + 3);
}

#[test]
fn status_snapshot_reflects_engine() {
    // given a driven driver over a two-block chain
    let mut chain = ScriptedChain::new(1);
    chain.push_block(&[1]);
    chain.push_block(&[2]);
    let mut driver = new_driver(chain, engine_config(0), DriverConfig::default());
    driver.tick();
    // when reading status
    let status = driver.status();
    // then cursor, skips, caught_up, engine status all match the engine accessors
    assert_eq!(status.cursor, driver.engine().cursor());
    assert_eq!(status.last_verified, driver.engine().last_verified());
    assert_eq!(status.engine, driver.engine().status());
    assert_eq!(status.caught_up, driver.is_caught_up());
    assert_eq!(status.skips, driver.engine().skip_count());
}

#[test]
fn reorged_content_produces_typed_fork_then_recovery() {
    // given an applied chain with a checkpoint below the fork
    let mut chain = ScriptedChain::new(1);
    for value in 1..=6u64 {
        chain.push_block(&[value]);
    }
    chain.set_window(1);
    let mut driver = Driver::new(
        RecordingFold::default(),
        chain,
        engine_config(4),
        DriverConfig::default(),
    )
    .unwrap();
    driver.tick();
    driver.tick();
    driver.tick();
    driver.checkpoint();
    driver.tick();
    driver.tick();
    driver.tick();
    // when a reorg redelivers changed content and the tick surfaces the fork
    driver.source_mut().reorg(3, &[&[40], &[50], &[60]]);
    let outcome = driver.tick();
    // then one tick reports RolledBack to the checkpoint, later ticks fold the new branch
    assert_eq!(
        outcome,
        Tick::RolledBack {
            to: Some(Position::new(3, 0)),
        }
    );
    run_to_idle(&mut driver);
    let expected = vec![
        (Position::new(1, 0), 1),
        (Position::new(2, 0), 2),
        (Position::new(3, 0), 3),
        (Position::new(4, 0), 40),
        (Position::new(5, 0), 50),
        (Position::new(6, 0), 60),
    ];
    assert_eq!(driver.engine().fold().applied, expected);
}

#[test]
fn eventless_fork_point_is_still_detected() {
    // given events only on blocks 2 and 7 with cursor at 7
    let mut chain = ScriptedChain::new(1);
    chain.push_block(&[]);
    chain.push_block(&[2]);
    chain.push_block(&[]);
    chain.push_block(&[]);
    chain.push_block(&[]);
    chain.push_block(&[]);
    chain.push_block(&[7]);
    chain.set_window(1);
    let mut driver = Driver::new(
        RecordingFold::default(),
        chain,
        engine_config(2),
        DriverConfig::default(),
    )
    .unwrap();
    driver.tick();
    driver.checkpoint();
    driver.tick();
    // when a reorg replaces eventless block 5 upward and the tick surfaces the fork
    driver.source_mut().reorg(3, &[&[], &[], &[70]]);
    let outcome = driver.tick();
    // then the boundary recheck detects it and recovery lands the correct view
    assert!(matches!(outcome, Tick::RolledBack { .. }));
    run_to_idle(&mut driver);
    let expected = vec![(Position::new(2, 0), 2), (Position::new(7, 0), 70)];
    assert_eq!(driver.engine().fold().applied, expected);
}

#[test]
fn shorter_chain_fork_is_suspected_not_retried() {
    // given a reorg to a chain shorter than the cursor block
    let mut chain = ScriptedChain::new(1);
    for value in 1..=5u64 {
        chain.push_block(&[value]);
    }
    chain.set_window(1);
    let mut driver = Driver::new(
        RecordingFold::default(),
        chain,
        engine_config(2),
        DriverConfig::default(),
    )
    .unwrap();
    driver.tick();
    driver.checkpoint();
    for _ in 0..4 {
        driver.tick();
    }
    // when the chain reorgs to a shorter tip and the tick surfaces the fork
    driver.source_mut().reorg(4, &[&[99]]);
    let outcome = driver.tick();
    // then the fork path runs, never SourceError, and recovery proceeds via bisection
    assert_ne!(outcome, Tick::SourceError);
    assert!(matches!(outcome, Tick::RolledBack { .. }));
    run_to_idle(&mut driver);
    let expected = vec![(Position::new(1, 0), 1), (Position::new(2, 0), 99)];
    assert_eq!(driver.engine().fold().applied, expected);
}

#[test]
fn bisection_finds_deepest_canonical_block() {
    // given a ring of eight observed blocks and a fork at the sixth
    let mut chain = ScriptedChain::new(1);
    for value in 1..=8u64 {
        chain.push_block(&[value]);
    }
    chain.set_window(1);
    let mut driver = Driver::new(
        RecordingFold::default(),
        Probe::new(chain),
        engine_config(2),
        DriverConfig::default(),
    )
    .unwrap();
    driver.tick();
    driver.checkpoint();
    for _ in 0..7 {
        driver.tick();
    }
    // when the chain reorgs at the sixth block and the tick surfaces the fork
    driver.source_mut().inner.reorg(3, &[&[60], &[70], &[80]]);
    // the scan spends one probe per poll on the boundary; count only the bisection
    driver.source_mut().calls = 0;
    let outcome = driver.tick();
    // then rollback lands at or below the fifth and probe count is at most four
    match outcome {
        Tick::RolledBack { to } => {
            let landed = to.map_or(0, |pos| pos.block);
            assert!(landed <= 5);
        }
        other => panic!("expected RolledBack, got {other:?}"),
    }
    assert!(driver.source_mut().calls <= 4);
}

#[test]
fn fork_deeper_than_ring_escalates() {
    // given ring capacity 4 and a reorg replacing every retained block
    fn build(horizon: ReplayHorizon) -> Driver<RecordingFold, ScriptedChain> {
        let mut chain = ScriptedChain::new(1);
        for value in 1..=6u64 {
            chain.push_block(&[value]);
        }
        chain.set_window(1);
        let mut driver = Driver::new(
            RecordingFold::default(),
            chain,
            EngineConfig {
                ring_capacity: 4,
                checkpoint_slots: 0,
            },
            DriverConfig::default(),
        )
        .unwrap();
        run_to_idle(&mut driver);
        driver
            .source_mut()
            .reorg(6, &[&[10], &[20], &[30], &[40], &[50], &[60]]);
        driver.source_mut().set_horizon(horizon);
        driver
    }
    // when the fork surfaces, once with a horizon that still covers start_block
    let mut resyncable = build(ReplayHorizon::Genesis);
    let resync_outcome = resyncable.tick();
    let mut terminal = build(ReplayHorizon::FromBlock(1));
    let terminal_outcome = terminal.tick();
    // then the resync-capable case reports Resynced, the moved horizon is Terminal
    assert_eq!(resync_outcome, Tick::Resynced);
    assert_eq!(
        terminal_outcome,
        Tick::Terminal(EngineStatus::Unrecoverable {
            cause: DivergenceCause::HorizonExceeded {
                needed: 0,
                horizon: 1,
            },
        })
    );
}

#[test]
fn no_checkpoint_below_ancestor_escalates() {
    // given checkpoints only above the fork ancestor
    fn build(horizon: ReplayHorizon) -> Driver<RecordingFold, ScriptedChain> {
        let mut chain = ScriptedChain::new(1);
        for value in 1..=8u64 {
            chain.push_block(&[value]);
        }
        chain.set_window(1);
        let mut driver = Driver::new(
            RecordingFold::default(),
            chain,
            engine_config(1),
            DriverConfig::default(),
        )
        .unwrap();
        for _ in 0..7 {
            driver.tick();
        }
        driver.checkpoint();
        driver.tick();
        driver.source_mut().reorg(3, &[&[60], &[70], &[80]]);
        driver.source_mut().set_horizon(horizon);
        driver
    }
    // when recovery runs, once with a horizon that still covers start_block
    let mut resyncable = build(ReplayHorizon::Genesis);
    let resync_outcome = resyncable.tick();
    let mut terminal = build(ReplayHorizon::FromBlock(1));
    let terminal_outcome = terminal.tick();
    // then resync, or Terminal with the moved horizon, never a wrong-state continue
    assert_eq!(resync_outcome, Tick::Resynced);
    assert_eq!(
        terminal_outcome,
        Tick::Terminal(EngineStatus::Unrecoverable {
            cause: DivergenceCause::HorizonExceeded {
                needed: 0,
                horizon: 1,
            },
        })
    );
}

#[test]
fn probe_failure_retries_without_state_damage() {
    // given header_at failures mid bisection
    let mut chain = ScriptedChain::new(1);
    for value in 1..=6u64 {
        chain.push_block(&[value]);
    }
    chain.set_window(1);
    let mut driver = Driver::new(
        RecordingFold::default(),
        Probe::new(chain),
        engine_config(2),
        DriverConfig::default(),
    )
    .unwrap();
    driver.tick();
    driver.checkpoint();
    for _ in 0..5 {
        driver.tick();
    }
    driver.source_mut().inner.reorg(3, &[&[40], &[50], &[60]]);
    driver.source_mut().fail_next_probes(1);
    // when ticked
    let first = driver.tick();
    // then SourceError, and the following tick completes recovery undisturbed
    assert_eq!(first, Tick::SourceError);
    let second = driver.tick();
    assert!(matches!(second, Tick::RolledBack { .. }));
    run_to_idle(&mut driver);
    let expected = vec![
        (Position::new(1, 0), 1),
        (Position::new(2, 0), 2),
        (Position::new(3, 0), 3),
        (Position::new(4, 0), 40),
        (Position::new(5, 0), 50),
        (Position::new(6, 0), 60),
    ];
    assert_eq!(driver.engine().fold().applied, expected);
}

/// Every event of the chain, in order.
fn events_of(chain: &ScriptedChain) -> Vec<(Position, u64)> {
    let mut events = Vec::new();
    for block in &chain.blocks {
        for (index, event) in block.events.iter().enumerate() {
            events.push((Position::new(block.number, index as u64), *event));
        }
    }
    events
}

#[test]
fn an_idle_driver_holds_the_current_chain_after_every_reorg() {
    // given a chain that a driver follows with automatic and forced checkpoints
    let mut chain = ScriptedChain::new(1);
    for value in 1..=9u64 {
        chain.push_block(&[value, value + 100]);
    }
    chain.set_window(2);
    let config = DriverConfig {
        checkpoint_interval: Some(3),
        ..DriverConfig::default()
    };
    let mut driver = new_driver(chain, engine_config(3), config);
    for round in 0..12usize {
        // when it reorganises, deeper each time, some ticks apart
        for _ in 0..round % 4 {
            driver.tick();
        }
        if round % 3 == 2 && driver.engine().cursor().is_some() {
            driver.checkpoint();
        }
        let value = 1000 * (round as u64 + 1);
        driver
            .source_mut()
            .reorg(round, &[&[value], &[], &[value + 1, value + 2], &[value + 3]]);
        run_to_idle(&mut driver);
        // then the fold holds that chain and nothing else
        let expected = events_of(driver.source_mut());
        assert_eq!(driver.engine().fold().applied, expected);
        assert_eq!(
            driver.engine().cursor(),
            expected.last().map(|(position, _)| *position)
        );
    }
}

/// Source whose window is one block until its head was asked for.
struct Widening {
    inner: ScriptedChain,
    ranges: Vec<(u64, u64)>,
}

impl Source for Widening {
    type Event = u64;
    type Error = PollFailure;

    fn head(&mut self) -> Result<u64, PollFailure> {
        self.inner.set_window(4);
        self.inner.head()
    }

    fn header_at(&mut self, number: u64) -> Result<Option<BlockRef>, PollFailure> {
        self.inner.header_at(number)
    }

    fn events_in(
        &mut self,
        from: u64,
        to: u64,
        out: &mut Vec<(BlockRef, u32, u64)>,
    ) -> Result<(), PollFailure> {
        self.ranges.push((from, to));
        self.inner.events_in(from, to, out)
    }

    fn window(&self) -> u64 {
        self.inner.window()
    }
}

#[test]
fn ranges_follow_the_window_reported_after_the_head() {
    let source = Widening {
        inner: one_event_chain(6),
        ranges: Vec::new(),
    };
    let mut driver = Driver::new(
        RecordingFold::default(),
        source,
        engine_config(0),
        DriverConfig::from_block(1),
    )
    .unwrap();
    driver.tick();
    assert_eq!(driver.source_mut().ranges, vec![(1, 4)]);
}

#[test]
fn the_next_automatic_checkpoint_is_counted_from_a_forced_one() {
    // given an interval of three and a checkpoint forced at block 2
    let config = DriverConfig {
        checkpoint_interval: Some(3),
        ..DriverConfig::default()
    };
    let mut driver = new_driver(one_event_chain(6), engine_config(8), config);
    driver.tick();
    assert_eq!(driver.engine().checkpoint_count(), 1);
    driver.tick();
    driver.checkpoint();
    assert_eq!(driver.engine().checkpoint_count(), 2);
    // when blocks 3 and 4 come, none is taken; at block 5 one is
    driver.tick();
    driver.tick();
    assert_eq!(driver.engine().checkpoint_count(), 2);
    driver.tick();
    assert_eq!(driver.engine().checkpoint_count(), 3);
}

#[test]
fn a_lost_sink_leaves_the_engine_as_without_one() {
    let mut lossy = Driver::with_sink(
        RecordingFold::default(),
        one_event_chain(6),
        WatermarkSink {
            offered: Vec::new(),
            fail_next_offers: 1,
        },
        engine_config(2),
        cadence_config(1, 1),
    )
    .unwrap();
    let mut plain = Driver::new(
        RecordingFold::default(),
        one_event_chain(6),
        engine_config(2),
        cadence_config(1, 1),
    )
    .unwrap();
    for _ in 0..8 {
        lossy.tick();
        plain.tick();
        assert_eq!(lossy.engine().fold(), plain.engine().fold());
        assert_eq!(lossy.engine().cursor(), plain.engine().cursor());
        assert_eq!(
            lossy.engine().checkpoint_count(),
            plain.engine().checkpoint_count()
        );
    }
    assert!(lossy.status().durability_lost);
}
