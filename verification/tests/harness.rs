use chainfold::harness::{
    caught_up_settles, durable_settles, past_settles, HarnessState, Next,
};
use chainfold::{
    Batch, BlockRef, Delay, Driver, DriverConfig, DriverStatus, EngineConfig, EngineStatus, Fold,
    FoldError, Position, ReplayHorizon, Source,
};

/// Fold that records every applied event and can fail on a scripted position.
#[derive(Debug, Clone, Default, PartialEq)]
pub struct RecordingFold {
    /// Every position the fold accepted, with its event.
    pub applied: Vec<(Position, u64)>,
    /// Position the fold fails at, and how.
    pub fail_at: Option<(Position, FailKind)>,
}

/// Scripted failure the recording fold raises at its `fail_at` position.
#[derive(Debug, Clone, Copy, PartialEq, Eq)]
pub enum FailKind {
    /// Declares the event not mine.
    Skip,
    /// Refuses the event with clean state below it.
    Halt,
    /// Records the event, then refuses it.
    Poison,
}

impl Fold for RecordingFold {
    type Event = u64;
    type View = Vec<(Position, u64)>;
    type Error = FailKind;

    fn apply(&mut self, pos: Position, event: &u64) -> Result<(), FoldError<FailKind>> {
        if let Some((scripted_pos, kind)) = self.fail_at {
            if scripted_pos == pos {
                return match kind {
                    FailKind::Skip => Err(FoldError::Skip(kind)),
                    FailKind::Halt => Err(FoldError::Halt(kind)),
                    FailKind::Poison => {
                        self.applied.push((pos, *event));
                        Err(FoldError::Poison(kind))
                    }
                };
            }
        }
        self.applied.push((pos, *event));
        Ok(())
    }

    fn view(&self) -> Vec<(Position, u64)> {
        self.applied.clone()
    }
}

/// One splitmix64 mixing step.
fn splitmix64(mut x: u64) -> u64 {
    x = x.wrapping_add(0x9e3779b97f4a7c15);
    x = (x ^ (x >> 30)).wrapping_mul(0xbf58476d1ce4e5b9);
    x = (x ^ (x >> 27)).wrapping_mul(0x94d049bb133111eb);
    x ^ (x >> 31)
}

/// Derives a block hash from its parent hash, number, and salt across four lanes.
fn block_hash(parent_hash: [u8; 32], number: u64, salt: u64) -> [u8; 32] {
    let mut hash = [0u8; 32];
    for lane in 0..4usize {
        let offset = lane * 8;
        let parent_lane = u64::from_le_bytes(
            parent_hash[offset..offset + 8].try_into().expect("lane slice is exactly 8 bytes"),
        );
        let value = splitmix64(parent_lane ^ number ^ salt ^ lane as u64);
        hash[offset..offset + 8].copy_from_slice(&value.to_le_bytes());
    }
    hash
}

/// One recorded block: identity, ancestry-committing hash, and its event payload.
#[derive(Debug, Clone)]
struct ScriptedBlock {
    number: u64,
    hash: [u8; 32],
    events: Vec<u64>,
}

/// In-memory chain with deterministic ancestry-committing hashes and reorg injection.
#[derive(Debug, Clone)]
pub struct ScriptedChain {
    first_block: u64,
    blocks: Vec<ScriptedBlock>,
    next_salt: u64,
    horizon: ReplayHorizon,
    window: u64,
    batch_blocks: usize,
    pending_failures: u32,
}

/// Error returned by a scripted poll that consumed its injected failure budget.
#[derive(Debug, Clone, Copy, PartialEq, Eq)]
pub struct PollFailure;

#[allow(dead_code)]
impl ScriptedChain {
    /// Builds an empty chain whose first pushed block is numbered `first_block`.
    pub fn new(first_block: u64) -> Self {
        Self {
            first_block,
            blocks: Vec::new(),
            next_salt: 0,
            horizon: ReplayHorizon::Genesis,
            window: 1000,
            batch_blocks: usize::MAX,
            pending_failures: 0,
        }
    }

    /// Appends a block carrying the given events, hashed from the tip and a fresh salt.
    pub fn push_block(&mut self, events: &[u64]) {
        let number = self.first_block + self.blocks.len() as u64;
        let parent_hash = self.blocks.last().map_or([0u8; 32], |block| block.hash);
        let hash = block_hash(parent_hash, number, self.next_salt);
        self.next_salt += 1;
        self.blocks.push(ScriptedBlock {
            number,
            hash,
            events: events.to_vec(),
        });
    }

    /// Replaces the last depth blocks; hashes of all replacements change.
    pub fn reorg(&mut self, depth: usize, replacements: &[&[u64]]) {
        let keep = self.blocks.len().saturating_sub(depth);
        self.blocks.truncate(keep);
        for events in replacements {
            self.push_block(events);
        }
    }

    /// Current tip header, or None for an empty chain.
    pub fn tip(&self) -> Option<BlockRef> {
        self.blocks.last().map(|block| BlockRef {
            number: block.number,
            hash: block.hash,
        })
    }

    /// Header for an exact block number if it exists on the current chain.
    pub fn header(&self, number: u64) -> Option<BlockRef> {
        let offset = number.checked_sub(self.first_block)?;
        let index = usize::try_from(offset).ok()?;
        self.blocks.get(index).map(|block| BlockRef {
            number: block.number,
            hash: block.hash,
        })
    }

    /// Sets the horizon the chain reports.
    pub fn set_horizon(&mut self, horizon: ReplayHorizon) {
        self.horizon = horizon;
    }

    /// Sets the blocks per query.
    pub fn set_window(&mut self, window: u64) {
        self.window = window;
    }

    /// Caps the event-bearing blocks served per batch.
    pub fn set_batch_blocks(&mut self, blocks: usize) {
        self.batch_blocks = blocks;
    }

    /// The next n polls return PollFailure.
    pub fn fail_next_polls(&mut self, n: u32) {
        self.pending_failures = n;
    }

    /// Spends one injected failure, if there is one.
    fn poll(&mut self) -> Result<(), PollFailure> {
        if self.pending_failures > 0 {
            self.pending_failures -= 1;
            return Err(PollFailure);
        }
        Ok(())
    }

    /// Every event-bearing block above the cursor, with the current header of the cursor block.
    pub fn next_batch(
        &mut self,
        cursor: Option<Position>,
        out: &mut Batch<u64>,
    ) -> Result<(), PollFailure> {
        self.poll()?;
        out.clear();
        let start_number = match cursor {
            Some(pos) => {
                out.boundary = self.header(pos.block);
                pos.block.checked_add(1).expect("cursor block at u64::MAX")
            }
            None => self.first_block,
        };
        let mut served = 0usize;
        for block in &self.blocks {
            if block.number < start_number || block.events.is_empty() {
                continue;
            }
            if served >= self.batch_blocks {
                break;
            }
            out.push_block(
                BlockRef {
                    number: block.number,
                    hash: block.hash,
                },
                block
                    .events
                    .iter()
                    .enumerate()
                    .map(|(index, event)| {
                        (u32::try_from(index).expect("log index fits in u32"), *event)
                    })
                    .collect(),
            );
            served += 1;
        }
        Ok(())
    }
}

impl Source for ScriptedChain {
    type Event = u64;
    type Error = PollFailure;

    fn head(&mut self) -> Result<u64, PollFailure> {
        self.poll()?;
        Ok(self.tip().map_or(0, |block| block.number))
    }

    fn header_at(&mut self, number: u64) -> Result<Option<BlockRef>, PollFailure> {
        self.poll()?;
        Ok(self.header(number))
    }

    fn events_in(
        &mut self,
        from: u64,
        to: u64,
        out: &mut Vec<(BlockRef, u32, u64)>,
    ) -> Result<(), PollFailure> {
        self.poll()?;
        for block in &self.blocks {
            if from <= block.number && block.number <= to {
                let header = BlockRef {
                    number: block.number,
                    hash: block.hash,
                };
                for (index, event) in block.events.iter().enumerate() {
                    out.push((header, index as u32, *event));
                }
            }
        }
        Ok(())
    }

    fn horizon(&self) -> ReplayHorizon {
        self.horizon
    }

    fn window(&self) -> u64 {
        self.window
    }
}

fn status(engine: EngineStatus, caught_up: bool, cursor: Option<Position>) -> DriverStatus {
    let mut chain = ScriptedChain::new(1);
    chain.push_block(&[]);
    let driver = Driver::new(
        RecordingFold::default(),
        chain,
        EngineConfig {
            ring_capacity: 8,
            checkpoint_slots: 0,
        },
        DriverConfig::default(),
    )
    .unwrap();
    DriverStatus {
        engine,
        caught_up,
        cursor,
        ..driver.status()
    }
}

#[test]
fn the_loop_stops_on_a_terminal_driver_or_the_stop_signal() {
    let mut state = HarnessState::new();
    let halted = EngineStatus::Halted {
        at: Position::new(1, 0),
    };
    let wait = Delay::from_secs(1);
    assert_eq!(state.after_tick(&status(halted, false, None), wait), Next::Stop);
    let active = status(EngineStatus::Active, false, None);
    assert_eq!(state.after_tick(&active, wait), Next::Wait(wait));
    assert_eq!(state.after_tick(&active, Delay::zero()), Next::Again);
    state.request_stop();
    assert_eq!(state.after_tick(&active, wait), Next::Stop);
    assert!(!state.is_quiet());
}

#[test]
fn checkpoint_requests_coalesce() {
    let mut state = HarnessState::new();
    assert!(state.is_quiet());
    assert!(!state.take_requests());
    state.request_checkpoint();
    state.request_checkpoint();
    assert!(!state.is_quiet());
    assert!(state.take_requests());
    assert!(!state.take_requests());
}

#[test]
fn waits_end_at_their_mark_or_on_a_terminal_driver() {
    let mark = Position::new(8, 0);
    let below = status(EngineStatus::Active, false, Some(Position::new(7, 9)));
    let at = status(EngineStatus::Active, true, Some(mark));
    let halted = status(EngineStatus::Halted { at: mark }, false, None);
    assert!(!caught_up_settles(&below) && !past_settles(&below, mark));
    assert!(caught_up_settles(&at) && past_settles(&at, mark));
    assert!(caught_up_settles(&halted) && past_settles(&halted, mark));
    assert!(!durable_settles(&at, mark) && durable_settles(&halted, mark));
}
