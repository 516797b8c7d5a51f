use chainfold::{Batch, BlockRef, Fold, FoldError, Position, ReplayHorizon, Source};

/// Fold that records every applied event and can fail on a scripted position.
#[derive(Debug, Clone, Default, PartialEq)]
pub struct RecordingFold {
    /// Every position the fold accepted, with its event.
    pub applied: Vec<(Position, u64)>,
    /// Position the fold fails at, and how.
    pub fail_at: Option<(Position, FailKind)>,
}

/// Scripted failure the recording fold raises at its `fail_at` position.
#[derive(Debug, Clone, Copy, PartialEq, Eq)]
pub enum FailKind {
    /// Declares the event not mine.
    Skip,
    /// Refuses the event with clean state below it.
    Halt,
    /// Records the event, then refuses it.
    Poison,
}

impl Fold for RecordingFold {
    type Event = u64;
    type View = Vec<(Position, u64)>;
    type Error = FailKind;

    fn apply(&mut self, pos: Position, event: &u64) -> Result<(), FoldError<FailKind>> {
        if let Some((scripted_pos, kind)) = self.fail_at {
            if scripted_pos == pos {
                return match kind {
                    FailKind::Skip => Err(FoldError::Skip(kind)),
                    FailKind::Halt => Err(FoldError::Halt(kind)),
                    FailKind::Poison => {
                        self.applied.push((pos, *event));
                        Err(FoldError::Poison(kind))
                    }
                };
            }
        }
        self.applied.push((pos, *event));
        Ok(())
    }

    fn view(&self) -> Vec<(Position, u64)> {
        self.applied.clone()
    }
}

/// Zero-state fold for overhead and allocation measurements.
#[derive(Debug, Clone, Copy, Default, PartialEq, Eq)]
pub struct NoopFold;

impl Fold for NoopFold {
    type Event = u64;
    type View = ();
    type Error = std::convert::Infallible;

    fn apply(&mut self, _pos: Position, _event: &u64) -> Result<(), FoldError<Self::Error>> {
        Ok(())
    }

    fn view(&self) {}
}

/// One splitmix64 mixing step.
fn splitmix64(mut x: u64) -> u64 {
    x = x.wrapping_add(0x9e3779b97f4a7c15);
    x = (x ^ (x >> 30)).wrapping_mul(0xbf58476d1ce4e5b9);
    x = (x ^ (x >> 27)).wrapping_mul(0x94d049bb133111eb);
    x ^ (x >> 31)
}

/// Derives a block hash from its parent hash, number, and salt across four lanes.
fn block_hash(parent_hash: [u8; 32], number: u64, salt: u64) -> [u8; 32] {
    let mut hash = [0u8; 32];
    for lane in 0..4usize {
        let offset = lane * 8;
        let parent_lane = u64::from_le_bytes(
            parent_hash[offset..offset + 8].try_into().expect("lane slice is exactly 8 bytes"),
        );
        let value = splitmix64(parent_lane ^ number ^ salt ^ lane as u64);
        hash[offset..offset + 8].copy_from_slice(&value.to_le_bytes());
    }
    hash
}

/// One recorded block: identity, ancestry-committing hash, and its event payload.
#[derive(Debug, Clone)]
struct ScriptedBlock {
    number: u64,
    hash: [u8; 32],
    events: Vec<u64>,
}

/// In-memory chain with deterministic ancestry-committing hashes and reorg injection.
#[derive(Debug, Clone)]
pub struct ScriptedChain {
    first_block: u64,
    blocks: Vec<ScriptedBlock>,
    next_salt: u64,
    horizon: ReplayHorizon,
    window: u64,
    batch_blocks: usize,
    pending_failures: u32,
}

/// Error returned by a scripted poll that consumed its injected failure budget.
#[derive(Debug, Clone, Copy, PartialEq, Eq)]
pub struct PollFailure;

#[allow(dead_code)]
impl ScriptedChain {
    /// Builds an empty chain whose first pushed block is numbered `first_block`.
    pub fn new(first_block: u64) -> Self {
        Self {
            first_block,
            blocks: Vec::new(),
            next_salt: 0,
            horizon: ReplayHorizon::Genesis,
            window: 1000,
            batch_blocks: usize::MAX,
            pending_failures: 0,
        }
    }

    /// Appends a block carrying the given events, hashed from the tip and a fresh salt.
    pub fn push_block(&mut self, events: &[u64]) {
        let number = self.first_block + self.blocks.len() as u64;
        let parent_hash = self.blocks.last().map_or([0u8; 32], |block| block.hash);
        let hash = block_hash(parent_hash, number, self.next_salt);
        self.next_salt += 1;
        self.blocks.push(ScriptedBlock {
            number,
            hash,
            events: events.to_vec(),
        });
    }

    /// Replaces the last depth blocks; hashes of all replacements change.
    pub fn reorg(&mut self, depth: usize, replacements: &[&[u64]]) {
        let keep = self.blocks.len().saturating_sub(depth);
        self.blocks.truncate(keep);
        for events in replacements {
            self.push_block(events);
        }
    }

    /// Current tip header, or None for an empty chain.
    pub fn tip(&self) -> Option<BlockRef> {
        self.blocks.last().map(|block| BlockRef {
            number: block.number,
            hash: block.hash,
        })
    }

    /// Header for an exact block number if it exists on the current chain.
    pub fn header(&self, number: u64) -> Option<BlockRef> {
        let offset = number.checked_sub(self.first_block)?;
        let index = usize::try_from(offset).ok()?;
        self.blocks.get(index).map(|block| BlockRef {
            number: block.number,
            hash: block.hash,
        })
    }

    /// Sets the horizon the chain reports.
    pub fn set_horizon(&mut self, horizon: ReplayHorizon) {
        self.horizon = horizon;
    }

    /// Sets the blocks per query.
    pub fn set_window(&mut self, window: u64) {
        self.window = window;
    }

    /// Caps the event-bearing blocks served per batch.
    pub fn set_batch_blocks(&mut self, blocks: usize) {
        self.batch_blocks = blocks;
    }

    /// The next n polls return PollFailure.
    pub fn fail_next_polls(&mut self, n: u32) {
        self.pending_failures = n;
    }

    /// Spends one injected failure, if there is one.
    fn poll(&mut self) -> Result<(), PollFailure> {
        if self.pending_failures > 0 {
            self.pending_failures -= 1;
            return Err(PollFailure);
        }
        Ok(())
    }

    /// Every event-bearing block above the cursor, with the current header of the cursor block.
    pub fn next_batch(
        &mut self,
        cursor: Option<Position>,
        out: &mut Batch<u64>,
    ) -> Result<(), PollFailure> {
        self.poll()?;
        out.clear();
        let start_number = match cursor {
            Some(pos) => {
                out.boundary = self.header(pos.block);
                pos.block.checked_add(1).expect("cursor block at u64::MAX")
            }
            None => self.first_block,
        };
        let mut served = 0usize;
        for block in &self.blocks {
            if block.number < start_number || block.events.is_empty() {
                continue;
            }
            if served >= self.batch_blocks {
                break;
            }
            out.push_block(
                BlockRef {
                    number: block.number,
                    hash: block.hash,
                },
                block
                    .events
                    .iter()
                    .enumerate()
                    .map(|(index, event)| {
                        (u32::try_from(index).expect("log index fits in u32"), *event)
                    })
                    .collect(),
            );
            served += 1;
        }
        Ok(())
    }
}

impl Source for ScriptedChain {
    type Event = u64;
    type Error = PollFailure;

    fn head(&mut self) -> Result<u64, PollFailure> {
        self.poll()?;
        Ok(self.tip().map_or(0, |block| block.number))
    }

    fn header_at(&mut self, number: u64) -> Result<Option<BlockRef>, PollFailure> {
        self.poll()?;
        Ok(self.header(number))
    }

    fn events_in(
        &mut self,
        from: u64,
        to: u64,
        out: &mut Vec<(BlockRef, u32, u64)>,
    ) -> Result<(), PollFailure> {
        self.poll()?;
        for block in &self.blocks {
            if from <= block.number && block.number <= to {
                let header = BlockRef {
                    number: block.number,
                    hash: block.hash,
                };
                for (index, event) in block.events.iter().enumerate() {
                    out.push((header, index as u32, *event));
                }
            }
        }
        Ok(())
    }

    fn horizon(&self) -> ReplayHorizon {
        self.horizon
    }

    fn window(&self) -> u64 {
        self.window
    }
}


#[test]
fn recording_fold_records_in_order() {
    // given three applies at ascending positions
    let mut fold = RecordingFold::default();
    let positions = [
        Position::new(1, 0),
        Position::new(1, 1),
        Position::new(2, 0),
    ];
    // when applied
    for (index, pos) in positions.iter().enumerate() {
        fold.apply(*pos, &(index as u64)).unwrap();
    }
    // then entries match in order
    assert_eq!(
        fold.view(),
        vec![(positions[0], 0), (positions[1], 1), (positions[2], 2)]
    );
}

#[test]
fn recording_fold_poison_mutates_before_failing() {
    // given fail_at Poison at block 1 log index 0
    let pos = Position::new(1, 0);
    let mut fold = RecordingFold {
        applied: Vec::new(),
        fail_at: Some((pos, FailKind::Poison)),
    };
    // when applied at that position
    let result = fold.apply(pos, &42);
    // then the error is Poison and the entry was recorded
    assert!(matches!(
        result,
        Err(FoldError::Poison(FailKind::Poison))
    ));
    assert_eq!(fold.view(), vec![(pos, 42)]);
}

#[test]
fn noop_fold_never_errors() {
    // given any event applied to a fresh NoopFold
    let mut fold = NoopFold;
    // when applied
    let result = fold.apply(Position::new(1, 0), &7);
    // then Ok and view is unit
    assert_eq!(result, Ok(()));
    assert_eq!(fold.view(), ());
}

#[test]
fn hashes_commit_to_ancestry() {
    // given ten blocks on a scripted chain
    let mut chain = ScriptedChain::new(1);
    for _ in 0..10 {
        chain.push_block(&[]);
    }
    let before: Vec<BlockRef> = (1..=9).map(|n| chain.header(n).unwrap()).collect();
    // when block 4 is replaced by a reorg
    chain.reorg(7, &[&[], &[], &[], &[], &[], &[]]);
    // then headers 4..=9 all change and headers 1..=3 are unchanged
    for n in 1..=3u64 {
        assert_eq!(chain.header(n), Some(before[(n - 1) as usize]));
    }
    for n in 4..=9u64 {
        assert_ne!(chain.header(n).unwrap().hash, before[(n - 1) as usize].hash);
    }
}

#[test]
fn batches_deliver_whole_blocks_after_cursor() {
    // given events on blocks 2, 5, 9 and a cursor at block 5's last event
    let mut chain = ScriptedChain::new(1);
    chain.push_block(&[]);
    chain.push_block(&[10, 11]);
    chain.push_block(&[]);
    chain.push_block(&[]);
    chain.push_block(&[20, 21]);
    chain.push_block(&[]);
    chain.push_block(&[]);
    chain.push_block(&[]);
    chain.push_block(&[30, 31]);
    let cursor = Position::new(5, 1);
    let mut batch = Batch::new();
    // when polled
    chain.next_batch(Some(cursor), &mut batch).unwrap();
    // then one span for block 9 with the complete event set
    assert_eq!(batch.span_count(), 1);
    let span = batch.spans().next().expect("one span");
    assert_eq!(span.number, 9);
    let events: Vec<u64> = span.events.to_vec();
    assert_eq!(events, vec![30, 31]);
}

#[test]
fn boundary_reports_current_header_of_cursor_block() {
    // given a cursor on block 5
    let mut chain = ScriptedChain::new(1);
    for _ in 0..6 {
        chain.push_block(&[1]);
    }
    let cursor = Position::new(5, 0);
    // when the chain reorgs at block 4 and is polled
    chain.reorg(3, &[&[1], &[1], &[1]]);
    let new_header = chain.header(5).unwrap();
    let mut batch = Batch::new();
    chain.next_batch(Some(cursor), &mut batch).unwrap();
    // then boundary is block 5's new header
    assert_eq!(batch.boundary, Some(new_header));
}

#[test]
fn boundary_is_none_when_chain_is_shorter_than_cursor() {
    // given a reorg that shortens the chain below the cursor
    let mut chain = ScriptedChain::new(1);
    for _ in 0..6 {
        chain.push_block(&[1]);
    }
    let cursor = Position::new(5, 0);
    chain.reorg(4, &[&[1]]);
    let mut batch = Batch::new();
    // when polled
    chain.next_batch(Some(cursor), &mut batch).unwrap();
    // then boundary None
    assert_eq!(batch.boundary, None);
}

#[test]
fn batch_blocks_caps_spans_per_poll() {
    // given five event-bearing blocks and batch_blocks 2
    let mut chain = ScriptedChain::new(1);
    for i in 0..5u64 {
        chain.push_block(&[i]);
    }
    chain.set_batch_blocks(2);
    let mut batch = Batch::new();
    // when polled
    chain.next_batch(None, &mut batch).unwrap();
    // then two spans
    assert_eq!(batch.span_count(), 2);
}

#[test]
fn empty_batch_signals_caught_up() {
    // given a cursor at the tip
    let mut chain = ScriptedChain::new(1);
    chain.push_block(&[1]);
    chain.push_block(&[2]);
    let tip = Position::new(2, 0);
    let mut batch = Batch::new();
    // when polled
    chain.next_batch(Some(tip), &mut batch).unwrap();
    // then no spans
    assert!(batch.is_empty());
}

#[test]
fn header_at_beyond_tip_is_none() {
    // given a ten-block chain
    let mut chain = ScriptedChain::new(1);
    for _ in 0..10 {
        chain.push_block(&[]);
    }
    // when probing number 50
    let result = chain.header_at(50);
    // then Ok(None)
    assert_eq!(result, Ok(None));
}

#[test]
fn scripted_failures_surface_then_clear() {
    // given fail_next_polls 2
    let mut chain = ScriptedChain::new(1);
    chain.push_block(&[1]);
    chain.fail_next_polls(2);
    let mut batch = Batch::new();
    // when polling three times
    let first = chain.next_batch(None, &mut batch);
    let second = chain.next_batch(None, &mut batch);
    let third = chain.next_batch(None, &mut batch);
    // then two errors then success
    assert_eq!(first, Err(PollFailure));
    assert_eq!(second, Err(PollFailure));
    assert_eq!(third, Ok(()));
}
