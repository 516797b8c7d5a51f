use std::collections::BTreeMap;

use chainfold::bytes::ByteSeq;
use chainfold::storage::flusher::{durable_offer, flush_job, FlushLedger};
use chainfold::storage::store::{SnapshotStore, StoreConfig};
use chainfold::storage::vfs::{Fault, FaultKind, Vfs};
use chainfold::{
    Batch, BlockRef, Driver, DriverConfig, DurabilityLost, Engine, EngineConfig, Fold, FoldError,
    Persist, Position, ReplayHorizon, SnapshotSink, Source, Tick,
};

/// Fold that records every applied event and can fail on a scripted position.
#[derive(Debug, Clone, Default, PartialEq)]
pub struct RecordingFold {
    /// Every position the fold accepted, with its event.
    pub applied: Vec<(Position, u64)>,
    /// Position the fold fails at, and how.
    pub fail_at: Option<(Position, FailKind)>,
}

/// Scripted failure the recording fold raises at its `fail_at` position.
#[derive(Debug, Clone, Copy, PartialEq, Eq)]
pub enum FailKind {
    /// Declares the event not mine.
    Skip,
    /// Refuses the event with clean state below it.
    Halt,
    /// Records the event, then refuses it.
    Poison,
}

impl Fold for RecordingFold {
    type Event = u64;
    type View = Vec<(Position, u64)>;
    type Error = FailKind;

    fn apply(&mut self, pos: Position, event: &u64) -> Result<(), FoldError<FailKind>> {
        if let Some((scripted_pos, kind)) = self.fail_at {
            if scripted_pos == pos {
                return match kind {
                    FailKind::Skip => Err(FoldError::Skip(kind)),
                    FailKind::Halt => Err(FoldError::Halt(kind)),
                    FailKind::Poison => {
                        self.applied.push((pos, *event));
                        Err(FoldError::Poison(kind))
                    }
                };
            }
        }
        self.applied.push((pos, *event));
        Ok(())
    }

    fn view(&self) -> Vec<(Position, u64)> {
        self.applied.clone()
    }
}

impl Persist for RecordingFold {
    const STATE_TAG: &'static str = "chainfold.test.recording";
    type PersistError = ();

    fn state_bytes(&self) -> ByteSeq {
        unreachable!("only contracts speak of it")
    }

    fn encode_state(&self, out: &mut Vec<u8>) {
        let count = u64::try_from(self.applied.len()).expect("recorded entry count fits in u64");
        out.extend_from_slice(&count.to_le_bytes());
        for (pos, event) in &self.applied {
            out.extend_from_slice(&pos.block.to_le_bytes());
            out.extend_from_slice(&pos.log_index.to_le_bytes());
            out.extend_from_slice(&event.to_le_bytes());
        }
    }

    fn decode_state(bytes: &[u8]) -> Result<Self, ()> {
        const ENTRY_LEN: usize = 24;
        let (count, entries) = bytes.split_first_chunk::<8>().ok_or(())?;
        let count = usize::try_from(u64::from_le_bytes(*count)).map_err(|_| ())?;
        if entries.len() != count.checked_mul(ENTRY_LEN).ok_or(())? {
            return Err(());
        }
        // The length check above makes every chunk exactly three 8-byte lanes.
        let lane = |e: &[u8], i: usize| {
            u64::from_le_bytes(e[i * 8..][..8].try_into().expect("three lanes"))
        };
        let entry = |e: &[u8]| (Position::new(lane(e, 0), lane(e, 1)), lane(e, 2));
        Ok(Self {
            applied: entries.chunks_exact(ENTRY_LEN).map(entry).collect(),
            fail_at: None,
        })
    }
}

/// One file's content, split into what a crash discards and what fsync kept.
#[derive(Debug, Clone, Default)]
struct CrashFileBytes {
    durable: Vec<u8>,
    volatile: Vec<u8>,
}

/// In-memory filesystem with fsync-accurate durability and crash injection.
#[derive(Debug, Default)]
pub struct CrashVfs {
    files: BTreeMap<u64, CrashFileBytes>,
    durable_names: BTreeMap<(String, String), u64>,
    volatile_names: BTreeMap<(String, String), u64>,
    next_inode: u64,
    budget: Option<u32>,
    torn_len: usize,
    op_count: u32,
}

impl CrashVfs {
    /// Builds a fresh, empty filesystem that never crashes.
    pub fn new() -> Self {
        Self::default()
    }

    /// Mutating ops fail once the budget is spent; the crashing write persists only torn_len bytes
    /// of its volatile effect.
    pub fn with_crash_budget(ops: u32, torn_len: usize) -> Self {
        Self {
            budget: Some(ops),
            torn_len,
            ..Self::default()
        }
    }

    /// Discards all volatile state, keeping only what fsync made durable.
    pub fn crash(&mut self) {
        self.volatile_names.clone_from(&self.durable_names);
        for file in self.files.values_mut() {
            file.volatile.clone_from(&file.durable);
        }
    }

    /// Number of mutating op attempts made so far, crashing or not.
    pub fn op_count(&self) -> u32 {
        self.op_count
    }

    /// Consumes one unit of crash budget; true means this call is the crashing one.
    fn consume_budget(&mut self) -> bool {
        self.op_count = self.op_count.wrapping_add(1);
        match &mut self.budget {
            None => false,
            Some(0) => true,
            Some(remaining) => {
                *remaining -= 1;
                false
            }
        }
    }

    /// Consumes budget and reports how much of a `len`-byte effect this call keeps.
    fn torn_write(&mut self, len: usize) -> (bool, usize) {
        let crashing = self.consume_budget();
        (crashing, if crashing { len.min(self.torn_len) } else { len })
    }

    /// Maps a crash flag onto the result every mutating op returns.
    fn outcome(crashing: bool) -> Result<(), Fault> {
        if crashing {
            Err(Fault::of(FaultKind::Other))
        } else {
            Ok(())
        }
    }

    fn path(dir: &str, name: &str) -> (String, String) {
        (dir.to_string(), name.to_string())
    }

    /// Resolves the inode a write targets, allocating a fresh one for a new name.
    fn inode_for_write(&mut self, dir: &str, name: &str) -> u64 {
        let path = Self::path(dir, name);
        if let Some(&inode) = self.volatile_names.get(&path) {
            inode
        } else {
            let inode = self.next_inode;
            self.next_inode += 1;
            self.files.insert(inode, CrashFileBytes::default());
            self.volatile_names.insert(path, inode);
            inode
        }
    }
}

impl Vfs for CrashVfs {
    fn create_dir_all(&mut self, _dir: &str) -> Result<(), Fault> {
        Ok(())
    }

    fn read(&mut self, dir: &str, name: &str) -> Result<Vec<u8>, Fault> {
        let inode = *self
            .volatile_names
            .get(&Self::path(dir, name))
            .ok_or_else(|| Fault::of(FaultKind::NotFound))?;
        Ok(self.files[&inode].volatile.clone())
    }

    fn write(&mut self, dir: &str, name: &str, bytes: &[u8]) -> Result<(), Fault> {
        let inode = self.inode_for_write(dir, name);
        let (crashing, keep) = self.torn_write(bytes.len());
        self.files
            .get_mut(&inode)
            .expect("write always registers its inode first")
            .volatile = bytes[..keep].to_vec();
        Self::outcome(crashing)
    }

    fn write_at(
        &mut self,
        dir: &str,
        name: &str,
        offset: u64,
        bytes: &[u8],
    ) -> Result<(), Fault> {
        let inode = self.inode_for_write(dir, name);
        let (crashing, keep) = self.torn_write(bytes.len());
        let offset = usize::try_from(offset).expect("offset fits in memory on this platform");
        let file = self
            .files
            .get_mut(&inode)
            .expect("write_at always registers its inode first");
        let needed = offset + keep;
        if file.volatile.len() < needed {
            file.volatile.resize(needed, 0);
        }
        file.volatile[offset..needed].copy_from_slice(&bytes[..keep]);
        Self::outcome(crashing)
    }

    fn fsync_file(&mut self, dir: &str, name: &str) -> Result<(), Fault> {
        let inode = *self
            .volatile_names
            .get(&Self::path(dir, name))
            .ok_or_else(|| Fault::of(FaultKind::NotFound))?;
        let target_len = self.files[&inode].volatile.len();
        let (crashing, keep) = self.torn_write(target_len);
        let file = self
            .files
            .get_mut(&inode)
            .expect("fsync_file always resolves a registered inode");
        if file.durable.len() < target_len {
            file.durable.resize(target_len, 0);
        }
        file.durable[..keep].copy_from_slice(&file.volatile[..keep]);
        Self::outcome(crashing)
    }

    fn rename(&mut self, dir: &str, from: &str, to: &str) -> Result<(), Fault> {
        let inode = self
            .volatile_names
            .remove(&Self::path(dir, from))
            .ok_or_else(|| Fault::of(FaultKind::NotFound))?;
        let crashing = self.consume_budget();
        let name = if crashing { from } else { to };
        self.volatile_names.insert(Self::path(dir, name), inode);
        Self::outcome(crashing)
    }

    fn remove(&mut self, dir: &str, name: &str) -> Result<(), Fault> {
        let path = Self::path(dir, name);
        let inode = self
            .volatile_names
            .remove(&path)
            .ok_or_else(|| Fault::of(FaultKind::NotFound))?;
        let crashing = self.consume_budget();
        if crashing {
            self.volatile_names.insert(path, inode);
        }
        Self::outcome(crashing)
    }

    fn list(&mut self, dir: &str) -> Result<Vec<String>, Fault> {
        Ok(self
            .volatile_names
            .keys()
            .filter(|path| path.0 == dir)
            .map(|path| path.1.clone())
            .collect())
    }

    fn fsync_dir(&mut self, dir: &str) -> Result<(), Fault> {
        let crashing = self.consume_budget();
        if crashing {
            return Err(Fault::of(FaultKind::Other));
        }
        self.durable_names.retain(|path, _| path.0 != dir);
        for (path, inode) in &self.volatile_names {
            if path.0 == dir {
                self.durable_names.insert(path.clone(), *inode);
            }
        }
        Ok(())
    }

    fn is_present(&mut self, dir: &str, name: &str) -> Result<bool, Fault> {
        Ok(self.volatile_names.contains_key(&Self::path(dir, name)))
    }
}

/// One splitmix64 mixing step.
fn splitmix64(mut x: u64) -> u64 {
    x = x.wrapping_add(0x9e3779b97f4a7c15);
    x = (x ^ (x >> 30)).wrapping_mul(0xbf58476d1ce4e5b9);
    x = (x ^ (x >> 27)).wrapping_mul(0x94d049bb133111eb);
    x ^ (x >> 31)
}

/// Derives a block hash from its parent hash, number, and salt across four lanes.
fn block_hash(parent_hash: [u8; 32], number: u64, salt: u64) -> [u8; 32] {
    let mut hash = [0u8; 32];
    for lane in 0..4usize {
        let offset = lane * 8;
        let parent_lane = u64::from_le_bytes(
            parent_hash[offset..offset + 8].try_into().expect("lane slice is exactly 8 bytes"),
        );
        let value = splitmix64(parent_lane ^ number ^ salt ^ lane as u64);
        hash[offset..offset + 8].copy_from_slice(&value.to_le_bytes());
    }
    hash
}

/// One recorded block: identity, ancestry-committing hash, and its event payload.
#[derive(Debug, Clone)]
struct ScriptedBlock {
    number: u64,
    hash: [u8; 32],
    events: Vec<u64>,
}

/// In-memory chain with deterministic ancestry-committing hashes and reorg injection.
#[derive(Debug, Clone)]
pub struct ScriptedChain {
    first_block: u64,
    blocks: Vec<ScriptedBlock>,
    next_salt: u64,
    horizon: ReplayHorizon,
    window: u64,
    batch_blocks: usize,
    pending_failures: u32,
}

/// Error returned by a scripted poll that consumed its injected failure budget.
#[derive(Debug, Clone, Copy, PartialEq, Eq)]
pub struct PollFailure;

#[allow(dead_code)]
impl ScriptedChain {
    /// Builds an empty chain whose first pushed block is numbered `first_block`.
    pub fn new(first_block: u64) -> Self {
        Self {
            first_block,
            blocks: Vec::new(),
            next_salt: 0,
            horizon: ReplayHorizon::Genesis,
            window: 1000,
            batch_blocks: usize::MAX,
            pending_failures: 0,
        }
    }

    /// Appends a block carrying the given events, hashed from the tip and a fresh salt.
    pub fn push_block(&mut self, events: &[u64]) {
        let number = self.first_block + self.blocks.len() as u64;
        let parent_hash = self.blocks.last().map_or([0u8; 32], |block| block.hash);
        let hash = block_hash(parent_hash, number, self.next_salt);
        self.next_salt += 1;
        self.blocks.push(ScriptedBlock {
            number,
            hash,
            events: events.to_vec(),
        });
    }

    /// Replaces the last depth blocks; hashes of all replacements change.
    pub fn reorg(&mut self, depth: usize, replacements: &[&[u64]]) {
        let keep = self.blocks.len().saturating_sub(depth);
        self.blocks.truncate(keep);
        for events in replacements {
            self.push_block(events);
        }
    }

    /// Current tip header, or None for an empty chain.
    pub fn tip(&self) -> Option<BlockRef> {
        self.blocks.last().map(|block| BlockRef {
            number: block.number,
            hash: block.hash,
        })
    }

    /// Header for an exact block number if it exists on the current chain.
    pub fn header(&self, number: u64) -> Option<BlockRef> {
        let offset = number.checked_sub(self.first_block)?;
        let index = usize::try_from(offset).ok()?;
        self.blocks.get(index).map(|block| BlockRef {
            number: block.number,
            hash: block.hash,
        })
    }

    /// Sets the horizon the chain reports.
    pub fn set_horizon(&mut self, horizon: ReplayHorizon) {
        self.horizon = horizon;
    }

    /// Sets the blocks per query.
    pub fn set_window(&mut self, window: u64) {
        self.window = window;
    }

    /// Caps the event-bearing blocks served per batch.
    pub fn set_batch_blocks(&mut self, blocks: usize) {
        self.batch_blocks = blocks;
    }

    /// The next n polls return PollFailure.
    pub fn fail_next_polls(&mut self, n: u32) {
        self.pending_failures = n;
    }

    /// Spends one injected failure, if there is one.
    fn poll(&mut self) -> Result<(), PollFailure> {
        if self.pending_failures > 0 {
            self.pending_failures -= 1;
            return Err(PollFailure);
        }
        Ok(())
    }

    /// Every event-bearing block above the cursor, with the current header of the cursor block.
    pub fn next_batch(
        &mut self,
        cursor: Option<Position>,
        out: &mut Batch<u64>,
    ) -> Result<(), PollFailure> {
        self.poll()?;
        out.clear();
        let start_number = match cursor {
            Some(pos) => {
                out.boundary = self.header(pos.block);
                pos.block.checked_add(1).expect("cursor block at u64::MAX")
            }
            None => self.first_block,
        };
        let mut served = 0usize;
        for block in &self.blocks {
            if block.number < start_number || block.events.is_empty() {
                continue;
            }
            if served >= self.batch_blocks {
                break;
            }
            out.push_block(
                BlockRef {
                    number: block.number,
                    hash: block.hash,
                },
                block
                    .events
                    .iter()
                    .enumerate()
                    .map(|(index, event)| {
                        (u32::try_from(index).expect("log index fits in u32"), *event)
                    })
                    .collect(),
            );
            served += 1;
        }
        Ok(())
    }
}

impl Source for ScriptedChain {
    type Event = u64;
    type Error = PollFailure;

    fn head(&mut self) -> Result<u64, PollFailure> {
        self.poll()?;
        Ok(self.tip().map_or(0, |block| block.number))
    }

    fn header_at(&mut self, number: u64) -> Result<Option<BlockRef>, PollFailure> {
        self.poll()?;
        Ok(self.header(number))
    }

    fn events_in(
        &mut self,
        from: u64,
        to: u64,
        out: &mut Vec<(BlockRef, u32, u64)>,
    ) -> Result<(), PollFailure> {
        self.poll()?;
        for block in &self.blocks {
            if from <= block.number && block.number <= to {
                let header = BlockRef {
                    number: block.number,
                    hash: block.hash,
                };
                for (index, event) in block.events.iter().enumerate() {
                    out.push((header, index as u32, *event));
                }
            }
        }
        Ok(())
    }

    fn horizon(&self) -> ReplayHorizon {
        self.horizon
    }

    fn window(&self) -> u64 {
        self.window
    }
}


/// Ring window for the reference engine that generates snapshot bytes to commit.
const RING_CAPACITY: usize = 8;
/// Above the largest schedule of 5 commits over 3 cycles, so open() keeps every file.
const RETAIN: usize = 32;

fn test_config() -> EngineConfig {
    EngineConfig {
        ring_capacity: RING_CAPACITY,
        checkpoint_slots: 0,
    }
}

/// Engine window for the resume driver; two slots give the durable point its margin.
fn resume_engine_config() -> EngineConfig {
    EngineConfig {
        ring_capacity: RING_CAPACITY,
        checkpoint_slots: 2,
    }
}

fn store_config(dir: String) -> StoreConfig {
    StoreConfig {
        dir,
        retain: RETAIN,
    }
}

/// Deterministic block header: the block number embedded directly in the hash bytes.
fn block_ref(number: u64) -> BlockRef {
    let mut hash = [0u8; 32];
    hash[..8].copy_from_slice(&number.to_le_bytes());
    BlockRef { number, hash }
}

/// Advances the engine by one block carrying a single event.
fn advance(engine: &mut Engine<RecordingFold>, number: u64) {
    let mut batch = Batch::new();
    batch.push_block(block_ref(number), vec![(0, number)]);
    batch.boundary = number.checked_sub(1).filter(|&n| n > 0).map(block_ref);
    engine.apply_batch(&batch).unwrap();
}

/// Runs one crash schedule: every cycle commits, crashes and reopens.
fn run_schedule(commits_per_cycle: usize, cycles: usize, extra_budget: u32, torn_len: usize) {
    let dir = String::from("/crash-fuzz");
    let total_commits = cycles * commits_per_cycle;
    let mut reference = Engine::new(RecordingFold::default(), test_config()).unwrap();
    let planned: Vec<(Vec<u8>, Option<Position>)> = (1..=total_commits as u64)
        .map(|number| {
            advance(&mut reference, number);
            let mut bytes = Vec::new();
            reference.encode_snapshot(&mut bytes).unwrap();
            (bytes, reference.cursor())
        })
        .collect();

    // The first commit runs unbudgeted to measure the ops a clean open plus commit needs, so
    // every crash lands on a store with one acknowledged snapshot.
    let baseline = {
        let (mut store, _) =
            SnapshotStore::open(store_config(dir.clone()), CrashVfs::new()).unwrap();
        store.commit(&planned[0].0, planned[0].1).unwrap();
        store.into_vfs().op_count()
    };

    let vfs = CrashVfs::with_crash_budget(baseline + extra_budget, torn_len);
    let (mut store, _) = SnapshotStore::open(store_config(dir.clone()), vfs).unwrap();
    store.commit(&planned[0].0, planned[0].1).unwrap();
    let mut last_ok = planned[0].clone();
    let mut index = 1;

    for _ in 0..cycles {
        let end = (index + commits_per_cycle).min(planned.len());
        while index < end {
            let (bytes, cursor) = &planned[index];
            // durable_cursor() is authoritative: the active slot flips only after the manifest
            // fsync that made it durable.
            let _ = store.commit(bytes, *cursor);
            if store.durable_cursor() == *cursor {
                last_ok = (bytes.clone(), *cursor);
            }
            index += 1;
        }

        let mut vfs = store.into_vfs();
        vfs.crash();
        let (reopened, recovered) =
            SnapshotStore::open(store_config(dir.clone()), vfs).unwrap();
        store = reopened;

        let recovered = recovered.expect("the protected first commit is always durable");
        assert_eq!(&recovered.snapshot, &last_ok.0);
        assert_eq!(recovered.cursor, last_ok.1);
        let decoded =
            Engine::<RecordingFold>::decode_snapshot(&recovered.snapshot, test_config()).unwrap();
        assert_eq!(decoded.cursor(), last_ok.1);

        // reopening again with no further activity converges to the same state
        let vfs_again = store.into_vfs();
        let (reopened_again, recovered_again) =
            SnapshotStore::open(store_config(dir.clone()), vfs_again).unwrap();
        store = reopened_again;
        assert_eq!(recovered_again.unwrap().snapshot, recovered.snapshot);
    }
}

#[test]
fn crash_schedules_recover_a_committed_prefix() {
    for commits_per_cycle in 1..=5 {
        for cycles in 1..=3 {
            for extra_budget in 0..=64 {
                run_schedule(commits_per_cycle, cycles, extra_budget, 0);
                run_schedule(commits_per_cycle, cycles, extra_budget, 8);
                run_schedule(commits_per_cycle, cycles, extra_budget, 32);
            }
        }
    }
}

#[test]
fn a_crash_inside_the_first_commit_recovers_nothing() {
    let dir = String::from("/first");
    let (fresh, _) = SnapshotStore::open(store_config(dir.clone()), CrashVfs::new()).unwrap();
    let opened = fresh.into_vfs().op_count();
    for extra_budget in 0..6 {
        let vfs = CrashVfs::with_crash_budget(opened + extra_budget, 8);
        let (mut store, _) = SnapshotStore::open(store_config(dir.clone()), vfs).unwrap();
        assert!(store.commit(b"first", Some(Position::new(1, 0))).is_err());
        let mut vfs = store.into_vfs();
        vfs.crash();
        vfs.budget = None;
        let (_, recovered) = SnapshotStore::open(store_config(dir.clone()), vfs).unwrap();
        assert!(recovered.is_none());
    }
}

/// Sink that commits each offer to its store before it returns.
struct Flusher {
    store: SnapshotStore<CrashVfs>,
    ledger: FlushLedger,
}

impl SnapshotSink<RecordingFold> for Flusher {
    fn offer(&mut self, engine: &Engine<RecordingFold>) -> Result<(), DurabilityLost> {
        if let Some((bytes, point)) = durable_offer(engine)? {
            self.ledger.accept().map_err(|_| DurabilityLost)?;
            flush_job(&mut self.store, &mut self.ledger, &bytes, Some(point));
        }
        Ok(())
    }

    fn durable_cursor(&self) -> Option<Position> {
        self.ledger.durable_cursor
    }
}

/// Builds a ten-block chain the driver reads four blocks at a time.
fn resume_chain() -> ScriptedChain {
    let mut chain = ScriptedChain::new(1);
    for value in 1..=10u64 {
        chain.push_block(&[value]);
    }
    chain.set_window(4);
    chain
}

#[test]
fn flusher_sink_persists_and_resumes() {
    // given a driver whose sink commits to a crash-accurate store
    let dir = String::from("/resume");
    let (store, _) = SnapshotStore::open(store_config(dir.clone()), CrashVfs::new()).unwrap();
    let ledger = FlushLedger::new(store.durable_cursor());
    let mut driver = Driver::with_sink(
        RecordingFold::default(),
        resume_chain(),
        Flusher { store, ledger },
        resume_engine_config(),
        DriverConfig {
            checkpoint_interval: Some(2),
            snapshot_interval: Some(1),
            ..DriverConfig::from_block(1)
        },
    )
    .unwrap();

    // when driven to the tip, the store taken back, and the reopened store resumes a driver
    while !driver.is_caught_up() {
        driver.tick();
    }
    let store = driver.into_sink().store;
    let durable_cursor = store.durable_cursor();
    let (_, recovered) = SnapshotStore::open(store_config(dir), store.into_vfs()).unwrap();
    let recovered = recovered.expect("the offered snapshot is durable");
    let engine =
        Engine::<RecordingFold>::decode_snapshot(&recovered.snapshot, resume_engine_config())
            .unwrap();
    let mut resumed = Driver::resume(
        engine,
        resume_chain(),
        RecordingFold::default(),
        DriverConfig::from_block(1),
    )
    .unwrap();
    let resume_cursor = resumed.engine().cursor();
    while !resumed.is_caught_up() {
        resumed.tick();
    }

    // then the durable cursor trails the tip, the resume starts there, and the view converges
    assert_eq!(durable_cursor, Some(Position::new(8, 0)));
    assert_eq!(resume_cursor, Some(Position::new(8, 0)));
    assert_eq!(resumed.engine().cursor(), Some(Position::new(10, 0)));
    let expected: Vec<(Position, u64)> = (1..=10u64)
        .map(|value| (Position::new(value, 0), value))
        .collect();
    assert_eq!(resumed.engine().fold().applied, expected);
}

#[test]
fn a_restarted_driver_holds_the_chain_after_a_reorg() {
    // given a driver that folded the chain and committed a durable snapshot
    let dir = String::from("/restart");
    let (store, _) = SnapshotStore::open(store_config(dir.clone()), CrashVfs::new()).unwrap();
    let ledger = FlushLedger::new(store.durable_cursor());
    let mut driver = Driver::with_sink(
        RecordingFold::default(),
        resume_chain(),
        Flusher { store, ledger },
        resume_engine_config(),
        DriverConfig {
            checkpoint_interval: Some(2),
            snapshot_interval: Some(1),
            ..DriverConfig::from_block(1)
        },
    )
    .unwrap();
    while !driver.is_caught_up() {
        driver.tick();
    }
    let vfs = driver.into_sink().store.into_vfs();
    let (_, recovered) = SnapshotStore::open(store_config(dir), vfs).unwrap();
    let snapshot = recovered.unwrap().snapshot;
    for depth in 0..=10usize {
        // when the chain reorganises to some depth before the restart
        let mut chain = resume_chain();
        chain.reorg(depth, &[&[100], &[], &[101, 102]]);
        let engine =
            Engine::<RecordingFold>::decode_snapshot(&snapshot, resume_engine_config()).unwrap();
        let mut resumed = Driver::resume(
            engine,
            chain,
            RecordingFold::default(),
            DriverConfig::from_block(1),
        )
        .unwrap();
        while resumed.tick() != Tick::Idle {}
        // then an idle tick leaves exactly the events of that chain
        let mut expected = Vec::new();
        for block in &resumed.source_mut().blocks {
            for (index, event) in block.events.iter().enumerate() {
                expected.push((Position::new(block.number, index as u64), *event));
            }
        }
        assert_eq!(resumed.engine().fold().applied, expected);
    }
}
