use std::collections::BTreeMap;

use chainfold::bytes::ByteSeq;
use chainfold::storage::flusher::{
    durable_offer, flush_job, Admission, FlushError, FlushLedger, TokenState,
};
use chainfold::storage::store::{SnapshotStore, StoreConfig, StoreError};
use chainfold::storage::vfs::{Fault, FaultKind, Vfs};
use chainfold::{
    Batch, BlockRef, Describe, DurabilityLost, Engine, EngineConfig, Fold, FoldError, Persist,
    Position,
};

/// Fold that records every applied event and can fail on a scripted position.
#[derive(Debug, Clone, Default, PartialEq)]
pub struct RecordingFold {
    /// Every position the fold accepted, with its event.
    pub applied: Vec<(Position, u64)>,
    /// Position the fold fails at, and how.
    pub fail_at: Option<(Position, FailKind)>,
}

/// Scripted failure the recording fold raises at its `fail_at` position.
#[derive(Debug, Clone, Copy, PartialEq, Eq)]
pub enum FailKind {
    /// Declares the event not mine.
    Skip,
    /// Refuses the event with clean state below it.
    Halt,
    /// Records the event, then refuses it.
    Poison,
}

impl Fold for RecordingFold {
    type Event = u64;
    type View = Vec<(Position, u64)>;
    type Error = FailKind;

    fn apply(&mut self, pos: Position, event: &u64) -> Result<(), FoldError<FailKind>> {
        if let Some((scripted_pos, kind)) = self.fail_at {
            if scripted_pos == pos {
                return match kind {
                    FailKind::Skip => Err(FoldError::Skip(kind)),
                    FailKind::Halt => Err(FoldError::Halt(kind)),
                    FailKind::Poison => {
                        self.applied.push((pos, *event));
                        Err(FoldError::Poison(kind))
                    }
                };
            }
        }
        self.applied.push((pos, *event));
        Ok(())
    }

    fn view(&self) -> Vec<(Position, u64)> {
        self.applied.clone()
    }
}

impl Persist for RecordingFold {
    const STATE_TAG: &'static str = "chainfold.test.recording";
    type PersistError = ();

    fn state_bytes(&self) -> ByteSeq {
        unreachable!("only contracts speak of it")
    }

    fn encode_state(&self, out: &mut Vec<u8>) {
        let count = u64::try_from(self.applied.len()).expect("recorded entry count fits in u64");
        out.extend_from_slice(&count.to_le_bytes());
        for (pos, event) in &self.applied {
            out.extend_from_slice(&pos.block.to_le_bytes());
            out.extend_from_slice(&pos.log_index.to_le_bytes());
            out.extend_from_slice(&event.to_le_bytes());
        }
    }

    fn decode_state(bytes: &[u8]) -> Result<Self, ()> {
        const ENTRY_LEN: usize = 24;
        let (count, entries) = bytes.split_first_chunk::<8>().ok_or(())?;
        let count = usize::try_from(u64::from_le_bytes(*count)).map_err(|_| ())?;
        if entries.len() != count.checked_mul(ENTRY_LEN).ok_or(())? {
            return Err(());
        }
        // The length check above makes every chunk exactly three 8-byte lanes.
        let lane = |e: &[u8], i: usize| {
            u64::from_le_bytes(e[i * 8..][..8].try_into().expect("three lanes"))
        };
        let entry = |e: &[u8]| (Position::new(lane(e, 0), lane(e, 1)), lane(e, 2));
        Ok(Self {
            applied: entries.chunks_exact(ENTRY_LEN).map(entry).collect(),
            fail_at: None,
        })
    }
}

/// One file's content, split into what a crash discards and what fsync kept.
#[derive(Debug, Clone, Default)]
struct CrashFileBytes {
    durable: Vec<u8>,
    volatile: Vec<u8>,
}

/// In-memory filesystem with fsync-accurate durability and crash injection.
#[derive(Debug, Default)]
pub struct CrashVfs {
    files: BTreeMap<u64, CrashFileBytes>,
    durable_names: BTreeMap<(String, String), u64>,
    volatile_names: BTreeMap<(String, String), u64>,
    next_inode: u64,
    budget: Option<u32>,
    torn_len: usize,
    op_count: u32,
}

impl CrashVfs {
    /// Builds a fresh, empty filesystem that never crashes.
    pub fn new() -> Self {
        Self::default()
    }

    /// Mutating ops fail once the budget is spent; the crashing write persists only torn_len bytes
    /// of its volatile effect.
    pub fn with_crash_budget(ops: u32, torn_len: usize) -> Self {
        Self {
            budget: Some(ops),
            torn_len,
            ..Self::default()
        }
    }

    /// Discards all volatile state, keeping only what fsync made durable.
    pub fn crash(&mut self) {
        self.volatile_names.clone_from(&self.durable_names);
        for file in self.files.values_mut() {
            file.volatile.clone_from(&file.durable);
        }
    }

    /// Number of mutating op attempts made so far, crashing or not.
    pub fn op_count(&self) -> u32 {
        self.op_count
    }

    /// Consumes one unit of crash budget; true means this call is the crashing one.
    fn consume_budget(&mut self) -> bool {
        self.op_count = self.op_count.wrapping_add(1);
        match &mut self.budget {
            None => false,
            Some(0) => true,
            Some(remaining) => {
                *remaining -= 1;
                false
            }
        }
    }

    /// Consumes budget and reports how much of a `len`-byte effect this call keeps.
    fn torn_write(&mut self, len: usize) -> (bool, usize) {
        let crashing = self.consume_budget();
        (crashing, if crashing { len.min(self.torn_len) } else { len })
    }

    /// Maps a crash flag onto the result every mutating op returns.
    fn outcome(crashing: bool) -> Result<(), Fault> {
        if crashing {
            Err(Fault::of(FaultKind::Other))
        } else {
            Ok(())
        }
    }

    fn path(dir: &str, name: &str) -> (String, String) {
        (dir.to_string(), name.to_string())
    }

    /// Resolves the inode a write targets, allocating a fresh one for a new name.
    fn inode_for_write(&mut self, dir: &str, name: &str) -> u64 {
        let path = Self::path(dir, name);
        if let Some(&inode) = self.volatile_names.get(&path) {
            inode
        } else {
            let inode = self.next_inode;
            self.next_inode += 1;
            self.files.insert(inode, CrashFileBytes::default());
            self.volatile_names.insert(path, inode);
            inode
        }
    }
}

impl Vfs for CrashVfs {
    fn create_dir_all(&mut self, _dir: &str) -> Result<(), Fault> {
        Ok(())
    }

    fn read(&mut self, dir: &str, name: &str) -> Result<Vec<u8>, Fault> {
        let inode = *self
            .volatile_names
            .get(&Self::path(dir, name))
            .ok_or_else(|| Fault::of(FaultKind::NotFound))?;
        Ok(self.files[&inode].volatile.clone())
    }

    fn write(&mut self, dir: &str, name: &str, bytes: &[u8]) -> Result<(), Fault> {
        let inode = self.inode_for_write(dir, name);
        let (crashing, keep) = self.torn_write(bytes.len());
        self.files
            .get_mut(&inode)
            .expect("write always registers its inode first")
            .volatile = bytes[..keep].to_vec();
        Self::outcome(crashing)
    }

    fn write_at(
        &mut self,
        dir: &str,
        name: &str,
        offset: u64,
        bytes: &[u8],
    ) -> Result<(), Fault> {
        let inode = self.inode_for_write(dir, name);
        let (crashing, keep) = self.torn_write(bytes.len());
        let offset = usize::try_from(offset).expect("offset fits in memory on this platform");
        let file = self
            .files
            .get_mut(&inode)
            .expect("write_at always registers its inode first");
        let needed = offset + keep;
        if file.volatile.len() < needed {
            file.volatile.resize(needed, 0);
        }
        file.volatile[offset..needed].copy_from_slice(&bytes[..keep]);
        Self::outcome(crashing)
    }

    fn fsync_file(&mut self, dir: &str, name: &str) -> Result<(), Fault> {
        let inode = *self
            .volatile_names
            .get(&Self::path(dir, name))
            .ok_or_else(|| Fault::of(FaultKind::NotFound))?;
        let target_len = self.files[&inode].volatile.len();
        let (crashing, keep) = self.torn_write(target_len);
        let file = self
            .files
            .get_mut(&inode)
            .expect("fsync_file always resolves a registered inode");
        if file.durable.len() < target_len {
            file.durable.resize(target_len, 0);
        }
        file.durable[..keep].copy_from_slice(&file.volatile[..keep]);
        Self::outcome(crashing)
    }

    fn rename(&mut self, dir: &str, from: &str, to: &str) -> Result<(), Fault> {
        let inode = self
            .volatile_names
            .remove(&Self::path(dir, from))
            .ok_or_else(|| Fault::of(FaultKind::NotFound))?;
        let crashing = self.consume_budget();
        let name = if crashing { from } else { to };
        self.volatile_names.insert(Self::path(dir, name), inode);
        Self::outcome(crashing)
    }

    fn remove(&mut self, dir: &str, name: &str) -> Result<(), Fault> {
        let path = Self::path(dir, name);
        let inode = self
            .volatile_names
            .remove(&path)
            .ok_or_else(|| Fault::of(FaultKind::NotFound))?;
        let crashing = self.consume_budget();
        if crashing {
            self.volatile_names.insert(path, inode);
        }
        Self::outcome(crashing)
    }

    fn list(&mut self, dir: &str) -> Result<Vec<String>, Fault> {
        Ok(self
            .volatile_names
            .keys()
            .filter(|path| path.0 == dir)
            .map(|path| path.1.clone())
            .collect())
    }

    fn fsync_dir(&mut self, dir: &str) -> Result<(), Fault> {
        let crashing = self.consume_budget();
        if crashing {
            return Err(Fault::of(FaultKind::Other));
        }
        self.durable_names.retain(|path, _| path.0 != dir);
        for (path, inode) in &self.volatile_names {
            if path.0 == dir {
                self.durable_names.insert(path.clone(), *inode);
            }
        }
        Ok(())
    }

    fn is_present(&mut self, dir: &str, name: &str) -> Result<bool, Fault> {
        Ok(self.volatile_names.contains_key(&Self::path(dir, name)))
    }
}

fn config(dir: String, retain: usize) -> StoreConfig {
    StoreConfig { dir, retain }
}

fn engine_config() -> EngineConfig {
    EngineConfig {
        ring_capacity: 8,
        checkpoint_slots: 2,
    }
}

/// Deterministic block header: the block number embedded directly in the hash bytes.
fn block_ref(number: u64) -> BlockRef {
    let mut hash = [0u8; 32];
    hash[..8].copy_from_slice(&number.to_le_bytes());
    BlockRef { number, hash }
}

/// Advances the engine by one block carrying a single event.
fn advance(engine: &mut Engine<RecordingFold>, number: u64) {
    let mut batch = Batch::new();
    batch.push_block(block_ref(number), vec![(0, number)]);
    batch.boundary = number.checked_sub(1).filter(|&n| n > 0).map(block_ref);
    engine.apply_batch(&batch).unwrap();
}

/// A store with its ledger, flushing each job as it is submitted.
struct Flusher {
    store: SnapshotStore<CrashVfs>,
    ledger: FlushLedger,
}

impl Flusher {
    fn over(store: SnapshotStore<CrashVfs>) -> Self {
        let ledger = FlushLedger::new(store.durable_cursor());
        Flusher { store, ledger }
    }

    fn submit(
        &mut self,
        snapshot: &[u8],
        cursor: Option<Position>,
    ) -> Result<TokenState, FlushError> {
        self.ledger.accept()?;
        let mut token = TokenState::new();
        let outcome = flush_job(&mut self.store, &mut self.ledger, snapshot, cursor);
        token.complete(outcome.unwrap_or(Err(FlushError::Closed)));
        Ok(token)
    }

    fn offer(&mut self, engine: &Engine<RecordingFold>) -> Result<(), DurabilityLost> {
        if let Some((bytes, point)) = durable_offer(engine)? {
            self.submit(&bytes, Some(point)).map_err(|_| DurabilityLost)?;
        }
        Ok(())
    }
}

#[test]
fn sink_offer_submits_the_durable_point() {
    // given a flusher and an engine checkpointed at (2, 0) then folded to block 4
    let dir = String::from("/flusher-sink");
    let (store, _) = SnapshotStore::open(config(dir.clone(), 1), CrashVfs::new()).unwrap();
    let mut flusher = Flusher::over(store);
    let mut engine = Engine::new(RecordingFold::default(), engine_config()).unwrap();
    advance(&mut engine, 1);
    advance(&mut engine, 2);
    engine.checkpoint();
    advance(&mut engine, 3);
    advance(&mut engine, 4);
    // when offered
    let offered = flusher.offer(&engine);
    let store = flusher.store;
    // then the durable cursor is the checkpoint's and the stored bytes decode to it
    assert_eq!(offered, Ok(()));
    assert_eq!(store.durable_cursor(), Some(Position::new(2, 0)));
    let (_, recovered) = SnapshotStore::open(config(dir, 1), store.into_vfs()).unwrap();
    let recovered = recovered.expect("the offered snapshot is durable");
    let decoded =
        Engine::<RecordingFold>::decode_snapshot(&recovered.snapshot, engine_config()).unwrap();
    assert_eq!(decoded.cursor(), Some(Position::new(2, 0)));
}

#[test]
fn sink_offer_without_checkpoints_submits_nothing() {
    // given a flusher and an engine that never checkpointed
    let dir = String::from("/flusher-empty");
    let (store, _) = SnapshotStore::open(config(dir, 1), CrashVfs::new()).unwrap();
    let mut flusher = Flusher::over(store);
    let mut engine = Engine::new(RecordingFold::default(), engine_config()).unwrap();
    advance(&mut engine, 1);
    // when offered
    let offered = flusher.offer(&engine);
    // then the offer succeeded and the store holds no durable cursor
    assert_eq!(offered, Ok(()));
    assert_eq!(flusher.store.durable_cursor(), None);
}

#[test]
fn token_completes_after_fsync() {
    // given a flusher over a fresh store
    let dir = String::from("/flusher");
    let (store, _) = SnapshotStore::open(config(dir, 1), CrashVfs::new()).unwrap();
    let mut flusher = Flusher::over(store);
    let cursor = Some(Position::new(5, 0));
    // when submitting a snapshot
    let token = flusher.submit(b"snapshot", cursor).unwrap();
    // then the token holds Ok and the durable cursor advances to the submitted cursor
    assert_eq!(token.try_result(), Some(Ok(())));
    assert_eq!(flusher.ledger.durable_cursor, cursor);
}

#[test]
fn watermark_tracks_the_last_committed_cursor() {
    // given three submits with strictly increasing cursors
    let dir = String::from("/flusher");
    let (store, _) = SnapshotStore::open(config(dir, 1), CrashVfs::new()).unwrap();
    let mut flusher = Flusher::over(store);
    let first_cursor = Some(Position::new(1, 0));
    let second_cursor = Some(Position::new(2, 0));
    let third_cursor = Some(Position::new(3, 0));
    // when each is submitted, the last one carrying an older cursor as a resync would
    let first = flusher.submit(b"one", first_cursor).unwrap();
    assert_eq!(first.try_result(), Some(Ok(())));
    let after_first = flusher.ledger.durable_cursor;
    let second = flusher.submit(b"two", second_cursor).unwrap();
    assert_eq!(second.try_result(), Some(Ok(())));
    let after_second = flusher.ledger.durable_cursor;
    let third = flusher.submit(b"three", third_cursor).unwrap();
    assert_eq!(third.try_result(), Some(Ok(())));
    let after_third = flusher.ledger.durable_cursor;
    let older = flusher.submit(b"resynced", first_cursor).unwrap();
    assert_eq!(older.try_result(), Some(Ok(())));
    let after_older = flusher.ledger.durable_cursor;
    // then the durable cursor names the cursor of the snapshot the store now holds
    assert_eq!(after_first, first_cursor);
    assert_eq!(after_second, second_cursor);
    assert_eq!(after_third, third_cursor);
    assert!(after_first < after_second);
    assert!(after_second < after_third);
    assert_eq!(after_older, first_cursor);
}

#[test]
fn watermark_matches_what_a_reopen_recovers_after_older_state_commits() {
    // given a flusher that committed block 3 and then committed block 1 on top
    let dir = String::from("/flusher-resync");
    let (store, _) = SnapshotStore::open(config(dir.clone(), 1), CrashVfs::new()).unwrap();
    let mut flusher = Flusher::over(store);
    let high = flusher.submit(b"folded", Some(Position::new(3, 0))).unwrap();
    assert_eq!(high.try_result(), Some(Ok(())));
    let low = flusher.submit(b"resynced", Some(Position::new(1, 0))).unwrap();
    assert_eq!(low.try_result(), Some(Ok(())));
    // when the watermark is read and the store is reopened
    let watermark = flusher.ledger.durable_cursor;
    let (_, recovered) =
        SnapshotStore::open(config(dir, 1), flusher.store.into_vfs()).unwrap();
    // then the watermark equals the cursor and bytes the reopen recovers
    let recovered = recovered.expect("the resynced snapshot is durable");
    assert_eq!(watermark, Some(Position::new(1, 0)));
    assert_eq!(recovered.cursor, watermark);
    assert_eq!(recovered.snapshot.as_slice(), b"resynced".as_slice());
}

#[test]
fn failed_fsync_freezes_watermark_and_poisons_tokens() {
    // given a budget that fails partway through the second commit
    let dir = String::from("/flusher");
    let (mut measure, _) =
        SnapshotStore::open(config(dir.clone(), 1), CrashVfs::new()).unwrap();
    measure.commit(b"first", Some(Position::new(1, 0))).unwrap();
    let after_first = measure.into_vfs().op_count();
    let vfs = CrashVfs::with_crash_budget(after_first, 0);
    let (store, _) = SnapshotStore::open(config(dir, 1), vfs).unwrap();
    let mut flusher = Flusher::over(store);
    let first_cursor = Some(Position::new(1, 0));
    let second_cursor = Some(Position::new(2, 0));
    // when both are submitted
    let first = flusher.submit(b"first", first_cursor).unwrap();
    let second = flusher.submit(b"second", second_cursor).unwrap();
    // then the first is Ok, the second carries the error, watermark stays on the first
    assert_eq!(first.try_result(), Some(Ok(())));
    assert!(second.try_result().unwrap().is_err());
    assert_eq!(flusher.ledger.durable_cursor, first_cursor);
    // and a third submit returns Closed
    let third = flusher.submit(b"third", Some(Position::new(3, 0)));
    assert!(matches!(third, Err(FlushError::Closed)));
}

#[test]
fn join_returns_store_after_draining() {
    // given a submit on a fresh flusher
    let dir = String::from("/flusher");
    let (store, _) = SnapshotStore::open(config(dir, 1), CrashVfs::new()).unwrap();
    let mut flusher = Flusher::over(store);
    let cursor = Some(Position::new(7, 0));
    let token = flusher.submit(b"pending", cursor).unwrap();
    // when the store is taken back
    let store = flusher.store;
    // then its durable cursor reflects the drained job
    assert_eq!(token.try_result(), Some(Ok(())));
    assert_eq!(store.durable_cursor(), cursor);
}

#[test]
fn a_full_queue_admits_nothing_until_a_slot_is_released() {
    let mut gate = Admission::new(1);
    assert!(gate.try_acquire());
    assert!(!gate.try_acquire());
    gate.release();
    assert!(gate.try_acquire());
}

#[test]
fn a_token_keeps_its_first_outcome() {
    let mut token = TokenState::new();
    assert!(token.complete(Ok(())));
    assert!(!token.complete(Err(FlushError::Closed)));
    assert_eq!(token.try_result(), Some(Ok(())));
}

#[test]
fn a_poisoned_ledger_leaves_the_job_alone() {
    let dir = String::from("/flusher");
    let (mut store, _) = SnapshotStore::open(config(dir, 1), CrashVfs::new()).unwrap();
    let mut ledger = FlushLedger {
        durable_cursor: None,
        poisoned: true,
    };
    assert_eq!(flush_job(&mut store, &mut ledger, b"bytes", None), None);
    assert_eq!(store.version(), 0);
}

#[test]
fn a_flush_error_carries_the_kind_of_the_fault() {
    let error = FlushError::from(StoreError::Io(Fault::of(FaultKind::QuotaExceeded)));
    assert_eq!(
        error,
        FlushError::Io {
            kind: FaultKind::QuotaExceeded,
        }
    );
    assert_eq!(error.describe(), "flusher io error: quota exceeded");
}
