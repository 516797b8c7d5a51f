use std::collections::BTreeMap;

use chainfold::storage::manifest::{
    encode_slot, SlotRecord, MANIFEST_SIZE, SLOT_SIZE, SLOT_STRIDE,
};
use chainfold::storage::store::{
    snapshot_file_name, snapshot_id_from_name, SnapshotStore, StoreConfig, StoreError,
    MANIFEST_FILE, TEMP_FILE,
};
use chainfold::storage::vfs::{Fault, FaultKind, Vfs};
use chainfold::{Describe, Position};

/// One file's content, split into what a crash discards and what fsync kept.
#[derive(Debug, Clone, Default)]
struct CrashFileBytes {
    durable: Vec<u8>,
    volatile: Vec<u8>,
}

/// In-memory filesystem with fsync-accurate durability and crash injection.
#[derive(Debug, Default)]
pub struct CrashVfs {
    files: BTreeMap<u64, CrashFileBytes>,
    durable_names: BTreeMap<(String, String), u64>,
    volatile_names: BTreeMap<(String, String), u64>,
    next_inode: u64,
    budget: Option<u32>,
    torn_len: usize,
    op_count: u32,
}

impl CrashVfs {
    /// Builds a fresh, empty filesystem that never crashes.
    pub fn new() -> Self {
        Self::default()
    }

    /// Mutating ops fail once the budget is spent; the crashing write persists only torn_len bytes
    /// of its volatile effect.
    pub fn with_crash_budget(ops: u32, torn_len: usize) -> Self {
        Self {
            budget: Some(ops),
            torn_len,
            ..Self::default()
        }
    }

    /// Discards all volatile state, keeping only what fsync made durable.
    pub fn crash(&mut self) {
        self.volatile_names.clone_from(&self.durable_names);
        for file in self.files.values_mut() {
            file.volatile.clone_from(&file.durable);
        }
    }

    /// Number of mutating op attempts made so far, crashing or not.
    pub fn op_count(&self) -> u32 {
        self.op_count
    }

    /// Consumes one unit of crash budget; true means this call is the crashing one.
    fn consume_budget(&mut self) -> bool {
        self.op_count = self.op_count.wrapping_add(1);
        match &mut self.budget {
            None => false,
            Some(0) => true,
            Some(remaining) => {
                *remaining -= 1;
                false
            }
        }
    }

    /// Consumes budget and reports how much of a `len`-byte effect this call keeps.
    fn torn_write(&mut self, len: usize) -> (bool, usize) {
        let crashing = self.consume_budget();
        (crashing, if crashing { len.min(self.torn_len) } else { len })
    }

    /// Maps a crash flag onto the result every mutating op returns.
    fn outcome(crashing: bool) -> Result<(), Fault> {
        if crashing {
            Err(Fault::of(FaultKind::Other))
        } else {
            Ok(())
        }
    }

    fn path(dir: &str, name: &str) -> (String, String) {
        (dir.to_string(), name.to_string())
    }

    /// Resolves the inode a write targets, allocating a fresh one for a new name.
    fn inode_for_write(&mut self, dir: &str, name: &str) -> u64 {
        let path = Self::path(dir, name);
        if let Some(&inode) = self.volatile_names.get(&path) {
            inode
        } else {
            let inode = self.next_inode;
            self.next_inode += 1;
            self.files.insert(inode, CrashFileBytes::default());
            self.volatile_names.insert(path, inode);
            inode
        }
    }
}

impl Vfs for CrashVfs {
    fn create_dir_all(&mut self, _dir: &str) -> Result<(), Fault> {
        Ok(())
    }

    fn read(&mut self, dir: &str, name: &str) -> Result<Vec<u8>, Fault> {
        let inode = *self
            .volatile_names
            .get(&Self::path(dir, name))
            .ok_or_else(|| Fault::of(FaultKind::NotFound))?;
        Ok(self.files[&inode].volatile.clone())
    }

    fn write(&mut self, dir: &str, name: &str, bytes: &[u8]) -> Result<(), Fault> {
        let inode = self.inode_for_write(dir, name);
        let (crashing, keep) = self.torn_write(bytes.len());
        self.files
            .get_mut(&inode)
            .expect("write always registers its inode first")
            .volatile = bytes[..keep].to_vec();
        Self::outcome(crashing)
    }

    fn write_at(
        &mut self,
        dir: &str,
        name: &str,
        offset: u64,
        bytes: &[u8],
    ) -> Result<(), Fault> {
        let inode = self.inode_for_write(dir, name);
        let (crashing, keep) = self.torn_write(bytes.len());
        let offset = usize::try_from(offset).expect("offset fits in memory on this platform");
        let file = self
            .files
            .get_mut(&inode)
            .expect("write_at always registers its inode first");
        let needed = offset + keep;
        if file.volatile.len() < needed {
            file.volatile.resize(needed, 0);
        }
        file.volatile[offset..needed].copy_from_slice(&bytes[..keep]);
        Self::outcome(crashing)
    }

    fn fsync_file(&mut self, dir: &str, name: &str) -> Result<(), Fault> {
        let inode = *self
            .volatile_names
            .get(&Self::path(dir, name))
            .ok_or_else(|| Fault::of(FaultKind::NotFound))?;
        let target_len = self.files[&inode].volatile.len();
        let (crashing, keep) = self.torn_write(target_len);
        let file = self
            .files
            .get_mut(&inode)
            .expect("fsync_file always resolves a registered inode");
        if file.durable.len() < target_len {
            file.durable.resize(target_len, 0);
        }
        file.durable[..keep].copy_from_slice(&file.volatile[..keep]);
        Self::outcome(crashing)
    }

    fn rename(&mut self, dir: &str, from: &str, to: &str) -> Result<(), Fault> {
        let inode = self
            .volatile_names
            .remove(&Self::path(dir, from))
            .ok_or_else(|| Fault::of(FaultKind::NotFound))?;
        let crashing = self.consume_budget();
        let name = if crashing { from } else { to };
        self.volatile_names.insert(Self::path(dir, name), inode);
        Self::outcome(crashing)
    }

    fn remove(&mut self, dir: &str, name: &str) -> Result<(), Fault> {
        let path = Self::path(dir, name);
        let inode = self
            .volatile_names
            .remove(&path)
            .ok_or_else(|| Fault::of(FaultKind::NotFound))?;
        let crashing = self.consume_budget();
        if crashing {
            self.volatile_names.insert(path, inode);
        }
        Self::outcome(crashing)
    }

    fn list(&mut self, dir: &str) -> Result<Vec<String>, Fault> {
        Ok(self
            .volatile_names
            .keys()
            .filter(|path| path.0 == dir)
            .map(|path| path.1.clone())
            .collect())
    }

    fn fsync_dir(&mut self, dir: &str) -> Result<(), Fault> {
        let crashing = self.consume_budget();
        if crashing {
            return Err(Fault::of(FaultKind::Other));
        }
        self.durable_names.retain(|path, _| path.0 != dir);
        for (path, inode) in &self.volatile_names {
            if path.0 == dir {
                self.durable_names.insert(path.clone(), *inode);
            }
        }
        Ok(())
    }

    fn is_present(&mut self, dir: &str, name: &str) -> Result<bool, Fault> {
        Ok(self.volatile_names.contains_key(&Self::path(dir, name)))
    }
}


fn config(dir: String, retain: usize) -> StoreConfig {
    StoreConfig { dir, retain }
}

#[test]
fn fresh_dir_opens_empty() {
    // given an empty CrashVfs
    let vfs = CrashVfs::new();
    // when opened
    let (_, recovered) =
        SnapshotStore::open(config(String::from("/store"), 1), vfs).unwrap();
    // then no recovery
    assert!(recovered.is_none());
}

#[test]
fn commit_then_open_recovers_bytes_and_cursor() {
    // given one commit
    let dir = String::from("/store");
    let (mut store, _) =
        SnapshotStore::open(config(dir.clone(), 1), CrashVfs::new()).unwrap();
    let cursor = Some(Position::new(10, 2));
    store.commit(b"snapshot-bytes", cursor).unwrap();
    let vfs = store.into_vfs();
    // when reopened
    let (_, recovered) = SnapshotStore::open(config(dir, 1), vfs).unwrap();
    // then the exact bytes and cursor return
    let recovered = recovered.unwrap();
    assert_eq!(recovered.snapshot.as_slice(), b"snapshot-bytes".as_slice());
    assert_eq!(recovered.cursor, cursor);
}

#[test]
fn second_commit_supersedes_first() {
    // given two commits
    let dir = String::from("/store");
    let (mut store, _) =
        SnapshotStore::open(config(dir.clone(), 1), CrashVfs::new()).unwrap();
    store.commit(b"first", Some(Position::new(1, 0))).unwrap();
    store.commit(b"second", Some(Position::new(2, 0))).unwrap();
    let durable = store.durable_cursor();
    let vfs = store.into_vfs();
    // when reopened
    let (_, recovered) = SnapshotStore::open(config(dir, 1), vfs).unwrap();
    // then the second serves and durable_cursor matches
    let recovered = recovered.unwrap();
    assert_eq!(recovered.snapshot.as_slice(), b"second".as_slice());
    assert_eq!(durable, Some(Position::new(2, 0)));
}

#[test]
fn crash_at_every_op_of_a_commit_recovers_a_valid_state() {
    // given a store with one durable commit
    let dir = String::from("/store");
    let torn_len = 8;

    let (mut measure_first, _) =
        SnapshotStore::open(config(dir.clone(), 1), CrashVfs::new()).unwrap();
    measure_first
        .commit(b"first", Some(Position::new(1, 0)))
        .unwrap();
    let after_first = measure_first.into_vfs().op_count();

    let (mut measure_second, _) =
        SnapshotStore::open(config(dir.clone(), 1), CrashVfs::new()).unwrap();
    measure_second
        .commit(b"first", Some(Position::new(1, 0)))
        .unwrap();
    measure_second
        .commit(b"second", Some(Position::new(2, 0)))
        .unwrap();
    let after_second = measure_second.into_vfs().op_count();
    let second_commit_ops = after_second - after_first;

    // when the commit crashes at every op budget from 0 to the total op count
    for budget in 0..=second_commit_ops {
        let vfs = CrashVfs::with_crash_budget(after_first + budget, torn_len);
        let (mut store, _) =
            SnapshotStore::open(config(dir.clone(), 1), vfs).unwrap();
        store.commit(b"first", Some(Position::new(1, 0))).unwrap();
        let commit_result = store.commit(b"second", Some(Position::new(2, 0)));
        let mut vfs = store.into_vfs();
        vfs.crash();
        let (_, recovered) =
            SnapshotStore::open(config(dir.clone(), 1), vfs).unwrap();
        // then open succeeds and recovers exactly one acknowledged snapshot
        let recovered = recovered
            .unwrap_or_else(|| panic!("budget {budget} lost every snapshot"));
        if commit_result.is_err() {
            assert_eq!(
                recovered.snapshot.as_slice(),
                b"first".as_slice(),
                "budget {budget} should still recover the first snapshot"
            );
        } else {
            assert_eq!(
                recovered.snapshot.as_slice(),
                b"second".as_slice(),
                "budget {budget} completed the commit and should recover the second"
            );
        }
    }
}

#[test]
fn torn_manifest_slot_falls_back_to_valid_slot() {
    // given a crash mid slot write with a nonzero torn_len
    let dir = String::from("/store");
    let (mut baseline, _) =
        SnapshotStore::open(config(dir.clone(), 1), CrashVfs::new()).unwrap();
    baseline
        .commit(b"first", Some(Position::new(1, 0)))
        .unwrap();
    let after_first = baseline.into_vfs().op_count();

    let vfs = CrashVfs::with_crash_budget(after_first + 4, 8);
    let (mut store, _) = SnapshotStore::open(config(dir.clone(), 1), vfs).unwrap();
    store.commit(b"first", Some(Position::new(1, 0))).unwrap();
    let result = store.commit(b"second", Some(Position::new(2, 0)));
    let mut vfs = store.into_vfs();
    vfs.crash();
    // when reopened
    let (_, recovered) = SnapshotStore::open(config(dir, 1), vfs).unwrap();
    // then the prior state serves
    assert!(result.is_err());
    assert_eq!(recovered.unwrap().snapshot.as_slice(), b"first".as_slice());
}

#[test]
fn fresh_store_reopens_without_commit() {
    // given a store opened once and dropped before any commit
    let dir = String::from("/store");
    let (store, _) =
        SnapshotStore::open(config(dir.clone(), 1), CrashVfs::new()).unwrap();
    let vfs = store.into_vfs();
    // when reopened
    let (_, recovered) = SnapshotStore::open(config(dir, 1), vfs).unwrap();
    // then the open succeeds and reports no recovery
    assert!(recovered.is_none());
}

#[test]
fn crash_inside_pruning_still_opens() {
    // given four commits under retain 4 and a budget that expires at the first unlink
    let dir = String::from("/store");
    let setup_ops = {
        let (mut store, _) =
            SnapshotStore::open(config(dir.clone(), 4), CrashVfs::new()).unwrap();
        for version in 1..=4u64 {
            store
                .commit(b"snapshot", Some(Position::new(version, 0)))
                .unwrap();
        }
        store.into_vfs().op_count()
    };
    let vfs = CrashVfs::with_crash_budget(setup_ops, 0);
    let (mut store, _) = SnapshotStore::open(config(dir.clone(), 4), vfs).unwrap();
    for version in 1..=4u64 {
        store
            .commit(b"snapshot", Some(Position::new(version, 0)))
            .unwrap();
    }
    let vfs = store.into_vfs();
    // when reopened with retain 1, so pruning unlinks a superseded snapshot
    let (store, recovered) = SnapshotStore::open(config(dir, 1), vfs).unwrap();
    // then the open succeeds and the acknowledged snapshot still recovers
    assert_eq!(recovered.unwrap().cursor, Some(Position::new(4, 0)));
    assert_eq!(store.durable_cursor(), Some(Position::new(4, 0)));
}

#[test]
fn corrupt_both_slots_is_typed() {
    // given a manifest whose written bytes fail both slot checksums
    let dir = String::from("/store");
    let mut vfs = CrashVfs::new();
    vfs.create_dir_all(&dir).unwrap();
    let zeroed = vec![0xABu8; SLOT_SIZE * 2];
    vfs.write(&dir, MANIFEST_FILE, &zeroed).unwrap();
    vfs.fsync_file(&dir, MANIFEST_FILE).unwrap();
    vfs.fsync_dir(&dir).unwrap();
    // when opened
    let result = SnapshotStore::open(config(dir, 1), vfs);
    // then CorruptManifest
    assert!(matches!(result, Err(StoreError::CorruptManifest)));
}

#[test]
fn dangling_manifest_pointer_is_typed() {
    // given a valid manifest and a deleted snapshot file
    let dir = String::from("/store");
    let (mut store, _) =
        SnapshotStore::open(config(dir.clone(), 1), CrashVfs::new()).unwrap();
    store.commit(b"first", Some(Position::new(1, 0))).unwrap();
    let mut vfs = store.into_vfs();
    vfs.remove(&dir, &snapshot_file_name(1)).unwrap();
    // when opened
    let result = SnapshotStore::open(config(dir, 1), vfs);
    // then MissingSnapshot
    assert!(matches!(result, Err(StoreError::MissingSnapshot { id: 1 })));
}

#[test]
fn orphan_temp_and_unreferenced_snapshots_are_pruned() {
    // given leftover snap.tmp and three old snapshot files with retain 1
    let dir = String::from("/store");
    let mut vfs = CrashVfs::new();
    vfs.create_dir_all(&dir).unwrap();
    for id in 1..=4u64 {
        let name = snapshot_file_name(id);
        vfs.write(&dir, &name, format!("snap-{id}").as_bytes()).unwrap();
        vfs.fsync_file(&dir, &name).unwrap();
    }
    vfs.write(&dir, TEMP_FILE, b"leftover").unwrap();
    vfs.fsync_file(&dir, TEMP_FILE).unwrap();
    vfs.fsync_dir(&dir).unwrap();
    let record = SlotRecord {
        version: 1,
        cursor: None,
        snapshot_id: 4,
    };
    let mut manifest_bytes = vec![0u8; SLOT_SIZE * 2];
    manifest_bytes[..SLOT_SIZE].copy_from_slice(&encode_slot(&record));
    vfs.write(&dir, MANIFEST_FILE, &manifest_bytes).unwrap();
    vfs.fsync_file(&dir, MANIFEST_FILE).unwrap();
    vfs.fsync_dir(&dir).unwrap();
    // when opened with retain 1
    let (store, recovered) =
        SnapshotStore::open(config(dir.clone(), 1), vfs).unwrap();
    assert_eq!(recovered.unwrap().snapshot.as_slice(), b"snap-4".as_slice());
    let mut vfs = store.into_vfs();
    // then temp is gone and only the referenced plus one retained file remain
    let remaining = vfs.list(&dir).unwrap();
    assert!(!remaining.contains(&TEMP_FILE.to_string()));
    assert!(remaining.contains(&snapshot_file_name(4)));
    assert!(remaining.contains(&snapshot_file_name(3)));
    assert!(!remaining.contains(&snapshot_file_name(2)));
    assert!(!remaining.contains(&snapshot_file_name(1)));
}


#[test]
fn retaining_nothing_is_refused() {
    // given a store that is to keep no snapshot
    let result = SnapshotStore::open(config(String::from("/store"), 0), CrashVfs::new());
    // then RetainZero
    assert!(matches!(result, Err(StoreError::RetainZero)));
}

#[test]
fn a_failed_commit_poisons_the_store() {
    // given a filesystem whose first write of a commit fails
    let dir = String::from("/store");
    let (store, _) = SnapshotStore::open(config(dir.clone(), 1), CrashVfs::new()).unwrap();
    let opening = store.into_vfs().op_count();
    let vfs = CrashVfs::with_crash_budget(opening, 0);
    let (mut store, _) = SnapshotStore::open(config(dir, 1), vfs).unwrap();
    // when two commits are tried
    let first = store.commit(b"first", None);
    let second = store.commit(b"second", None);
    // then the first reports the fault and the second is refused
    assert_eq!(first, Err(StoreError::Io(Fault::of(FaultKind::Other))));
    assert_eq!(second, Err(StoreError::Poisoned));
}

#[test]
fn snapshot_names_carry_the_id() {
    assert_eq!(snapshot_file_name(255), "snap-255.bin");
    assert_eq!(snapshot_id_from_name(&snapshot_file_name(255)), Some(255));
    assert_eq!(snapshot_id_from_name(&String::from("snap.tmp")), None);
}

#[test]
fn a_first_commit_fills_up_a_short_manifest() {
    // given a manifest that a crash in the first open cut short
    let dir = String::from("/store");
    let mut vfs = CrashVfs::new();
    vfs.create_dir_all(&dir).unwrap();
    vfs.write(&dir, MANIFEST_FILE, &[0u8; 10]).unwrap();
    vfs.fsync_file(&dir, MANIFEST_FILE).unwrap();
    vfs.fsync_dir(&dir).unwrap();
    let (mut store, recovered) = SnapshotStore::open(config(dir.clone(), 1), vfs).unwrap();
    assert!(recovered.is_none());
    // when a snapshot is committed and the filesystem crashes
    store.commit(b"first", Some(Position::new(1, 0))).unwrap();
    let mut vfs = store.into_vfs();
    vfs.crash();
    // then it is recovered
    let (store, recovered) = SnapshotStore::open(config(dir, 1), vfs).unwrap();
    assert_eq!(recovered.unwrap().snapshot.as_slice(), b"first".as_slice());
    assert_eq!(store.durable_cursor(), Some(Position::new(1, 0)));
}

#[test]
fn a_store_error_says_what_the_filesystem_said() {
    let fault = Fault {
        kind: FaultKind::ReadOnlyFilesystem,
        message: String::from("Read-only file system (os error 30)"),
    };
    assert_eq!(
        StoreError::Io(fault).describe(),
        "snapshot store io error: Read-only file system (os error 30)"
    );
    assert_eq!(
        Fault::of(FaultKind::CrossesDevices).describe(),
        "cross-device link or rename"
    );
}

/// A directory with snapshots 1 to 4 and a manifest of the given slots.
fn directory(dir: &str, left: Option<SlotRecord>, right: Option<SlotRecord>) -> CrashVfs {
    let mut vfs = CrashVfs::new();
    vfs.create_dir_all(dir).unwrap();
    for id in 1..=4u64 {
        let name = snapshot_file_name(id);
        vfs.write(dir, &name, format!("snap-{id}").as_bytes()).unwrap();
        vfs.fsync_file(dir, &name).unwrap();
    }
    let mut manifest = vec![0u8; MANIFEST_SIZE];
    if let Some(record) = left {
        manifest[..SLOT_SIZE].copy_from_slice(&encode_slot(&record));
    }
    if let Some(record) = right {
        manifest[SLOT_STRIDE..SLOT_STRIDE + SLOT_SIZE].copy_from_slice(&encode_slot(&record));
    }
    vfs.write(dir, MANIFEST_FILE, &manifest).unwrap();
    vfs.fsync_file(dir, MANIFEST_FILE).unwrap();
    vfs.fsync_dir(dir).unwrap();
    vfs
}

#[test]
fn a_commit_is_recovered_whatever_slots_were_there() {
    let record = |version: u64, snapshot_id: u64| SlotRecord {
        version,
        cursor: Some(Position::new(version, 0)),
        snapshot_id,
    };
    let pairs = [
        (Some(record(1, 4)), None),
        (None, Some(record(7, 2))),
        (Some(record(3, 1)), Some(record(3, 2))),
        (Some(record(1, 2)), Some(record(2, 3))),
        (None, None),
    ];
    for (left, right) in pairs {
        // given a directory that holds these slots
        let dir = String::from("/store");
        let vfs = directory(&dir, left, right);
        let (mut store, _) = SnapshotStore::open(config(dir.clone(), 1), vfs).unwrap();
        // when a snapshot is committed
        store.commit(b"new", Some(Position::new(9, 0))).unwrap();
        // then an open recovers it
        let (store, recovered) =
            SnapshotStore::open(config(dir, 1), store.into_vfs()).unwrap();
        let recovered = recovered.unwrap();
        assert_eq!(recovered.snapshot.as_slice(), b"new".as_slice());
        assert_eq!(recovered.cursor, Some(Position::new(9, 0)));
        assert_eq!(store.durable_cursor(), Some(Position::new(9, 0)));
    }
}

#[test]
fn a_torn_first_slot_is_refused_as_corrupt() {
    // given a manifest whose only slot was torn
    let dir = String::from("/store");
    let mut vfs = directory(&dir, None, None);
    let record = SlotRecord {
        version: 1,
        cursor: Some(Position::new(1, 0)),
        snapshot_id: 1,
    };
    let slot = encode_slot(&record);
    vfs.write_at(&dir, MANIFEST_FILE, SLOT_STRIDE as u64, &slot[..20])
        .unwrap();
    // when opened
    let result = SnapshotStore::open(config(dir, 1), vfs);
    // then CorruptManifest
    assert!(matches!(result, Err(StoreError::CorruptManifest)));
}
