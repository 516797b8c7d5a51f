//! What a crash may leave of a commit, and what an open makes of it.
use vstd::prelude::*;

use crate::checksum;
use crate::position::Position;
use crate::storage::manifest;
use crate::storage::manifest::{SlotRecord, SLOT_SIZE, SLOT_STRIDE};
use crate::storage::store;
use crate::storage::store::{
    Opening, SlotPair, StoreError, StoreState, MANIFEST_FILE, TEMP_FILE,
};
use crate::storage::vfs::{Exchange, VfsCall, VfsReply};

verus! {

/// One name of a directory on a disk that loses what was not synced.
pub struct FileState {
    /// What a read sees; None when there is no such file.
    pub now: Option<Seq<u8>>,
    /// The contents the file may have after a crash.
    pub data: Set<Seq<u8>>,
    /// What else the name may show after a crash, while its latest change is not durable.
    pub bound: Set<Option<Seq<u8>>>,
}

/// A directory on such a disk; names outside the map are absent for good.
pub type Disk = Map<Seq<char>, FileState>;

/// A name without a file.
pub open spec fn absent() -> FileState {
    FileState { now: None, data: Set::empty(), bound: Set::empty() }
}

/// The state of a name.
pub open spec fn file(disk: Disk, name: Seq<char>) -> FileState {
    if disk.dom().contains(name) {
        disk[name]
    } else {
        absent()
    }
}

/// What a crash may leave under a name.
pub open spec fn may_leave(state: FileState, left: Option<Seq<u8>>) -> bool {
    ||| state.bound.contains(left)
    ||| match state.now {
        Some(_) => left matches Some(bytes) && state.data.contains(bytes),
        None => left is None,
    }
}

/// Everything a crash may leave under a name.
pub open spec fn leavings(state: FileState) -> Set<Option<Seq<u8>>> {
    Set::new(|left: Option<Seq<u8>>| may_leave(state, left))
}

/// Bytes with a run of them replaced; what lies short of the run is filled up with zeros.
pub open spec fn patched(whole: Seq<u8>, offset: int, bytes: Seq<u8>) -> Seq<u8> {
    let end = offset + bytes.len();
    Seq::new(
        (if whole.len() < end {
            end
        } else {
            whole.len() as int
        }) as nat,
        |i: int|
            if offset <= i < end {
                bytes[i - offset]
            } else if i < whole.len() {
                whole[i]
            } else {
                0
            },
    )
}

/// True for what a crash may leave of contents that a run of bytes was written to: the bytes
/// that were there before, outside the run, and more of them at most up to its end.
pub open spec fn torn(left: Seq<u8>, whole: Seq<u8>, offset: int, len: int) -> bool {
    &&& whole.len() <= left.len()
    &&& left.len() <= whole.len() || left.len() <= offset + len
    &&& forall|i: int|
        0 <= i < whole.len() && !(offset <= i < offset + len) ==> #[trigger] left[i] == whole[i]
}

/// What an operation does to the disk: a rewritten file may hold anything until it is synced,
/// an overwritten run of bytes may be torn, and name changes last once the directory is synced.
pub open spec fn stepped(disk: Disk, call: VfsCall) -> Disk {
    match call {
        VfsCall::Write { name, bytes, .. } => {
            let before = file(disk, name);
            disk.insert(
                name,
                FileState {
                    now: Some(bytes),
                    data: Set::full(),
                    bound: if before.now is None {
                        leavings(before)
                    } else {
                        before.bound
                    },
                },
            )
        },
        VfsCall::WriteAt { name, offset, bytes, .. } => {
            let before = file(disk, name);
            disk.insert(
                name,
                FileState {
                    now: Some(patched(before.now->0, offset as int, bytes)),
                    data: Set::new(
                        |left: Seq<u8>|
                            exists|kept: Seq<u8>| #[trigger]
                                before.data.contains(kept) && torn(
                                    left,
                                    kept,
                                    offset as int,
                                    bytes.len() as int,
                                ),
                    ),
                    bound: before.bound,
                },
            )
        },
        VfsCall::SyncFile { name, .. } => {
            let before = file(disk, name);
            disk.insert(
                name,
                FileState {
                    data: match before.now {
                        Some(bytes) => set![bytes],
                        None => before.data,
                    },
                    ..before
                },
            )
        },
        VfsCall::Rename { from, to, .. } => {
            let source = file(disk, from);
            let target = file(disk, to);
            disk.insert(
                to,
                FileState { now: source.now, data: source.data, bound: leavings(target) },
            ).insert(
                from,
                FileState { now: None, data: Set::empty(), bound: leavings(source) },
            )
        },
        VfsCall::Remove { name, .. } => disk.insert(
            name,
            FileState { now: None, data: Set::empty(), bound: leavings(file(disk, name)) },
        ),
        VfsCall::SyncDir { .. } => disk.map_values(
            |state: FileState| FileState { bound: Set::empty(), ..state },
        ),
        _ => disk,
    }
}

/// The disk after operations in order.
pub open spec fn ran(disk: Disk, calls: Seq<VfsCall>) -> Disk
    decreases calls.len(),
{
    if calls.len() == 0 {
        disk
    } else {
        stepped(ran(disk, calls.drop_last()), calls.last())
    }
}

/// The contents of a name after a crash.
pub open spec fn left_under(files: Map<Seq<char>, Seq<u8>>, name: Seq<char>) -> Option<Seq<u8>> {
    if files.dom().contains(name) {
        Some(files[name])
    } else {
        None
    }
}

/// True when a crash may leave exactly these files.
pub open spec fn survives(disk: Disk, files: Map<Seq<char>, Seq<u8>>) -> bool {
    forall|name: Seq<char>| may_leave(file(disk, name), #[trigger] left_under(files, name))
}

/// How an open of these files goes.
pub open spec fn opens(files: Map<Seq<char>, Seq<u8>>) -> Opening {
    match left_under(files, MANIFEST_FILE@) {
        None => Opening::Ready { slots: SlotPair { left: None, right: None }, snapshot: None },
        Some(bytes) => match store::slots_in(bytes) {
            None => Opening::Failed(StoreError::CorruptManifest),
            Some(slots) => match slots.slot(store::active_of(slots)) {
                None => Opening::Ready { slots, snapshot: None },
                Some(record) => match left_under(
                    files,
                    store::snapshot_name(record.snapshot_id),
                ) {
                    None => Opening::Failed(
                        StoreError::MissingSnapshot { id: record.snapshot_id },
                    ),
                    Some(snapshot) => Opening::Ready {
                        slots,
                        snapshot: Some((snapshot, record.cursor)),
                    },
                },
            },
        },
    }
}

/// The snapshot and cursor that an open of these files recovers; None when it recovers
/// nothing or fails.
pub open spec fn recovers(files: Map<Seq<char>, Seq<u8>>) -> Option<
    (Seq<u8>, Option<Position>),
> {
    match opens(files) {
        Opening::Ready { snapshot, .. } => snapshot,
        Opening::Failed(_) => None,
    }
}

/// A directory right after a crash: every file in it is durable.
pub open spec fn on_disk(files: Map<Seq<char>, Seq<u8>>) -> Disk {
    files.map_values(
        |bytes: Seq<u8>|
            FileState { now: Some(bytes), data: set![bytes], bound: Set::empty() },
    )
}

/// A filesystem that holds these files answers an open without faults of its own.
pub open spec fn answered_from<V>(
    log: Seq<Exchange<V>>,
    files: Map<Seq<char>, Seq<u8>>,
) -> bool {
    forall|i: int|
        0 <= i < log.len() ==> match (#[trigger] log[i]).call {
            VfsCall::Read { name, .. } => match left_under(files, name) {
                Some(bytes) => log[i].reply == VfsReply::Bytes(bytes),
                None => log[i].reply matches VfsReply::Fault(fault) && fault.is_absence(),
            },
            VfsCall::Remove { .. } => store::gone(log[i].reply),
            _ => !(log[i].reply is Fault),
        }
}

/// The operations of a log.
pub open spec fn calls_of<V>(log: Seq<Exchange<V>>) -> Seq<VfsCall> {
    log.map_values(|exchange: Exchange<V>| exchange.call)
}

/// A file that a crash leaves as it is.
pub open spec fn settled(state: FileState, bytes: Seq<u8>) -> bool {
    &&& state.now == Some(bytes)
    &&& state.data == set![bytes]
    &&& state.bound == Set::<Option<Seq<u8>>>::empty()
}

/// The disk durably holds the manifest with these slots, and the snapshot of the serving one,
/// under another name than the next commit writes to.
pub open spec fn serves(
    disk: Disk,
    manifest_bytes: Seq<u8>,
    state: StoreState,
    record: SlotRecord,
    snapshot: Seq<u8>,
) -> bool {
    &&& store::slots_in(manifest_bytes) == Some(state.slots)
    &&& 0 <= state.active <= 1
    &&& state.active == store::active_of(state.slots)
    &&& state.slots.slot(state.active) == Some(record)
    &&& record.snapshot_id != record.version + 1
    &&& settled(file(disk, MANIFEST_FILE@), manifest_bytes)
    &&& settled(file(disk, store::snapshot_name(record.snapshot_id)), snapshot)
}

/// A slot write that a crash cut short leaves the slot as it was, as it should be, or in bytes
/// that fail the checksum.
pub open spec fn torn_slot_shows(
    files: Map<Seq<char>, Seq<u8>>,
    state: StoreState,
    record: SlotRecord,
) -> bool {
    left_under(files, MANIFEST_FILE@) matches Some(bytes) ==> {
        let shown = store::slot_at(bytes, (1 - state.active) * SLOT_STRIDE);
        shown is None || shown == state.slots.slot(1 - state.active) || shown == Some(record)
    }
}

/// The names of a store are told apart.
proof fn lemma_names(a: u64, b: u64)
    ensures
        TEMP_FILE@ != MANIFEST_FILE@,
        TEMP_FILE@ != store::snapshot_name(a),
        MANIFEST_FILE@ != store::snapshot_name(a),
        a != b ==> store::snapshot_name(a) != store::snapshot_name(b),
{
    reveal_strlit("snap.tmp");
    reveal_strlit("manifest");
    reveal_strlit("snap-");
    reveal_strlit(".bin");
    assert(TEMP_FILE@[4] == '.');
    assert(store::snapshot_name(a)[4] == '-');
    assert(MANIFEST_FILE@[0] == 'm');
    assert(TEMP_FILE@[0] == 's');
    assert(store::snapshot_name(a)[0] == 's');
    if store::snapshot_name(a) == store::snapshot_name(b) {
        store::law_snapshot_names_differ(a, b);
    }
}

/// Replacing bytes of one slot leaves the other slot as it is.
proof fn lemma_other_slot(left: Seq<u8>, whole: Seq<u8>, index: int)
    requires
        0 <= index <= 1,
        torn(left, whole, index * SLOT_STRIDE, SLOT_SIZE as int),
        store::slot_at(whole, (1 - index) * SLOT_STRIDE) is Some,
    ensures
        store::slot_at(left, (1 - index) * SLOT_STRIDE) == store::slot_at(
            whole,
            (1 - index) * SLOT_STRIDE,
        ),
{
    let offset = (1 - index) * SLOT_STRIDE;
    assert(left.subrange(offset, offset + SLOT_SIZE) =~= whole.subrange(
        offset,
        offset + SLOT_SIZE,
    ));
}

/// A slot shows what was written to it.
proof fn lemma_written_slot(whole: Seq<u8>, index: int, record: SlotRecord)
    requires
        0 <= index <= 1,
    ensures
        ({
            let crc = checksum::crc32c_of(manifest::slot_body(record));
            let after = patched(
                whole,
                index * SLOT_STRIDE,
                manifest::slot_bytes(record, crc),
            );
            &&& store::slot_at(after, index * SLOT_STRIDE) == Some(record)
            &&& torn(after, whole, index * SLOT_STRIDE, SLOT_SIZE as int)
        }),
{
    let crc = checksum::crc32c_of(manifest::slot_body(record));
    let bytes = manifest::slot_bytes(record, crc);
    let offset = index * SLOT_STRIDE;
    let after = patched(whole, offset, bytes);
    manifest::lemma_slot_lengths(record, crc);
    manifest::law_slot_round_trips(record, crc);
    assert(after.subrange(offset, offset + SLOT_SIZE) =~= bytes);
}

/// What recovery makes of a manifest whose serving slot is intact, for each state of the other
/// slot.
proof fn lemma_recovers(
    files: Map<Seq<char>, Seq<u8>>,
    bytes: Seq<u8>,
    index: int,
    record: SlotRecord,
    newer: SlotRecord,
    older: Option<SlotRecord>,
)
    requires
        left_under(files, MANIFEST_FILE@) == Some(bytes),
        0 <= index <= 1,
        store::slot_at(bytes, index * SLOT_STRIDE) == Some(record),
        newer.version > record.version,
        older matches Some(other) ==> other.version < record.version || (index == 0
            && other.version == record.version),
    ensures
        ({
            let shown = store::slot_at(bytes, (1 - index) * SLOT_STRIDE);
            let serving = if shown == Some(newer) {
                newer
            } else {
                record
            };
            (shown is None || shown == older || shown == Some(newer)) ==> recovers(files) == (
            match left_under(files, store::snapshot_name(serving.snapshot_id)) {
                None => None,
                Some(snapshot) => Some((snapshot, serving.cursor)),
            })
        }),
{
    assert(0 * SLOT_STRIDE == 0);
    assert(1 * SLOT_STRIDE == SLOT_STRIDE);
}

/// The disk after each operation of a commit, name by name.
proof fn lemma_commit_steps(
    disk: Disk,
    state: StoreState,
    bytes: Seq<u8>,
    record: SlotRecord,
    old_snapshot: Seq<u8>,
    snapshot: Seq<u8>,
    cursor: Option<Position>,
)
    requires
        serves(disk, bytes, state, record, old_snapshot),
        store::version_of(state) < u64::MAX,
    ensures
        ({
            let next = store::next_record(state, cursor);
            let calls = store::commit_calls(state.dir, snapshot, next, 1 - state.active);
            let crc = checksum::crc32c_of(manifest::slot_body(next));
            let offset = (1 - state.active) * SLOT_STRIDE;
            let slot = manifest::slot_bytes(next, crc);
            &&& calls.len() == 6
            &&& forall|k: int|
                0 <= k <= 6 ==> settled(
                    file(
                        #[trigger] ran(disk, calls.take(k)),
                        store::snapshot_name(record.snapshot_id),
                    ),
                    old_snapshot,
                )
            &&& forall|k: int|
                0 <= k <= 4 ==> settled(
                    file(#[trigger] ran(disk, calls.take(k)), MANIFEST_FILE@),
                    bytes,
                )
            &&& forall|k: int|
                4 <= k <= 6 ==> settled(
                    file(
                        #[trigger] ran(disk, calls.take(k)),
                        store::snapshot_name(next.snapshot_id),
                    ),
                    snapshot,
                )
            &&& forall|left: Option<Seq<u8>>| #[trigger]
                may_leave(file(ran(disk, calls.take(5)), MANIFEST_FILE@), left) ==> (
                left matches Some(shown) && torn(
                    shown,
                    bytes,
                    offset,
                    slot.len() as int,
                ))
            &&& settled(
                file(ran(disk, calls.take(6)), MANIFEST_FILE@),
                patched(bytes, offset, slot),
            )
        }),
{
    let next = store::next_record(state, cursor);
    let older = 1 - state.active;
    let calls = store::commit_calls(state.dir, snapshot, next, older);
    let crc = checksum::crc32c_of(manifest::slot_body(next));
    let slot = manifest::slot_bytes(next, crc);
    lemma_names(record.snapshot_id, next.snapshot_id);
    lemma_names(next.snapshot_id, record.snapshot_id);
    let d0 = disk;
    let d1 = stepped(d0, calls[0]);
    let d2 = stepped(d1, calls[1]);
    let d3 = stepped(d2, calls[2]);
    let d4 = stepped(d3, calls[3]);
    let d5 = stepped(d4, calls[4]);
    let d6 = stepped(d5, calls[5]);
    assert(calls.take(0) =~= Seq::<VfsCall>::empty());
    assert(ran(disk, calls.take(0)) == d0);
    assert(calls.take(1).drop_last() =~= calls.take(0));
    assert(ran(disk, calls.take(1)) == d1);
    assert(calls.take(2).drop_last() =~= calls.take(1));
    assert(ran(disk, calls.take(2)) == d2);
    assert(calls.take(3).drop_last() =~= calls.take(2));
    assert(ran(disk, calls.take(3)) == d3);
    assert(calls.take(4).drop_last() =~= calls.take(3));
    assert(ran(disk, calls.take(4)) == d4);
    assert(calls.take(5).drop_last() =~= calls.take(4));
    assert(ran(disk, calls.take(5)) == d5);
    assert(calls.take(6).drop_last() =~= calls.take(5));
    assert(ran(disk, calls.take(6)) == d6);
    let none = Set::<Option<Seq<u8>>>::empty();
    assert(file(d2, TEMP_FILE@).now == Some(snapshot));
    assert(file(d2, TEMP_FILE@).data == set![snapshot]);
    assert(file(d3, store::snapshot_name(next.snapshot_id)).data == set![snapshot]);
    assert(settled(file(d4, store::snapshot_name(next.snapshot_id)), snapshot));
    assert(settled(file(d4, store::snapshot_name(record.snapshot_id)), old_snapshot));
    assert(settled(file(d4, MANIFEST_FILE@), bytes));
    let offset = older * SLOT_STRIDE;
    assert(file(d5, MANIFEST_FILE@).now == Some(patched(bytes, offset, slot)));
    assert forall|left: Option<Seq<u8>>| #[trigger]
        may_leave(file(d5, MANIFEST_FILE@), left) implies (left matches Some(shown)
        && torn(shown, bytes, offset, slot.len() as int)) by {
    }
    assert(file(d6, MANIFEST_FILE@).bound == none);
    assert forall|k: int| 0 <= k <= 6 implies settled(
        file(#[trigger] ran(disk, calls.take(k)), store::snapshot_name(record.snapshot_id)),
        old_snapshot,
    ) by {
        assert(k == 0 || k == 1 || k == 2 || k == 3 || k == 4 || k == 5 || k == 6);
    }
    assert forall|k: int| 0 <= k <= 4 implies settled(
        file(#[trigger] ran(disk, calls.take(k)), MANIFEST_FILE@),
        bytes,
    ) by {
        assert(k == 0 || k == 1 || k == 2 || k == 3 || k == 4);
    }
    assert forall|k: int| 4 <= k <= 6 implies settled(
        file(#[trigger] ran(disk, calls.take(k)), store::snapshot_name(next.snapshot_id)),
        snapshot,
    ) by {
        assert(k == 4 || k == 5 || k == 6);
    }
}

/// A crash at any point of a commit loses no acknowledged state: before the slot write the
/// prior snapshot and cursor come back; during it the prior ones or the new ones; once the
/// manifest is synced, the new ones.
pub proof fn law_crash_recovers_acknowledged_state(
    disk: Disk,
    state: StoreState,
    manifest_bytes: Seq<u8>,
    record: SlotRecord,
    old_snapshot: Seq<u8>,
    snapshot: Seq<u8>,
    cursor: Option<Position>,
    done: int,
    files: Map<Seq<char>, Seq<u8>>,
)
    requires
        serves(disk, manifest_bytes, state, record, old_snapshot),
        store::version_of(state) < u64::MAX,
        0 <= done <= 6,
        survives(
            ran(
                disk,
                store::commit_calls(
                    state.dir,
                    snapshot,
                    store::next_record(state, cursor),
                    1 - state.active,
                ).take(done),
            ),
            files,
        ),
        done == 5 ==> torn_slot_shows(files, state, store::next_record(state, cursor)),
    ensures
        done <= 4 ==> recovers(files) == Some((old_snapshot, record.cursor)),
        done == 5 ==> recovers(files) == Some((old_snapshot, record.cursor)) || recovers(files)
            == Some((snapshot, cursor)),
        done == 6 ==> recovers(files) == Some((snapshot, cursor)),
{
    let next = store::next_record(state, cursor);
    let older = 1 - state.active;
    let offset = older * SLOT_STRIDE;
    let calls = store::commit_calls(state.dir, snapshot, next, older);
    let crc = checksum::crc32c_of(manifest::slot_body(next));
    let slot = manifest::slot_bytes(next, crc);
    let now = ran(disk, calls.take(done));
    lemma_commit_steps(disk, state, manifest_bytes, record, old_snapshot, snapshot, cursor);
    manifest::lemma_slot_lengths(next, crc);
    assert(0 * SLOT_STRIDE == 0);
    assert(1 * SLOT_STRIDE == SLOT_STRIDE);
    assert(store::slot_at(manifest_bytes, state.active * SLOT_STRIDE) == Some(record));
    let old_name = store::snapshot_name(record.snapshot_id);
    let new_name = store::snapshot_name(next.snapshot_id);
    assert(may_leave(file(now, old_name), left_under(files, old_name)));
    assert(left_under(files, old_name) == Some(old_snapshot));
    assert(may_leave(file(now, MANIFEST_FILE@), left_under(files, MANIFEST_FILE@)));
    let bytes = left_under(files, MANIFEST_FILE@)->0;
    if done >= 4 {
        assert(may_leave(file(now, new_name), left_under(files, new_name)));
        assert(left_under(files, new_name) == Some(snapshot));
    }
    if done <= 4 {
        assert(bytes == manifest_bytes);
    } else if done == 5 {
        lemma_other_slot(bytes, manifest_bytes, older);
    } else {
        assert(bytes == patched(manifest_bytes, offset, slot));
        lemma_written_slot(manifest_bytes, older, next);
        lemma_other_slot(bytes, manifest_bytes, older);
    }
    assert(1 - older == state.active);
    lemma_recovers(files, bytes, state.active, record, next, state.slots.slot(older));
}

/// A store knows its directory: its slots are those that the manifest shows, and a manifest that
/// shows none would show none if it were filled up with zeros.
pub open spec fn knows(disk: Disk, state: StoreState, manifest_bytes: Seq<u8>) -> bool {
    &&& file(disk, MANIFEST_FILE@).now == Some(manifest_bytes)
    &&& store::slots_in(manifest_bytes) == Some(state.slots)
    &&& state.active == store::active_of(state.slots)
    &&& state.slots == (SlotPair { left: None, right: None }) ==> store::slot_at(
        patched(manifest_bytes, SLOT_STRIDE as int, Seq::empty()),
        0,
    ) is None
}

/// A commit that went through leaves a directory that serves it, whatever the store held.
proof fn lemma_commit_serves(
    disk: Disk,
    state: StoreState,
    manifest_bytes: Seq<u8>,
    snapshot: Seq<u8>,
    cursor: Option<Position>,
)
    requires
        knows(disk, state, manifest_bytes),
        store::version_of(state) < u64::MAX,
    ensures
        ({
            let next = store::next_record(state, cursor);
            let calls = store::commit_calls(state.dir, snapshot, next, 1 - state.active);
            let name = store::snapshot_name(next.snapshot_id);
            &&& settled(file(ran(disk, calls.take(5)), name), snapshot)
            &&& exists|bytes: Seq<u8>| #[trigger]
                serves(
                    ran(disk, calls),
                    bytes,
                    store::committed(state, cursor),
                    next,
                    snapshot,
                )
        }),
{
    let next = store::next_record(state, cursor);
    let older = 1 - state.active;
    let calls = store::commit_calls(state.dir, snapshot, next, older);
    let crc = checksum::crc32c_of(manifest::slot_body(next));
    let slot = manifest::slot_bytes(next, crc);
    let blank = manifest_bytes;
    let name = store::snapshot_name(next.snapshot_id);
    lemma_names(next.snapshot_id, next.snapshot_id);
    manifest::lemma_slot_lengths(next, crc);
    assert(0 * SLOT_STRIDE == 0);
    assert(1 * SLOT_STRIDE == SLOT_STRIDE);
    let d1 = stepped(disk, calls[0]);
    let d2 = stepped(d1, calls[1]);
    let d3 = stepped(d2, calls[2]);
    let d4 = stepped(d3, calls[3]);
    let d5 = stepped(d4, calls[4]);
    let d6 = stepped(d5, calls[5]);
    assert(calls.take(0) =~= Seq::<VfsCall>::empty());
    assert(ran(disk, calls.take(0)) == disk);
    assert(calls.take(1).drop_last() =~= calls.take(0));
    assert(ran(disk, calls.take(1)) == d1);
    assert(calls.take(2).drop_last() =~= calls.take(1));
    assert(ran(disk, calls.take(2)) == d2);
    assert(calls.take(3).drop_last() =~= calls.take(2));
    assert(ran(disk, calls.take(3)) == d3);
    assert(calls.take(4).drop_last() =~= calls.take(3));
    assert(ran(disk, calls.take(4)) == d4);
    assert(calls.take(5).drop_last() =~= calls.take(4));
    assert(ran(disk, calls.take(5)) == d5);
    assert(calls.take(6).drop_last() =~= calls.take(5));
    assert(ran(disk, calls.take(6)) == d6);
    assert(file(d2, TEMP_FILE@).now == Some(snapshot));
    assert(file(d2, TEMP_FILE@).data == set![snapshot]);
    assert(file(d3, name).data == set![snapshot]);
    assert(settled(file(d4, name), snapshot));
    assert(settled(file(d5, name), snapshot));
    assert(file(d4, MANIFEST_FILE@).now == Some(blank));
    let bytes = patched(blank, older * SLOT_STRIDE, slot);
    assert(settled(file(d6, MANIFEST_FILE@), bytes));
    lemma_written_slot(blank, older, next);
    if state.slots.slot(state.active) is Some {
        lemma_other_slot(bytes, blank, older);
        assert(1 - older == state.active);
    } else {
        let grown = patched(blank, SLOT_STRIDE as int, Seq::empty());
        assert(bytes.subrange(0, SLOT_SIZE as int) =~= grown.subrange(0, SLOT_SIZE as int));
        assert(store::slot_at(bytes, 0) is None);
    }
    assert(calls.take(6) =~= calls);
    let after = store::committed(state, cursor);
    assert(store::slots_in(bytes) == Some(after.slots));
    assert(serves(ran(disk, calls), bytes, after, next, snapshot));
}

/// A commit that went through leaves a disk that serves the new snapshot, whatever slots the
/// store read before, so that no crash of the next commit loses it.
pub proof fn law_commit_serves_new_snapshot(
    disk: Disk,
    state: StoreState,
    manifest_bytes: Seq<u8>,
    snapshot: Seq<u8>,
    cursor: Option<Position>,
)
    requires
        knows(disk, state, manifest_bytes),
        store::version_of(state) < u64::MAX,
    ensures
        ({
            let next = store::next_record(state, cursor);
            let calls = store::commit_calls(state.dir, snapshot, next, 1 - state.active);
            exists|bytes: Seq<u8>| #[trigger]
                serves(ran(disk, calls), bytes, store::committed(state, cursor), next, snapshot)
        }),
{
    lemma_commit_serves(disk, state, manifest_bytes, snapshot, cursor);
}

/// Opening a directory goes as the files in it say: a store recovers what survived.
pub proof fn law_open_finds_what_survived<V>(
    dir: Seq<char>,
    log: Seq<Exchange<V>>,
    opening: Opening,
    used: int,
    files: Map<Seq<char>, Seq<u8>>,
)
    requires
        store::opened_by(dir, log, opening, used),
        answered_from(log, files),
    ensures
        opening == opens(files),
{
}

/// A disk that serves a snapshot gives it back after a crash.
pub proof fn law_serving_disk_recovers(
    disk: Disk,
    manifest_bytes: Seq<u8>,
    state: StoreState,
    record: SlotRecord,
    snapshot: Seq<u8>,
    files: Map<Seq<char>, Seq<u8>>,
)
    requires
        serves(disk, manifest_bytes, state, record, snapshot),
        survives(disk, files),
    ensures
        opens(files) == (Opening::Ready {
            slots: state.slots,
            snapshot: Some((snapshot, record.cursor)),
        }),
{
    let name = store::snapshot_name(record.snapshot_id);
    assert(may_leave(file(disk, name), left_under(files, name)));
    assert(may_leave(file(disk, MANIFEST_FILE@), left_under(files, MANIFEST_FILE@)));
}

/// A crash at any point of a commit leaves a directory that serves the prior snapshot or the
/// new one, so that a reopened store commits as safely as before, however often it crashes.
pub proof fn law_crash_leaves_a_serving_store(
    disk: Disk,
    state: StoreState,
    manifest_bytes: Seq<u8>,
    record: SlotRecord,
    old_snapshot: Seq<u8>,
    snapshot: Seq<u8>,
    cursor: Option<Position>,
    done: int,
    files: Map<Seq<char>, Seq<u8>>,
    reopened: StoreState,
)
    requires
        serves(disk, manifest_bytes, state, record, old_snapshot),
        store::version_of(state) < u64::MAX,
        0 <= done <= 6,
        survives(
            ran(
                disk,
                store::commit_calls(
                    state.dir,
                    snapshot,
                    store::next_record(state, cursor),
                    1 - state.active,
                ).take(done),
            ),
            files,
        ),
        done == 5 ==> torn_slot_shows(files, state, store::next_record(state, cursor)),
        opens(files) matches Opening::Ready { slots, .. } ==> reopened.slots == slots,
        reopened.active == store::active_of(reopened.slots),
    ensures
        ({
            let bytes = left_under(files, MANIFEST_FILE@)->0;
            let next = store::next_record(state, cursor);
            ||| serves(on_disk(files), bytes, reopened, record, old_snapshot)
            ||| serves(on_disk(files), bytes, reopened, next, snapshot)
        }),
{
    let next = store::next_record(state, cursor);
    let older = 1 - state.active;
    let offset = older * SLOT_STRIDE;
    let calls = store::commit_calls(state.dir, snapshot, next, older);
    let crc = checksum::crc32c_of(manifest::slot_body(next));
    let slot = manifest::slot_bytes(next, crc);
    let now = ran(disk, calls.take(done));
    law_crash_recovers_acknowledged_state(
        disk,
        state,
        manifest_bytes,
        record,
        old_snapshot,
        snapshot,
        cursor,
        done,
        files,
    );
    lemma_commit_steps(disk, state, manifest_bytes, record, old_snapshot, snapshot, cursor);
    manifest::lemma_slot_lengths(next, crc);
    assert(0 * SLOT_STRIDE == 0);
    assert(1 * SLOT_STRIDE == SLOT_STRIDE);
    assert(store::slot_at(manifest_bytes, state.active * SLOT_STRIDE) == Some(record));
    let old_name = store::snapshot_name(record.snapshot_id);
    let new_name = store::snapshot_name(next.snapshot_id);
    assert(may_leave(file(now, old_name), left_under(files, old_name)));
    assert(may_leave(file(now, new_name), left_under(files, new_name)));
    assert(may_leave(file(now, MANIFEST_FILE@), left_under(files, MANIFEST_FILE@)));
    let bytes = left_under(files, MANIFEST_FILE@)->0;
    if done <= 4 {
        assert(bytes == manifest_bytes);
    } else if done == 5 {
        lemma_other_slot(bytes, manifest_bytes, older);
    } else {
        assert(bytes == patched(manifest_bytes, offset, slot));
        lemma_written_slot(manifest_bytes, older, next);
        lemma_other_slot(bytes, manifest_bytes, older);
    }
    assert(1 - older == state.active);
    assert(store::slot_at(bytes, state.active * SLOT_STRIDE) == Some(record));
    assert(settled(file(on_disk(files), MANIFEST_FILE@), bytes));
    assert(settled(file(on_disk(files), old_name), old_snapshot));
    if store::slot_at(bytes, older * SLOT_STRIDE) == Some(next) && done >= 5 {
        assert(settled(file(on_disk(files), new_name), snapshot));
        assert(serves(on_disk(files), bytes, reopened, next, snapshot));
    } else {
        assert(serves(on_disk(files), bytes, reopened, record, old_snapshot));
    }
}

/// An operation that touches neither the manifest nor a snapshot that a slot points at.
pub open spec fn harmless(call: VfsCall, slots: SlotPair) -> bool {
    match call {
        VfsCall::Remove { name, .. } => name == TEMP_FILE@ || exists|id: u64|
            name == #[trigger] store::snapshot_name(id) && !slots.references(id),
        VfsCall::Write { .. } => false,
        VfsCall::WriteAt { .. } => false,
        VfsCall::Rename { .. } => false,
        _ => true,
    }
}

/// Harmless operations keep a disk serving.
proof fn lemma_harmless(
    disk: Disk,
    manifest_bytes: Seq<u8>,
    state: StoreState,
    record: SlotRecord,
    snapshot: Seq<u8>,
    calls: Seq<VfsCall>,
)
    requires
        serves(disk, manifest_bytes, state, record, snapshot),
        forall|i: int| 0 <= i < calls.len() ==> harmless(#[trigger] calls[i], state.slots),
    ensures
        serves(ran(disk, calls), manifest_bytes, state, record, snapshot),
    decreases calls.len(),
{
    if calls.len() > 0 {
        let rest = calls.drop_last();
        assert forall|i: int| 0 <= i < rest.len() implies harmless(
            #[trigger] rest[i],
            state.slots,
        ) by {
            assert(rest[i] == calls[i]);
        }
        lemma_harmless(disk, manifest_bytes, state, record, snapshot, rest);
        let before = ran(disk, rest);
        let call = calls.last();
        let after = stepped(before, call);
        assert(harmless(call, state.slots));
        lemma_names(record.snapshot_id, record.snapshot_id);
        assert(state.slots.references(record.snapshot_id));
        match call {
            VfsCall::Remove { name, .. } => {
                if name != TEMP_FILE@ {
                    let id = choose|id: u64|
                        name == #[trigger] store::snapshot_name(id) && !state.slots.references(
                            id,
                        );
                    lemma_names(id, record.snapshot_id);
                }
            },
            VfsCall::SyncDir { .. } => {},
            VfsCall::SyncFile { .. } => {},
            _ => {},
        }
        assert(settled(file(after, MANIFEST_FILE@), manifest_bytes));
        assert(settled(
            file(after, store::snapshot_name(record.snapshot_id)),
            snapshot,
        ));
    }
}

/// Pruning, whole or cut short by a crash, keeps the serving snapshot.
pub proof fn law_pruning_keeps_serving<V>(
    disk: Disk,
    manifest_bytes: Seq<u8>,
    state: StoreState,
    record: SlotRecord,
    snapshot: Seq<u8>,
    log: Seq<Exchange<V>>,
    done: int,
)
    requires
        serves(disk, manifest_bytes, state, record, snapshot),
        store::pruned_by(state.dir, state.slots, state.retain, log),
        0 <= done <= log.len(),
    ensures
        serves(ran(disk, calls_of(log).take(done)), manifest_bytes, state, record, snapshot),
{
    let calls = calls_of(log).take(done);
    assert forall|i: int| 0 <= i < calls.len() implies harmless(
        #[trigger] calls[i],
        state.slots,
    ) by {
        assert(calls[i] == log[i].call);
        if i > 0 {
            let names = log[0].reply->Names_0;
            let ids = store::doomed(names, state.slots, state.retain);
            store::law_pruning_spares_referenced(names, state.slots, state.retain);
            let rest = log.skip(1);
            assert(rest[i - 1] == log[i]);
            if i - 1 < ids.len() {
                assert(!state.slots.references(ids[i - 1]));
            }
        }
    }
    lemma_harmless(disk, manifest_bytes, state, record, snapshot, calls);
}

/// Opening a directory that serves a snapshot keeps it serving, so opening again without a
/// commit in between recovers the same state.
pub proof fn law_opening_keeps_serving<V>(
    disk: Disk,
    manifest_bytes: Seq<u8>,
    state: StoreState,
    record: SlotRecord,
    snapshot: Seq<u8>,
    files: Map<Seq<char>, Seq<u8>>,
    log: Seq<Exchange<V>>,
    opening: Opening,
    used: int,
    done: int,
)
    requires
        serves(disk, manifest_bytes, state, record, snapshot),
        survives(disk, files),
        store::opened_by(state.dir, log, opening, used),
        answered_from(log, files),
        0 <= done <= used,
    ensures
        serves(ran(disk, calls_of(log).take(done)), manifest_bytes, state, record, snapshot),
{
    law_serving_disk_recovers(disk, manifest_bytes, state, record, snapshot, files);
    assert(may_leave(file(disk, MANIFEST_FILE@), left_under(files, MANIFEST_FILE@)));
    let name = store::snapshot_name(record.snapshot_id);
    assert(may_leave(file(disk, name), left_under(files, name)));
    let calls = calls_of(log).take(done);
    assert forall|i: int| 0 <= i < calls.len() implies harmless(
        #[trigger] calls[i],
        state.slots,
    ) by {
        assert(calls[i] == log[i].call);
        assert(0 <= i < log.len());
    }
    lemma_harmless(disk, manifest_bytes, state, record, snapshot, calls);
}

/// A blank manifest that was not synced is absent after a crash, cut short or zero.
pub open spec fn blank_shows(files: Map<Seq<char>, Seq<u8>>) -> bool {
    left_under(files, MANIFEST_FILE@) matches Some(bytes) ==> {
        &&& store::slot_at(bytes, 0) is None
        &&& store::slot_at(bytes, SLOT_STRIDE as int) is None
        &&& store::uninitialized(bytes)
    }
}

/// A crash in the first slot write leaves no manifest, the slot as it should be, or in bytes
/// that fail the checksum.
pub open spec fn torn_first_slot_shows(
    files: Map<Seq<char>, Seq<u8>>,
    written: SlotRecord,
) -> bool {
    left_under(files, MANIFEST_FILE@) matches Some(bytes) ==> {
        let shown = store::slot_at(bytes, SLOT_STRIDE as int);
        &&& store::slot_at(bytes, 0) is None
        &&& shown is None || shown == Some(written)
    }
}

/// A manifest that was written to and shows no slot.
pub open spec fn corrupted(files: Map<Seq<char>, Seq<u8>>) -> bool {
    &&& left_under(files, MANIFEST_FILE@) matches Some(bytes)
    &&& store::slot_at(bytes, 0) is None
    &&& store::slot_at(bytes, SLOT_STRIDE as int) is None
    &&& !store::uninitialized(bytes)
}

/// What a crash during the first commit leaves, when no earlier slot can stand in. Before the
/// slot write the directory opens with nothing to recover. During it the directory opens with
/// nothing or with the new snapshot, unless the slot was torn so that its checksum fails and
/// the manifest is not blank any more: then it is refused as corrupt. Once the manifest is
/// synced, the directory opens with the new snapshot and serves it.
pub proof fn law_crash_in_the_first_commit(
    disk: Disk,
    state: StoreState,
    manifest_bytes: Seq<u8>,
    snapshot: Seq<u8>,
    cursor: Option<Position>,
    done: int,
    files: Map<Seq<char>, Seq<u8>>,
)
    requires
        knows(disk, state, manifest_bytes),
        state.slots == (SlotPair { left: None, right: None }),
        0 <= done <= 6,
        survives(
            ran(
                disk,
                store::commit_calls(
                    state.dir,
                    snapshot,
                    store::next_record(state, cursor),
                    1 - state.active,
                ).take(done),
            ),
            files,
        ),
        done <= 4 ==> blank_shows(files),
        done == 5 ==> torn_first_slot_shows(files, store::next_record(state, cursor)),
    ensures
        done <= 4 ==> opens(files) is Ready && recovers(files) is None,
        done == 5 && corrupted(files) ==> opens(files) == Opening::Failed(
            StoreError::CorruptManifest,
        ),
        done == 5 && !corrupted(files) ==> opens(files) is Ready && (recovers(files) is None
            || recovers(files) == Some((snapshot, cursor))),
        done == 6 ==> opens(files) is Ready && recovers(files) == Some((snapshot, cursor)),
        done == 6 ==> exists|bytes: Seq<u8>| #[trigger]
            serves(
                ran(
                    disk,
                    store::commit_calls(
                        state.dir,
                        snapshot,
                        store::next_record(state, cursor),
                        1 - state.active,
                    ).take(done),
                ),
                bytes,
                store::committed(state, cursor),
                store::next_record(state, cursor),
                snapshot,
            ),
{
    let next = store::next_record(state, cursor);
    let calls = store::commit_calls(state.dir, snapshot, next, 1);
    let now = ran(disk, calls.take(done));
    let name = store::snapshot_name(next.snapshot_id);
    assert(may_leave(file(now, name), left_under(files, name)));
    assert(may_leave(file(now, MANIFEST_FILE@), left_under(files, MANIFEST_FILE@)));
    if done >= 5 {
        lemma_commit_serves(disk, state, manifest_bytes, snapshot, cursor);
        assert(calls.take(6) =~= calls);
        if done == 6 {
            let bytes = choose|bytes: Seq<u8>| #[trigger]
                serves(now, bytes, store::committed(state, cursor), next, snapshot);
            law_serving_disk_recovers(
                now,
                bytes,
                store::committed(state, cursor),
                next,
                snapshot,
                files,
            );
        }
    }
}

/// True for the files that a directory shows while nothing crashes.
pub open spec fn shows(disk: Disk, files: Map<Seq<char>, Seq<u8>>) -> bool {
    forall|name: Seq<char>| #[trigger] left_under(files, name) == file(disk, name).now
}

/// Running one list of operations and then another is running both.
proof fn lemma_ran_on(disk: Disk, first: Seq<VfsCall>, more: Seq<VfsCall>)
    ensures
        ran(ran(disk, first), more) == ran(disk, first + more),
    decreases more.len(),
{
    if more.len() == 0 {
        assert(first + more =~= first);
    } else {
        assert((first + more).drop_last() =~= first + more.drop_last());
        lemma_ran_on(disk, first, more.drop_last());
    }
}

/// What was committed is what an open recovers. After a commit that returned without an error,
/// whatever slots the store had read before, an open of the same directory gives back the
/// snapshot and the cursor of that commit, and reads the slots that the store had.
pub proof fn law_open_recovers_the_last_commit<V, W>(
    disk: Disk,
    state: StoreState,
    manifest_bytes: Seq<u8>,
    snapshot: Seq<u8>,
    cursor: Option<Position>,
    log: Seq<Exchange<V>>,
    after: StoreState,
    files: Map<Seq<char>, Seq<u8>>,
    reads: Seq<Exchange<W>>,
    opening: Opening,
    used: int,
)
    requires
        knows(disk, state, manifest_bytes),
        store::version_of(state) < u64::MAX,
        store::committed_by(state, snapshot, cursor, log, after, Ok(())),
        shows(ran(disk, calls_of(log)), files),
        store::opened_by(state.dir, reads, opening, used),
        answered_from(reads, files),
    ensures
        opening == (Opening::Ready { slots: after.slots, snapshot: Some((snapshot, cursor)) }),
{
    let next = store::next_record(state, cursor);
    let calls = store::commit_calls(state.dir, snapshot, next, 1 - state.active);
    let all = calls_of(log);
    let rest = log.skip(6);
    assert(all =~= calls + calls_of(rest));
    lemma_ran_on(disk, calls, calls_of(rest));
    let committed = ran(disk, calls);
    lemma_commit_serves(disk, state, manifest_bytes, snapshot, cursor);
    let bytes = choose|bytes: Seq<u8>| #[trigger]
        serves(committed, bytes, after, next, snapshot);
    law_pruning_keeps_serving(
        committed,
        bytes,
        after,
        next,
        snapshot,
        rest,
        rest.len() as int,
    );
    assert(calls_of(rest).take(rest.len() as int) =~= calls_of(rest));
    let now = ran(disk, all);
    assert(serves(now, bytes, after, next, snapshot));
    assert(left_under(files, MANIFEST_FILE@) == Some(bytes));
    assert(left_under(files, store::snapshot_name(next.snapshot_id)) == Some(snapshot));
    law_open_finds_what_survived(state.dir, reads, opening, used, files);
}

} // verus!
