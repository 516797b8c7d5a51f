//! Durable snapshot home: temp-fsync-rename commits, dual-slot manifest.
use vstd::prelude::*;
use vstd::string::*;

use crate::checksum;
use crate::position::Position;
use crate::storage::manifest;
use crate::storage::manifest::{
    decode_slot, encode_slot, SlotRecord, MANIFEST_SIZE, SLOT_SIZE, SLOT_STRIDE,
};
use crate::storage::vfs;
use crate::storage::vfs::{Exchange, Fault, FaultKind, Vfs, VfsCall, VfsReply};
use crate::text;
use crate::text::{push_decimal, read_digit, Describe};

verus! {

/// Temp file name a commit writes before renaming it into place.
pub const TEMP_FILE: &'static str = "snap.tmp";

/// Manifest file name within a store directory.
pub const MANIFEST_FILE: &'static str = "manifest";

/// The file name of a snapshot.
pub open spec fn snapshot_name(id: u64) -> Seq<char> {
    "snap-"@ + text::decimal(id as nat) + ".bin"@
}

/// Builds the file name for a snapshot with the given id.
pub fn snapshot_file_name(id: u64) -> (name: String)
    ensures
        name@ == snapshot_name(id),
{
    let mut name = String::from_str("snap-");
    push_decimal(&mut name, id);
    name.append(".bin");
    name
}

/// The id of the snapshot that a file name belongs to.
pub open spec fn id_of_name(name: Seq<char>) -> Option<u64> {
    if exists|id: u64| name == #[trigger] snapshot_name(id) {
        Some(choose|id: u64| name == #[trigger] snapshot_name(id))
    } else {
        None
    }
}

/// Where the digits of a snapshot file name stand.
proof fn lemma_snapshot_name(id: u64)
    ensures
        snapshot_name(id).len() == 9 + text::decimal(id as nat).len(),
        snapshot_name(id).subrange(5, snapshot_name(id).len() - 4) == text::decimal(id as nat),
        text::decimal(id as nat).len() > 0,
        text::all_digits(text::decimal(id as nat)),
        text::digits_value(text::decimal(id as nat)) == id,
{
    reveal_strlit("snap-");
    reveal_strlit(".bin");
    text::lemma_decimal(id as nat);
    assert(snapshot_name(id).subrange(5, snapshot_name(id).len() - 4) =~= text::decimal(
        id as nat,
    ));
}

/// File names tell snapshots apart.
pub proof fn law_snapshot_names_differ(a: u64, b: u64)
    requires
        snapshot_name(a) == snapshot_name(b),
    ensures
        a == b,
{
    lemma_snapshot_name(a);
    lemma_snapshot_name(b);
}

/// Recovers a snapshot id from a file name, or None if it doesn't match the pattern.
pub fn snapshot_id_from_name(name: &String) -> (id: Option<u64>)
    ensures
        id == id_of_name(name@),
{
    let text = name.as_str();
    let len = text.unicode_len();
    proof {
        assert forall|id: u64| name@ == #[trigger] snapshot_name(id) implies len >= 10 by {
            lemma_snapshot_name(id);
        }
    }
    if len < 10 {
        return None;
    }
    let mut value: u64 = 0;
    let mut i: usize = 5;
    assert(name@.subrange(5, 5).len() == 0);
    while i < len - 4
        invariant
            5 <= i <= len - 4,
            len == name@.len(),
            text@ == name@,
            value == text::digits_value(name@.subrange(5, i as int)),
        decreases len - i,
    {
        let ghost digits = name@.subrange(5, len - 4);
        let c = text.get_char(i);
        let digit = match read_digit(c) {
            Some(digit) => digit,
            None => {
                proof {
                    assert forall|id: u64| name@ != #[trigger] snapshot_name(id) by {
                        if name@ == snapshot_name(id) {
                            lemma_snapshot_name(id);
                            assert(text::decimal(id as nat)[i - 5] == c);
                        }
                    }
                }
                return None;
            },
        };
        assert(name@.subrange(5, i + 1).drop_last() =~= name@.subrange(5, i as int));
        if value > (u64::MAX - digit) / 10 {
            proof {
                assert(value * 10 + digit > u64::MAX);
                assert forall|id: u64| name@ != #[trigger] snapshot_name(id) by {
                    if name@ == snapshot_name(id) {
                        lemma_snapshot_name(id);
                        text::lemma_leading_digits(digits, i - 4);
                        assert(digits.take(i - 4) =~= name@.subrange(5, i + 1));
                    }
                }
            }
            return None;
        }
        value = value * 10 + digit;
        i += 1;
    }
    proof {
        assert forall|id: u64| name@ == #[trigger] snapshot_name(id) implies id == value by {
            lemma_snapshot_name(id);
        }
    }
    let canonical = snapshot_file_name(value);
    if canonical == *name {
        Some(value)
    } else {
        None
    }
}

/// Failure opening or committing to a snapshot store.
#[derive(Debug, Clone, PartialEq, Eq)]
pub enum StoreError {
    /// Filesystem operation failed.
    Io(Fault),
    /// Manifest holds written bytes but neither slot passes its checksum.
    CorruptManifest,
    /// Manifest points at a snapshot file that is absent.
    MissingSnapshot {
        /// Snapshot id the manifest names.
        id: u64,
    },
    /// Configured retain count keeps no snapshot.
    RetainZero,
    /// A prior commit failed, so this store refuses further commits.
    Poisoned,
}

impl Describe for StoreError {
    open spec fn text(&self) -> Seq<char> {
        match self {
            StoreError::Io(fault) => "snapshot store io error: "@ + fault.text(),
            StoreError::CorruptManifest => "manifest exists but neither slot passes its checksum"@,
            StoreError::MissingSnapshot { id } => "manifest points at missing snapshot "@
                + text::decimal(*id as nat),
            StoreError::RetainZero => "retain must keep at least one snapshot"@,
            StoreError::Poisoned => "store refuses commits after an earlier commit failed"@,
        }
    }

    fn describe(&self) -> (text: String) {
        match self {
            StoreError::Io(fault) => {
                let mut out = String::from_str("snapshot store io error: ");
                out.append(fault.describe().as_str());
                out
            },
            StoreError::CorruptManifest => String::from_str(
                "manifest exists but neither slot passes its checksum",
            ),
            StoreError::MissingSnapshot { id } => {
                let mut out = String::from_str("manifest points at missing snapshot ");
                push_decimal(&mut out, *id);
                out
            },
            StoreError::RetainZero => String::from_str("retain must keep at least one snapshot"),
            StoreError::Poisoned => String::from_str(
                "store refuses commits after an earlier commit failed",
            ),
        }
    }
}

/// The two slots of a manifest.
#[derive(Debug, Clone, Copy, PartialEq, Eq, Structural)]
pub struct SlotPair {
    /// Slot at the start of the manifest.
    pub left: Option<SlotRecord>,
    /// Slot one stride in.
    pub right: Option<SlotRecord>,
}

impl SlotPair {
    /// The slot at an index.
    pub open spec fn slot(self, index: int) -> Option<SlotRecord> {
        if index == 0 {
            self.left
        } else {
            self.right
        }
    }

    /// The pair with one slot replaced.
    pub open spec fn with(self, index: int, record: SlotRecord) -> SlotPair {
        if index == 0 {
            SlotPair { left: Some(record), right: self.right }
        } else {
            SlotPair { left: self.left, right: Some(record) }
        }
    }

    /// True when a slot points at the snapshot.
    pub open spec fn references(self, id: u64) -> bool {
        (self.left matches Some(record) && record.snapshot_id == id) || (
        self.right matches Some(record) && record.snapshot_id == id)
    }

    /// Reads the slot at an index.
    pub fn at(&self, index: usize) -> (record: Option<SlotRecord>)
        ensures
            record == self.slot(index as int),
    {
        if index == 0 {
            self.left
        } else {
            self.right
        }
    }

    /// Replaces the slot at an index.
    pub fn set(&mut self, index: usize, record: SlotRecord)
        ensures
            *final(self) == old(self).with(index as int, record),
    {
        if index == 0 {
            self.left = Some(record);
        } else {
            self.right = Some(record);
        }
    }

    /// True when a slot points at the snapshot.
    pub fn refers_to(&self, id: u64) -> (yes: bool)
        ensures
            yes == self.references(id),
    {
        (match self.left {
            Some(record) => record.snapshot_id == id,
            None => false,
        }) || (match self.right {
            Some(record) => record.snapshot_id == id,
            None => false,
        })
    }
}

/// The slot with the higher version among those that are valid.
pub open spec fn active_of(slots: SlotPair) -> int {
    match (slots.left, slots.right) {
        (Some(left), Some(right)) => if right.version > left.version {
            1
        } else {
            0
        },
        (None, Some(_)) => 1,
        _ => 0,
    }
}

/// Picks the slot that serves.
pub fn active_slot(slots: &SlotPair) -> (active: usize)
    ensures
        active == active_of(*slots),
        active <= 1,
{
    match (slots.left, slots.right) {
        (Some(left), Some(right)) => if right.version > left.version {
            1
        } else {
            0
        },
        (None, Some(_)) => 1,
        _ => 0,
    }
}

/// True when the manifest carries no slot any commit ever wrote: short or all zero.
pub open spec fn uninitialized(bytes: Seq<u8>) -> bool {
    bytes.len() < 2 * SLOT_SIZE || (forall|i: int| 0 <= i < bytes.len() ==> bytes[i] == 0)
}

/// True when the manifest carries no slot any commit ever wrote: short or all zero.
///
/// An acknowledged commit always leaves one full, checksum-valid slot behind, and slots
/// are only ever overwritten in place, so this shape means the store is still fresh.
pub fn manifest_is_uninitialized(bytes: &[u8]) -> (yes: bool)
    ensures
        yes == uninitialized(bytes@),
{
    if bytes.len() < 2 * SLOT_SIZE {
        return true;
    }
    let mut i: usize = 0;
    while i < bytes.len()
        invariant
            i <= bytes@.len(),
            bytes@.len() >= 2 * SLOT_SIZE,
            forall|j: int| 0 <= j < i ==> bytes@[j] == 0,
        decreases bytes@.len() - i,
    {
        if bytes[i] != 0 {
            return false;
        }
        i += 1;
    }
    true
}

/// The record in one slot's bytes of a manifest, if they hold one.
pub open spec fn slot_at(bytes: Seq<u8>, offset: int) -> Option<SlotRecord> {
    if bytes.len() < offset + SLOT_SIZE {
        None
    } else {
        let slot = bytes.subrange(offset, offset + SLOT_SIZE);
        manifest::slot_in(slot, manifest::slot_crc(slot))
    }
}

/// The slots of a manifest; None when it was written to and neither slot is valid.
pub open spec fn slots_in(bytes: Seq<u8>) -> Option<SlotPair> {
    let left = slot_at(bytes, 0);
    let right = slot_at(bytes, SLOT_STRIDE as int);
    if left is None && right is None && !uninitialized(bytes) {
        None
    } else {
        Some(SlotPair { left, right })
    }
}

/// Decodes the slot at an offset of the manifest.
fn read_slot(bytes: &[u8], offset: usize) -> (record: Option<SlotRecord>)
    requires
        offset <= SLOT_STRIDE,
    ensures
        record == slot_at(bytes@, offset as int),
{
    if bytes.len() < offset + SLOT_SIZE {
        return None;
    }
    decode_slot(vstd::slice::slice_subrange(bytes, offset, offset + SLOT_SIZE))
}

/// Reads both slots of a manifest.
pub fn read_slots(bytes: &[u8]) -> (slots: Option<SlotPair>)
    ensures
        slots == slots_in(bytes@),
{
    let left = read_slot(bytes, 0);
    let right = read_slot(bytes, SLOT_STRIDE);
    if left.is_none() && right.is_none() && !manifest_is_uninitialized(bytes) {
        return None;
    }
    Some(SlotPair { left, right })
}

/// The ids of the snapshots in a listing that no slot points at, in listing order.
pub open spec fn unreferenced(names: Seq<Seq<char>>, slots: SlotPair) -> Seq<u64>
    decreases names.len(),
{
    if names.len() == 0 {
        Seq::empty()
    } else {
        let rest = unreferenced(names.drop_last(), slots);
        match id_of_name(names.last()) {
            Some(id) => if slots.references(id) {
                rest
            } else {
                rest.push(id)
            },
            None => rest,
        }
    }
}

/// True when numbers do not descend.
pub open spec fn sorted(ids: Seq<u64>) -> bool {
    forall|i: int, j: int| 0 <= i <= j < ids.len() ==> ids[i] <= ids[j]
}

/// Inserts an id behind those not above it.
pub open spec fn inserted(ids: Seq<u64>, id: u64) -> Seq<u64>
    decreases ids.len(),
{
    if ids.len() == 0 || ids.last() <= id {
        ids.push(id)
    } else {
        inserted(ids.drop_last(), id).push(ids.last())
    }
}

/// Ids from the smallest to the largest.
pub open spec fn ordered(ids: Seq<u64>) -> Seq<u64>
    decreases ids.len(),
{
    if ids.len() == 0 {
        ids
    } else {
        inserted(ordered(ids.drop_last()), ids.last())
    }
}

/// The unreferenced snapshots to remove: all but the `retain` newest, oldest first.
pub open spec fn doomed(names: Seq<Seq<char>>, slots: SlotPair, retain: usize) -> Seq<u64> {
    let ids = ordered(unreferenced(names, slots));
    if ids.len() <= retain {
        Seq::empty()
    } else {
        ids.take(ids.len() - retain)
    }
}

/// Inserting keeps the order and adds exactly the id.
pub proof fn lemma_inserted(ids: Seq<u64>, id: u64)
    requires
        sorted(ids),
    ensures
        sorted(inserted(ids, id)),
        inserted(ids, id).len() == ids.len() + 1,
        inserted(ids, id).to_multiset() == ids.to_multiset().insert(id),
        ids.len() > 0 && id < ids.last() ==> inserted(ids, id).last() == ids.last(),
        ids.len() == 0 || ids.last() <= id ==> inserted(ids, id).last() == id,
    decreases ids.len(),
{
    broadcast use vstd::seq_lib::group_to_multiset_ensures;

    if ids.len() == 0 || ids.last() <= id {
        let after = ids.push(id);
        assert forall|i: int, j: int| 0 <= i <= j < after.len() implies after[i] <= after[j] by {
            if j == ids.len() && i < j {
                assert(ids[i] <= ids[ids.len() - 1]);
            }
        }
    } else {
        let rest = ids.drop_last();
        let last = ids[ids.len() - 1];
        lemma_inserted(rest, id);
        let shorter = inserted(rest, id);
        let after = inserted(ids, id);
        assert(after == shorter.push(last));
        assert(shorter.last() <= last) by {
            if rest.len() > 0 && id < rest.last() {
                assert(rest.last() == ids[ids.len() - 2]);
            }
        }
        assert forall|i: int, j: int| 0 <= i <= j < after.len() implies after[i] <= after[j] by {
            if j == shorter.len() && i < j {
                assert(shorter[i] <= shorter[shorter.len() - 1]);
            }
        }
        assert(ids =~= rest.push(last));
        assert(after.to_multiset() =~= ids.to_multiset().insert(id));
    }
}

/// Ordering sorts, and neither loses nor adds an id.
pub proof fn lemma_ordered(ids: Seq<u64>)
    ensures
        sorted(ordered(ids)),
        ordered(ids).len() == ids.len(),
        ordered(ids).to_multiset() == ids.to_multiset(),
    decreases ids.len(),
{
    broadcast use vstd::seq_lib::group_to_multiset_ensures;

    if ids.len() > 0 {
        lemma_ordered(ids.drop_last());
        lemma_inserted(ordered(ids.drop_last()), ids.last());
        assert(ids =~= ids.drop_last().push(ids.last()));
    }
}

/// Inserts an id into sorted ids.
fn insert_sorted(ids: &mut Vec<u64>, id: u64)
    ensures
        final(ids)@ == inserted(old(ids)@, id),
{
    let mut at: usize = ids.len();
    let ghost before = ids@;
    assert(before.take(at as int) =~= before);
    assert(before.skip(at as int) =~= Seq::<u64>::empty());
    assert(inserted(before, id) =~= inserted(before.take(at as int), id) + before.skip(at as int));
    while at > 0 && ids[at - 1] > id
        invariant
            at <= before.len(),
            ids@ == before,
            inserted(before, id) == inserted(before.take(at as int), id) + before.skip(at as int),
        decreases at,
    {
        let ghost here = before.take(at as int);
        assert(here.drop_last() =~= before.take(at - 1));
        assert(here.last() == before[at - 1]);
        assert(inserted(here, id) == inserted(here.drop_last(), id).push(before[at - 1]));
        assert(inserted(here, id) + before.skip(at as int) =~= inserted(before.take(at - 1), id)
            + before.skip(at - 1));
        at -= 1;
    }
    ids.insert(at, id);
    assert(inserted(before.take(at as int), id) =~= before.take(at as int).push(id));
    assert(ids@ =~= inserted(before, id));
}

/// Picks the unreferenced snapshots to remove, oldest first, keeping `retain` extras.
pub fn prunable(names: &Vec<String>, slots: &SlotPair, retain: usize) -> (ids: Vec<u64>)
    ensures
        ids@ == doomed(vfs::names_of(names@), *slots, retain),
{
    let ghost listing = vfs::names_of(names@);
    let mut ids: Vec<u64> = Vec::new();
    let mut i: usize = 0;
    while i < names.len()
        invariant
            i <= names@.len(),
            listing == vfs::names_of(names@),
            ids@ == ordered(unreferenced(listing.take(i as int), *slots)),
        decreases names@.len() - i,
    {
        assert(listing.take(i + 1).drop_last() =~= listing.take(i as int));
        assert(listing.take(i + 1).last() == names@[i as int]@);
        let ghost rest = unreferenced(listing.take(i as int), *slots);
        if let Some(id) = snapshot_id_from_name(&names[i]) {
            if !slots.refers_to(id) {
                insert_sorted(&mut ids, id);
                assert(rest.push(id).drop_last() =~= rest);
            }
        }
        i += 1;
    }
    assert(listing.take(i as int) =~= listing);
    if ids.len() <= retain {
        ids.clear();
    } else {
        let keep = ids.len() - retain;
        ids.truncate(keep);
        assert(ids@ =~= doomed(listing, *slots, retain));
    }
    ids
}

/// Pruning never picks a snapshot that a slot points at.
pub proof fn law_pruning_spares_referenced(
    names: Seq<Seq<char>>,
    slots: SlotPair,
    retain: usize,
)
    ensures
        forall|i: int|
            0 <= i < doomed(names, slots, retain).len() ==> !slots.references(
                #[trigger] doomed(names, slots, retain)[i],
            ),
{
    broadcast use vstd::seq_lib::group_to_multiset_ensures;

    let ids = unreferenced(names, slots);
    lemma_unreferenced(names, slots);
    lemma_ordered(ids);
    let all = ordered(ids);
    assert forall|i: int| 0 <= i < all.len() implies !slots.references(#[trigger] all[i]) by {
        assert(all.to_multiset().count(all[i]) > 0);
        assert(ids.to_multiset().count(all[i]) > 0);
        assert(ids.contains(all[i]));
    }
}

proof fn lemma_unreferenced(names: Seq<Seq<char>>, slots: SlotPair)
    ensures
        forall|id: u64| #[trigger]
            unreferenced(names, slots).contains(id) ==> !slots.references(id),
    decreases names.len(),
{
    if names.len() > 0 {
        lemma_unreferenced(names.drop_last(), slots);
        let rest = unreferenced(names.drop_last(), slots);
        let all = unreferenced(names, slots);
        assert forall|id: u64| #[trigger] all.contains(id) implies !slots.references(id) by {
            let k = choose|k: int| 0 <= k < all.len() && all[k] == id;
            if k < rest.len() {
                assert(rest[k] == id);
                assert(rest.contains(id));
            }
        }
    }
}

/// Directory home for a snapshot store and how many superseded snapshots to keep.
#[derive(Debug, Clone)]
pub struct StoreConfig {
    /// Directory the manifest and snapshot files live in.
    pub dir: String,
    /// Snapshot files kept beyond the two the manifest references; minimum 1.
    pub retain: usize,
}

/// Snapshot bytes and cursor recovered from a durable store on open.
#[derive(Debug)]
pub struct Recovered {
    /// Snapshot bytes the manifest points at.
    pub snapshot: Vec<u8>,
    /// Cursor the committing engine had reached.
    pub cursor: Option<Position>,
}

/// What a store knows of its directory.
pub struct StoreState {
    /// The directory.
    pub dir: Seq<char>,
    /// Superseded snapshots to keep.
    pub retain: usize,
    /// The manifest slots.
    pub slots: SlotPair,
    /// Index of the slot that serves.
    pub active: int,
    /// True once a commit failed.
    pub poisoned: bool,
}

/// How opening went.
pub enum Opening {
    /// It failed.
    Failed(StoreError),
    /// The slots were read, and the snapshot of the serving slot with its cursor.
    Ready { slots: SlotPair, snapshot: Option<(Seq<u8>, Option<Position>)> },
}

/// What is read once the slots are known: the snapshot of the serving slot. `used` exchanges
/// of the log are spent then.
pub open spec fn snapshot_loaded<V>(
    dir: Seq<char>,
    slots: SlotPair,
    log: Seq<Exchange<V>>,
    at: int,
    opening: Opening,
    used: int,
) -> bool {
    match slots.slot(active_of(slots)) {
        None => opening == (Opening::Ready { slots, snapshot: None }) && used == at,
        Some(record) => {
            &&& at < log.len()
            &&& log[at].call == (VfsCall::Read { dir, name: snapshot_name(record.snapshot_id) })
            &&& used == at + 1
            &&& match log[at].reply {
                VfsReply::Bytes(bytes) => opening == (Opening::Ready {
                    slots,
                    snapshot: Some((bytes, record.cursor)),
                }),
                VfsReply::Fault(fault) if fault.is_absence() => opening == Opening::Failed(
                    StoreError::MissingSnapshot { id: record.snapshot_id },
                ),
                VfsReply::Fault(fault) => opening == Opening::Failed(StoreError::Io(fault)),
                _ => false,
            }
        },
    }
}

/// What is read and written from the manifest on; a missing manifest is created blank.
pub open spec fn manifest_loaded<V>(
    dir: Seq<char>,
    log: Seq<Exchange<V>>,
    at: int,
    opening: Opening,
    used: int,
) -> bool {
    &&& at < log.len()
    &&& log[at].call == (VfsCall::Read { dir, name: MANIFEST_FILE@ })
    &&& match log[at].reply {
        VfsReply::Bytes(bytes) => match slots_in(bytes) {
            None => opening == Opening::Failed(StoreError::CorruptManifest) && used == at + 1,
            Some(slots) => snapshot_loaded(dir, slots, log, at + 1, opening, used),
        },
        VfsReply::Fault(fault) if fault.is_absence() => {
            &&& at + 1 < log.len()
            &&& log[at + 1].call == (VfsCall::Write {
                dir,
                name: MANIFEST_FILE@,
                bytes: manifest::zeros(MANIFEST_SIZE as nat),
            })
            &&& match log[at + 1].reply {
                VfsReply::Fault(fault) => opening == Opening::Failed(StoreError::Io(fault))
                    && used == at + 2,
                _ => snapshot_loaded(
                    dir,
                    SlotPair { left: None, right: None },
                    log,
                    at + 2,
                    opening,
                    used,
                ),
            }
        },
        VfsReply::Fault(fault) => opening == Opening::Failed(StoreError::Io(fault)) && used == at
            + 1,
        _ => false,
    }
}

/// What opening a directory asks of the filesystem, and how it goes for each answer: the
/// directory is made, a leftover temp file removed and the removal synced, then manifest and
/// snapshot are read.
pub open spec fn opened_by<V>(
    dir: Seq<char>,
    log: Seq<Exchange<V>>,
    opening: Opening,
    used: int,
) -> bool {
    &&& 0 < log.len()
    &&& log[0].call == (VfsCall::CreateDirAll { dir })
    &&& match log[0].reply {
        VfsReply::Fault(fault) => opening == Opening::Failed(StoreError::Io(fault)) && used == 1,
        _ => {
            &&& 1 < log.len()
            &&& log[1].call == (VfsCall::Remove { dir, name: TEMP_FILE@ })
            &&& match log[1].reply {
                VfsReply::Fault(fault) if fault.is_absence() => manifest_loaded(
                    dir,
                    log,
                    2,
                    opening,
                    used,
                ),
                VfsReply::Fault(fault) => opening == Opening::Failed(StoreError::Io(fault))
                    && used == 2,
                _ => {
                    &&& 2 < log.len()
                    &&& log[2].call == (VfsCall::SyncDir { dir })
                    &&& match log[2].reply {
                        VfsReply::Fault(fault) => opening == Opening::Failed(
                            StoreError::Io(fault),
                        ) && used == 3,
                        _ => manifest_loaded(dir, log, 3, opening, used),
                    }
                },
            }
        },
    }
}

/// True when an unlink went through or found nothing.
pub open spec fn gone(reply: VfsReply) -> bool {
    reply matches VfsReply::Fault(fault) ==> fault.is_absence()
}

/// The exchanges of removing snapshots one after the other, up to the first that cannot be
/// removed, and of syncing the removals when none failed.
pub open spec fn removed_by<V>(dir: Seq<char>, ids: Seq<u64>, log: Seq<Exchange<V>>) -> bool {
    &&& forall|i: int|
        0 <= i < log.len() && i < ids.len() ==> (#[trigger] log[i]).call == (VfsCall::Remove {
            dir,
            name: snapshot_name(ids[i]),
        })
    &&& forall|i: int|
        0 <= i < log.len() - 1 && i < ids.len() ==> gone((#[trigger] log[i]).reply)
    &&& if ids.len() == 0 {
        log.len() == 0
    } else if log.len() <= ids.len() {
        log.len() > 0 && !gone(log.last().reply)
    } else {
        log.len() == ids.len() + 1 && log.last().call == (VfsCall::SyncDir { dir })
    }
}

/// What pruning asks of the filesystem.
pub open spec fn pruned_by<V>(
    dir: Seq<char>,
    slots: SlotPair,
    retain: usize,
    log: Seq<Exchange<V>>,
) -> bool {
    &&& log.len() > 0
    &&& log[0].call == (VfsCall::List { dir })
    &&& match log[0].reply {
        VfsReply::Names(names) => removed_by(dir, doomed(names, slots, retain), log.skip(1)),
        _ => log.len() == 1,
    }
}

/// The operations of a commit, in order: the snapshot is written under a temp name, synced
/// and renamed into place before the slot that does not serve is overwritten and synced.
pub open spec fn commit_calls(
    dir: Seq<char>,
    snapshot: Seq<u8>,
    record: SlotRecord,
    older: int,
) -> Seq<VfsCall> {
    seq![
        VfsCall::Write { dir, name: TEMP_FILE@, bytes: snapshot },
        VfsCall::SyncFile { dir, name: TEMP_FILE@ },
        VfsCall::Rename { dir, from: TEMP_FILE@, to: snapshot_name(record.snapshot_id) },
        VfsCall::SyncDir { dir },
        VfsCall::WriteAt {
            dir,
            name: MANIFEST_FILE@,
            offset: (older * SLOT_STRIDE) as u64,
            bytes: manifest::slot_bytes(
                record,
                checksum::crc32c_of(manifest::slot_body(record)),
            ),
        },
        VfsCall::SyncFile { dir, name: MANIFEST_FILE@ },
    ]
}

/// The version of the slot that serves; zero without one.
pub open spec fn version_of(state: StoreState) -> u64 {
    match state.slots.slot(state.active) {
        Some(record) => record.version,
        None => 0,
    }
}

/// The record that the next commit writes.
pub open spec fn next_record(state: StoreState, cursor: Option<Position>) -> SlotRecord {
    let version = (version_of(state) + 1) as u64;
    SlotRecord { version, cursor, snapshot_id: version }
}

/// The store once a commit is through.
pub open spec fn committed(state: StoreState, cursor: Option<Position>) -> StoreState {
    let older = 1 - state.active;
    StoreState {
        slots: state.slots.with(older, next_record(state, cursor)),
        active: older,
        ..state
    }
}

/// What a commit asks of the filesystem, and how it goes for each answer: the first
/// operation that fails ends it and poisons the store.
pub open spec fn committed_by<V>(
    before: StoreState,
    snapshot: Seq<u8>,
    cursor: Option<Position>,
    log: Seq<Exchange<V>>,
    after: StoreState,
    result: Result<(), StoreError>,
) -> bool {
    let calls = commit_calls(
        before.dir,
        snapshot,
        next_record(before, cursor),
        1 - before.active,
    );
    &&& forall|i: int| 0 <= i < log.len() && i < 6 ==> (#[trigger] log[i]).call == calls[i]
    &&& match result {
        Ok(()) => {
            &&& log.len() > 6
            &&& forall|i: int| 0 <= i < 6 ==> !((#[trigger] log[i]).reply is Fault)
            &&& after == committed(before, cursor)
            &&& pruned_by(before.dir, after.slots, before.retain, log.skip(6))
        },
        Err(error) => {
            &&& 0 < log.len() <= 6
            &&& forall|i: int| 0 <= i < log.len() - 1 ==> !((#[trigger] log[i]).reply is Fault)
            &&& log.last().reply matches VfsReply::Fault(fault)
            &&& error == StoreError::Io(fault)
            &&& after == (StoreState { poisoned: true, ..before })
        },
    }
}

/// Durable snapshot home: temp-fsync-rename commits, dual-slot manifest.
pub struct SnapshotStore<V> {
    dir: String,
    vfs: V,
    retain: usize,
    slots: SlotPair,
    active: usize,
    poisoned: bool,
}

impl<V> SnapshotStore<V> {
    /// What the store knows of its directory.
    pub closed spec fn state(&self) -> StoreState {
        StoreState {
            dir: self.dir@,
            retain: self.retain,
            slots: self.slots,
            active: self.active as int,
            poisoned: self.poisoned,
        }
    }

    /// The filesystem under the store.
    pub closed spec fn disk(&self) -> V {
        self.vfs
    }

    /// One of the two slots serves.
    pub open spec fn wf(&self) -> bool {
        0 <= self.state().active <= 1
    }
}

impl<V: Vfs> SnapshotStore<V> {
    /// Cursor of the snapshot the manifest points at; what a reopen recovers.
    pub fn durable_cursor(&self) -> (cursor: Option<Position>)
        ensures
            cursor == (match self.state().slots.slot(self.state().active) {
                Some(record) => record.cursor,
                None => None,
            }),
    {
        match self.slots.at(self.active) {
            Some(record) => record.cursor,
            None => None,
        }
    }

    /// Version of the snapshot the manifest points at; zero without one.
    pub fn version(&self) -> (version: u64)
        ensures
            version == version_of(self.state()),
    {
        match self.slots.at(self.active) {
            Some(record) => record.version,
            None => 0,
        }
    }

    /// Returns the underlying filesystem, consuming the store.
    pub fn into_vfs(self) -> (vfs: V)
        ensures
            vfs == self.disk(),
    {
        self.vfs
    }

    /// Removes snapshot files referenced by neither slot, oldest first, keeping
    /// `retain` extras; the pointer removal became durable in the manifest fsync
    /// above, so unlinking an unreferenced file here never loses acknowledged data.
    fn prune(&mut self) -> (result: Result<(), StoreError>)
        ensures
            final(self).state() == old(self).state(),
            exists|log: Seq<Exchange<V>>|
                vfs::logged(old(self).disk(), log, final(self).disk()) && #[trigger] pruned_by(
                    old(self).state().dir,
                    old(self).state().slots,
                    old(self).state().retain,
                    log,
                ),
    {
        let ghost start = self.vfs;
        let ghost dir = self.dir@;
        let ghost mut log: Seq<Exchange<V>> = Seq::empty();
        let listing = self.vfs.list(self.dir.as_str());
        proof {
            let call = VfsCall::List { dir };
            let reply = vfs::list_reply(listing);
            vfs::lemma_logged_push(start, log, start, call, reply, self.vfs);
            log = log.push(Exchange { call, reply, after: self.vfs });
        }
        let names = match listing {
            Ok(names) => names,
            Err(fault) => {
                assert(vfs::logged(old(self).disk(), log, self.disk()));
                assert(pruned_by(
                    old(self).state().dir,
                    old(self).state().slots,
                    old(self).state().retain,
                    log,
                ));
                return Err(StoreError::Io(fault));
            },
        };
        let ids = prunable(&names, &self.slots, self.retain);
        let ghost first = log[0];
        let mut i: usize = 0;
        while i < ids.len()
            invariant
                i <= ids@.len(),
                self.state() == old(self).state(),
                dir == self.dir@,
                ids@ == doomed(vfs::names_of(names@), self.slots, self.retain),
                vfs::logged(start, log, self.vfs),
                log.len() == 1 + i,
                log[0] == first,
                forall|j: int|
                    1 <= j < log.len() ==> (#[trigger] log[j]).call == (VfsCall::Remove {
                        dir,
                        name: snapshot_name(ids@[j - 1]),
                    }) && gone(log[j].reply),
                first.call == (VfsCall::List { dir }),
                first.reply == VfsReply::Names(vfs::names_of(names@)),
                start == old(self).disk(),
            decreases ids@.len() - i,
        {
            let name = snapshot_file_name(ids[i]);
            let ghost before = self.vfs;
            let removal = self.vfs.remove(self.dir.as_str(), name.as_str());
            proof {
                let call = VfsCall::Remove { dir, name: name@ };
                let reply = vfs::done_reply(removal);
                vfs::lemma_logged_push(start, log, before, call, reply, self.vfs);
                log = log.push(Exchange { call, reply, after: self.vfs });
            }
            match removal {
                Ok(()) => {},
                Err(Fault { kind: FaultKind::NotFound, .. }) => {},
                Err(fault) => {
                    proof {
                        let tail = log.skip(1);
                        assert forall|j: int| 0 <= j < tail.len() implies (
                        #[trigger] tail[j]).call == (VfsCall::Remove {
                            dir,
                            name: snapshot_name(ids@[j]),
                        }) && (j < tail.len() - 1 ==> gone(tail[j].reply)) by {
                            assert(tail[j] == log[j + 1]);
                        }
                        assert(removed_by(dir, ids@, tail));
                        assert(vfs::logged(old(self).disk(), log, self.disk()));
                assert(pruned_by(
                    old(self).state().dir,
                    old(self).state().slots,
                    old(self).state().retain,
                    log,
                ));
                    }
                    return Err(StoreError::Io(fault));
                },
            }
            i += 1;
        }
        let mut result: Result<(), StoreError> = Ok(());
        let ghost removals = log;
        if ids.len() > 0 {
            // Syncs the unlinks so repeated crash-open cycles converge.
            let ghost before = self.vfs;
            let synced = self.vfs.fsync_dir(self.dir.as_str());
            proof {
                let call = VfsCall::SyncDir { dir };
                let reply = vfs::done_reply(synced);
                vfs::lemma_logged_push(start, log, before, call, reply, self.vfs);
                log = log.push(Exchange { call, reply, after: self.vfs });
            }
            if let Err(fault) = synced {
                result = Err(StoreError::Io(fault));
            }
        }
        proof {
            let tail = log.skip(1);
            assert forall|j: int| 0 <= j < tail.len() && j < ids@.len() implies (
            #[trigger] tail[j]).call == (VfsCall::Remove {
                dir,
                name: snapshot_name(ids@[j]),
            }) && gone(tail[j].reply) by {
                assert(tail[j] == removals[j + 1]);
            }
            assert(removed_by(dir, ids@, tail));
            assert(vfs::logged(old(self).disk(), log, self.disk()));
                assert(pruned_by(
                    old(self).state().dir,
                    old(self).state().slots,
                    old(self).state().retain,
                    log,
                ));
        }
        result
    }

    /// Opens or initializes the directory; returns the recovered state if any.
    pub fn open(config: StoreConfig, vfs: V) -> (result: Result<
        (Self, Option<Recovered>),
        StoreError,
    >)
        ensures
            if config.retain == 0 {
                result == Err::<(Self, Option<Recovered>), _>(StoreError::RetainZero)
            } else {
                exists|log: Seq<Exchange<V>>, end: V, opening: Opening, used: int|
                    #![trigger opened_by(config.dir@, log, opening, used),
                        vfs::logged(vfs, log, end)]
                    {
                        &&& vfs::logged(vfs, log, end)
                        &&& opened_by(config.dir@, log, opening, used)
                        &&& store_opened(config, log, end, opening, used, result)
                    }
            },
    {
        if config.retain == 0 {
            return Err(StoreError::RetainZero);
        }
        let mut vfs = vfs;
        let ghost start = vfs;
        let ghost dir = config.dir@;
        let ghost mut log: Seq<Exchange<V>> = Seq::empty();
        let ghost mut before = vfs;

        let made = vfs.create_dir_all(config.dir.as_str());
        proof {
            let call = VfsCall::CreateDirAll { dir };
            let reply = vfs::done_reply(made);
            vfs::lemma_logged_push(start, log, before, call, reply, vfs);
            log = log.push(Exchange { call, reply, after: vfs });
            before = vfs;
        }
        if let Err(fault) = made {
            let error = StoreError::Io(fault);
            let result = Err(error);
            assert(opened_by(dir, log, Opening::Failed(error), 1));
            assert(store_opened(config, log, vfs, Opening::Failed(error), 1, result));
            return result;
        }
        let removed = vfs.remove(config.dir.as_str(), TEMP_FILE);
        proof {
            let call = VfsCall::Remove { dir, name: TEMP_FILE@ };
            let reply = vfs::done_reply(removed);
            vfs::lemma_logged_push(start, log, before, call, reply, vfs);
            log = log.push(Exchange { call, reply, after: vfs });
            before = vfs;
        }
        match removed {
            Ok(()) => {
                // Syncs the repair so the removal survives a later crash.
                let synced = vfs.fsync_dir(config.dir.as_str());
                proof {
                    let call = VfsCall::SyncDir { dir };
                    let reply = vfs::done_reply(synced);
                    vfs::lemma_logged_push(start, log, before, call, reply, vfs);
                    log = log.push(Exchange { call, reply, after: vfs });
                    before = vfs;
                }
                if let Err(fault) = synced {
                    let error = StoreError::Io(fault);
                    let result = Err(error);
                    assert(opened_by(dir, log, Opening::Failed(error), 3));
                    assert(store_opened(config, log, vfs, Opening::Failed(error), 3, result));
                    return result;
                }
            },
            Err(Fault { kind: FaultKind::NotFound, .. }) => {},
            Err(fault) => {
                let error = StoreError::Io(fault);
                let result = Err(error);
                assert(opened_by(dir, log, Opening::Failed(error), 2));
                assert(store_opened(config, log, vfs, Opening::Failed(error), 2, result));
                return result;
            },
        }
        let ghost at = log.len() as int;

        let found = vfs.read(config.dir.as_str(), MANIFEST_FILE);
        proof {
            let call = VfsCall::Read { dir, name: MANIFEST_FILE@ };
            let reply = vfs::read_reply(found);
            vfs::lemma_logged_push(start, log, before, call, reply, vfs);
            log = log.push(Exchange { call, reply, after: vfs });
            before = vfs;
        }
        let slots = match found {
            Ok(bytes) => match read_slots(bytes.as_slice()) {
                Some(slots) => slots,
                None => {
                    let error = StoreError::CorruptManifest;
                    let result = Err(error);
                    assert(manifest_loaded(dir, log, at, Opening::Failed(error), at + 1));
                    assert(opened_by(dir, log, Opening::Failed(error), at + 1));
                    assert(store_opened(
                        config,
                        log,
                        vfs,
                        Opening::Failed(error),
                        at + 1,
                        result,
                    ));
                    return result;
                },
            },
            // Creates the manifest with blank slots so it exists before any commit;
            // the first commit's own directory fsync durably registers its name.
            Err(Fault { kind: FaultKind::NotFound, .. }) => {
                let blank = zero_bytes(MANIFEST_SIZE);
                let written = vfs.write(config.dir.as_str(), MANIFEST_FILE, blank.as_slice());
                proof {
                    let call = VfsCall::Write { dir, name: MANIFEST_FILE@, bytes: blank@ };
                    let reply = vfs::done_reply(written);
                    vfs::lemma_logged_push(start, log, before, call, reply, vfs);
                    log = log.push(Exchange { call, reply, after: vfs });
                    before = vfs;
                }
                if let Err(fault) = written {
                    let error = StoreError::Io(fault);
                    let result = Err(error);
                    assert(manifest_loaded(dir, log, at, Opening::Failed(error), at + 2));
                    assert(opened_by(dir, log, Opening::Failed(error), at + 2));
                    assert(store_opened(
                        config,
                        log,
                        vfs,
                        Opening::Failed(error),
                        at + 2,
                        result,
                    ));
                    return result;
                }
                SlotPair { left: None, right: None }
            },
            Err(fault) => {
                let error = StoreError::Io(fault);
                let result = Err(error);
                assert(manifest_loaded(dir, log, at, Opening::Failed(error), at + 1));
                assert(opened_by(dir, log, Opening::Failed(error), at + 1));
                assert(store_opened(config, log, vfs, Opening::Failed(error), at + 1, result));
                return result;
            },
        };
        let ghost next = log.len() as int;

        let active = active_slot(&slots);
        let recovered = match slots.at(active) {
            None => None,
            Some(record) => {
                let name = snapshot_file_name(record.snapshot_id);
                let read = vfs.read(config.dir.as_str(), name.as_str());
                proof {
                    let call = VfsCall::Read { dir, name: name@ };
                    let reply = vfs::read_reply(read);
                    vfs::lemma_logged_push(start, log, before, call, reply, vfs);
                    log = log.push(Exchange { call, reply, after: vfs });
                    before = vfs;
                }
                match read {
                    Ok(snapshot) => Some(Recovered { snapshot, cursor: record.cursor }),
                    Err(fault) => {
                        let error = match fault {
                            Fault { kind: FaultKind::NotFound, .. } => {
                                StoreError::MissingSnapshot { id: record.snapshot_id }
                            },
                            fault => StoreError::Io(fault),
                        };
                        let result = Err(error);
                        assert(snapshot_loaded(
                            dir,
                            slots,
                            log,
                            next,
                            Opening::Failed(error),
                            next + 1,
                        ));
                        assert(manifest_loaded(dir, log, at, Opening::Failed(error), next + 1));
                        assert(opened_by(dir, log, Opening::Failed(error), next + 1));
                        assert(store_opened(
                            config,
                            log,
                            vfs,
                            Opening::Failed(error),
                            next + 1,
                            result,
                        ));
                        return result;
                    },
                }
            },
        };
        let ghost used = log.len() as int;
        let ghost opening = Opening::Ready { slots, snapshot: recovered_model(recovered) };
        assert(snapshot_loaded(dir, slots, log, next, opening, used));
        assert(manifest_loaded(dir, log, at, opening, used));
        assert(opened_by(dir, log, opening, used));
        let retain = config.retain;
        let mut store = SnapshotStore {
            dir: config.dir,
            vfs,
            retain,
            slots,
            active,
            poisoned: false,
        };
        // Reclaiming space is best effort; the next open retries whatever it leaves.
        let _ = store.prune();
        proof {
            let tail = choose|tail: Seq<Exchange<V>>|
                vfs::logged(before, tail, store.disk()) && #[trigger] pruned_by(
                    dir,
                    slots,
                    retain,
                    tail,
                );
            let whole = log + tail;
            vfs::lemma_logged_concat(start, log, before, tail, store.disk());
            assert(whole.skip(used) =~= tail);
            lemma_opened_by_prefix(dir, log, whole, opening, used);
            assert(store_opened(
                config,
                whole,
                store.disk(),
                opening,
                used,
                Ok((store, recovered)),
            ));
        }
        Ok((store, recovered))
    }

    /// Durably commits one snapshot and moves the cursor watermark onto it.
    ///
    /// | crash lands | on-disk state | recovery |
    /// |---|---|---|
    /// | during or after the temp write, before its fsync | orphan temp file | temp removed, prior snapshot serves |
    /// | after the temp fsync, before the rename | orphan temp file | temp removed, prior snapshot serves |
    /// | after the rename, before the directory fsync | rename possibly volatile | manifest still points at the prior snapshot either way |
    /// | during the manifest slot write | torn newer slot, bad CRC | other slot valid, prior snapshot serves |
    /// | after the slot write, before its fsync | new slot volatile, maybe torn | whichever valid slot has the higher version serves; both outcomes are acknowledged states |
    /// | after the manifest fsync | both slots valid | new snapshot serves |
    /// | during pruning | unreferenced files linger | pruned on next open |
    pub fn commit(&mut self, snapshot: &[u8], cursor: Option<Position>) -> (result: Result<
        (),
        StoreError,
    >)
        requires
            old(self).wf(),
            !old(self).state().poisoned ==> version_of(old(self).state()) < u64::MAX,
        ensures
            final(self).wf(),
            if old(self).state().poisoned {
                &&& result == Err::<(), _>(StoreError::Poisoned)
                &&& final(self).state() == old(self).state()
                &&& final(self).disk() == old(self).disk()
            } else {
                exists|log: Seq<Exchange<V>>|
                    vfs::logged(old(self).disk(), log, final(self).disk())
                        && #[trigger] committed_by(
                        old(self).state(),
                        snapshot@,
                        cursor,
                        log,
                        final(self).state(),
                        result,
                    )
            },
    {
        if self.poisoned {
            return Err(StoreError::Poisoned);
        }
        let result = self.commit_once(snapshot, cursor);
        if result.is_err() {
            self.poisoned = true;
        }
        proof {
            let log = choose|log: Seq<Exchange<V>>|
                vfs::logged(old(self).disk(), log, self.disk()) && #[trigger] attempted_by(
                    old(self).state(),
                    snapshot@,
                    cursor,
                    log,
                    self.slots,
                    self.active as int,
                    result,
                );
            assert(committed_by(
                old(self).state(),
                snapshot@,
                cursor,
                log,
                self.state(),
                result,
            ));
        }
        result
    }

    fn commit_once(&mut self, snapshot: &[u8], cursor: Option<Position>) -> (result: Result<
        (),
        StoreError,
    >)
        requires
            old(self).wf(),
            version_of(old(self).state()) < u64::MAX,
        ensures
            final(self).state() == (StoreState {
                slots: final(self).state().slots,
                active: final(self).state().active,
                ..old(self).state()
            }),
            final(self).wf(),
            exists|log: Seq<Exchange<V>>|
                vfs::logged(old(self).disk(), log, final(self).disk()) && #[trigger] attempted_by(
                    old(self).state(),
                    snapshot@,
                    cursor,
                    log,
                    final(self).state().slots,
                    final(self).state().active,
                    result,
                ),
    {
        let ghost state = self.state();
        let next_version = self.version() + 1;
        let older = 1 - self.active;
        let record = SlotRecord { version: next_version, cursor, snapshot_id: next_version };
        let snapshot_name = snapshot_file_name(next_version);
        let slot_bytes = encode_slot(&record);
        let slot_offset = (older * SLOT_STRIDE) as u64;
        let ghost start = self.vfs;
        let ghost dir = self.dir@;
        let ghost calls = commit_calls(dir, snapshot@, record, older as int);
        let mut step: usize = 0;
        let ghost mut log: Seq<Exchange<V>> = Seq::empty();
        while step < 6
            invariant
                step <= 6,
                older <= 1,
                slot_offset == older * SLOT_STRIDE,
                snapshot_name@ == self::snapshot_name(record.snapshot_id),
                slot_bytes@ == manifest::slot_bytes(
                    record,
                    checksum::crc32c_of(manifest::slot_body(record)),
                ),
                state == old(self).state(),
                self.state() == state,
                older == 1 - state.active,
                record == next_record(state, cursor),
                dir == self.dir@,
                calls == commit_calls(dir, snapshot@, record, older as int),
                start == old(self).disk(),
                vfs::logged(start, log, self.vfs),
                log.len() == step,
                forall|i: int|
                    0 <= i < log.len() ==> (#[trigger] log[i]).call == calls[i] && !(
                    log[i].reply is Fault),
            decreases 6 - step,
        {
            let ghost before = self.vfs;
            let done = match step {
                0 => self.vfs.write(self.dir.as_str(), TEMP_FILE, snapshot),
                1 => self.vfs.fsync_file(self.dir.as_str(), TEMP_FILE),
                2 => self.vfs.rename(self.dir.as_str(), TEMP_FILE, snapshot_name.as_str()),
                3 => self.vfs.fsync_dir(self.dir.as_str()),
                4 => self.vfs.write_at(self.dir.as_str(), MANIFEST_FILE, slot_offset, &slot_bytes),
                _ => self.vfs.fsync_file(self.dir.as_str(), MANIFEST_FILE),
            };
            proof {
                let call = calls[step as int];
                let reply = vfs::done_reply(done);
                vfs::lemma_logged_push(start, log, before, call, reply, self.vfs);
                log = log.push(Exchange { call, reply, after: self.vfs });
            }
            if let Err(fault) = done {
                let result = Err(StoreError::Io(fault));
                assert(vfs::logged(old(self).disk(), log, self.disk()));
                assert(attempted_by(
                    old(self).state(),
                    snapshot@,
                    cursor,
                    log,
                    self.state().slots,
                    self.state().active,
                    result,
                ));
                return result;
            }
            step += 1;
        }
        let ghost middle = self.vfs;

        // Commit point: the manifest fsync returned Ok, so flip the active slot now.
        self.slots.set(older, record);
        self.active = older;

        // Reclaiming space runs past the commit point; the next open retries it.
        let ghost slots = self.slots;
        let _ = self.prune();
        proof {
            let tail = choose|tail: Seq<Exchange<V>>|
                vfs::logged(middle, tail, self.disk()) && #[trigger] pruned_by(
                    dir,
                    slots,
                    state.retain,
                    tail,
                );
            let whole = log + tail;
            vfs::lemma_logged_concat(start, log, middle, tail, self.disk());
            assert(whole.skip(6) =~= tail);
            assert forall|i: int| 0 <= i < 6 implies (#[trigger] whole[i]).call == calls[i] && !(
            whole[i].reply is Fault) by {
                assert(whole[i] == log[i]);
            }
            assert(attempted_by(
                old(self).state(),
                snapshot@,
                cursor,
                whole,
                self.state().slots,
                self.state().active,
                Ok(()),
            ));
        }
        Ok(())
    }
}

/// A run of zero bytes.
fn zero_bytes(len: usize) -> (bytes: Vec<u8>)
    ensures
        bytes@ == manifest::zeros(len as nat),
{
    let mut bytes: Vec<u8> = Vec::with_capacity(len);
    while bytes.len() < len
        invariant
            bytes@.len() <= len,
            bytes@ == manifest::zeros(bytes@.len()),
        decreases len - bytes@.len(),
    {
        bytes.push(0);
        assert(bytes@ =~= manifest::zeros(bytes@.len()));
    }
    bytes
}

/// Recovered bytes and cursor as plain values.
pub open spec fn recovered_model(recovered: Option<Recovered>) -> Option<
    (Seq<u8>, Option<Position>),
> {
    match recovered {
        Some(recovered) => Some((recovered.snapshot@, recovered.cursor)),
        None => None,
    }
}

/// What the caller of `open` gets for how opening went.
pub open spec fn store_opened<V>(
    config: StoreConfig,
    log: Seq<Exchange<V>>,
    end: V,
    opening: Opening,
    used: int,
    result: Result<(SnapshotStore<V>, Option<Recovered>), StoreError>,
) -> bool {
    match opening {
        Opening::Failed(error) => {
            &&& log.len() == used
            &&& result == Err::<(SnapshotStore<V>, Option<Recovered>), _>(error)
        },
        Opening::Ready { slots, snapshot } => {
            &&& 0 <= used <= log.len()
            &&& pruned_by(config.dir@, slots, config.retain, log.skip(used))
            &&& result matches Ok((store, recovered))
            &&& recovered_model(recovered) == snapshot
            &&& store.disk() == end
            &&& store.state() == (StoreState {
                dir: config.dir@,
                retain: config.retain,
                slots,
                active: active_of(slots),
                poisoned: false,
            })
        },
    }
}

/// What a commit asks and how far it gets, before a failure poisons the store.
pub open spec fn attempted_by<V>(
    before: StoreState,
    snapshot: Seq<u8>,
    cursor: Option<Position>,
    log: Seq<Exchange<V>>,
    slots: SlotPair,
    active: int,
    result: Result<(), StoreError>,
) -> bool {
    committed_by(
        before,
        snapshot,
        cursor,
        log,
        StoreState { slots, active, poisoned: before.poisoned || result is Err, ..before },
        result,
    )
}

/// How opening went depends on the spent part of the log alone.
proof fn lemma_opened_by_prefix<V>(
    dir: Seq<char>,
    log: Seq<Exchange<V>>,
    longer: Seq<Exchange<V>>,
    opening: Opening,
    used: int,
)
    requires
        log.len() <= longer.len(),
        forall|i: int| 0 <= i < log.len() ==> longer[i] == log[i],
        opened_by(dir, log, opening, used),
    ensures
        opened_by(dir, longer, opening, used),
{
}

} // verus!
