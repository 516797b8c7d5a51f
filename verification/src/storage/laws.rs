//! What the files of a store hold, and which of them stay.
use vstd::prelude::*;

use crate::bytes;
use crate::checksum;
use crate::position::Position;
use crate::storage::manifest;
use crate::storage::manifest::SlotRecord;
use crate::storage::store;
use crate::storage::store::{Opening, SlotPair, StoreError, StoreState};
use crate::storage::vfs::{Exchange, VfsCall, VfsReply};

verus! {

/// A slot is 64 bytes: the version at 0, a flag at 8 that is one with a cursor and zero
/// without, the cursor's block at 9 and log index at 17, the snapshot's id at 25, zeros from
/// 33 on, and at 60 the checksum of all before it. Numbers are little-endian; without a cursor
/// its fields are zero.
pub proof fn law_slot_layout(record: SlotRecord, crc: u32)
    ensures
        ({
            let slot = manifest::slot_bytes(record, crc);
            &&& slot.len() == 64
            &&& slot.subrange(0, 8) == bytes::le_bytes(record.version as nat, 8)
            &&& slot.subrange(25, 33) == bytes::le_bytes(record.snapshot_id as nat, 8)
            &&& match record.cursor {
                Some(cursor) => {
                    &&& slot[8] == 1
                    &&& slot.subrange(9, 17) == bytes::le_bytes(cursor.block as nat, 8)
                    &&& slot.subrange(17, 25) == bytes::le_bytes(cursor.log_index as nat, 8)
                },
                None => forall|i: int| 8 <= i < 25 ==> #[trigger] slot[i] == 0,
            }
            &&& forall|i: int| 33 <= i < 60 ==> #[trigger] slot[i] == 0
            &&& slot.subrange(60, 64) == bytes::le_bytes(crc as nat, 4)
            &&& manifest::slot_body(record) == slot.subrange(0, 60)
        }),
{
    let (flag, block, log_index) = manifest::cursor_fields(record.cursor);
    let slot = manifest::slot_bytes(record, crc);
    bytes::lemma_byte_ranges();
    bytes::lemma_le_value(record.version as nat, 8);
    bytes::lemma_le_value(block as nat, 8);
    bytes::lemma_le_value(log_index as nat, 8);
    bytes::lemma_le_value(record.snapshot_id as nat, 8);
    bytes::lemma_le_value(crc as nat, 4);
    manifest::lemma_slot_lengths(record, crc);
    assert(slot.subrange(0, 8) =~= bytes::le_bytes(record.version as nat, 8));
    assert(slot.subrange(9, 17) =~= bytes::le_bytes(block as nat, 8));
    assert(slot.subrange(17, 25) =~= bytes::le_bytes(log_index as nat, 8));
    assert(slot.subrange(25, 33) =~= bytes::le_bytes(record.snapshot_id as nat, 8));
    assert(slot.subrange(60, 64) =~= bytes::le_bytes(crc as nat, 4));
    assert(manifest::slot_body(record) =~= slot.subrange(0, 60));
    if record.cursor is None {
        lemma_zero_bytes(8);
        assert forall|i: int| 8 <= i < 25 implies #[trigger] slot[i] == 0 by {
            if 9 <= i < 17 {
                assert(slot[i] == slot.subrange(9, 17)[i - 9]);
            } else if 17 <= i {
                assert(slot[i] == slot.subrange(17, 25)[i - 17]);
            }
        }
    }
}

proof fn lemma_zero_bytes(width: nat)
    ensures
        bytes::le_bytes(0, width).len() == width,
        forall|i: int| 0 <= i < width ==> #[trigger] bytes::le_bytes(0, width)[i] == 0,
    decreases width,
{
    if width > 0 {
        lemma_zero_bytes((width - 1) as nat);
    }
}

/// Bytes are taken for a slot exactly when they are 64, end with the checksum given, and carry
/// a flag of zero or one.
pub proof fn law_slot_is_read_when_sealed(bytes: Seq<u8>, crc: u32)
    ensures
        manifest::slot_in(bytes, crc) is Some <==> bytes.len() == 64 && bytes::le_value(
            bytes.subrange(60, 64),
        ) == crc && bytes[8] <= 1,
        manifest::slot_in(bytes, crc) matches Some(record) ==> {
            &&& record.version == bytes::le_value(bytes.subrange(0, 8))
            &&& record.snapshot_id == bytes::le_value(bytes.subrange(25, 33))
            &&& record.cursor is Some <==> bytes[8] == 1
            &&& record.cursor matches Some(cursor) ==> cursor.block == bytes::le_value(
                bytes.subrange(9, 17),
            ) && cursor.log_index == bytes::le_value(bytes.subrange(17, 25))
        },
{
    if bytes.len() == 64 {
        bytes::lemma_byte_ranges();
        bytes::lemma_le_bytes(bytes.subrange(0, 8));
        bytes::lemma_le_bytes(bytes.subrange(9, 17));
        bytes::lemma_le_bytes(bytes.subrange(17, 25));
        bytes::lemma_le_bytes(bytes.subrange(25, 33));
    }
}

/// The slots of a manifest are its bytes 0 to 64 and 4096 to 4160, each valid under the
/// checksum of its own first 60 bytes. A manifest is refused exactly when neither slot is valid
/// although it is at least two slots long and not all zero.
pub proof fn law_manifest_holds_two_slots(bytes: Seq<u8>)
    ensures
        store::slots_in(bytes) matches Some(slots) ==> {
            &&& slots.left is Some <==> bytes.len() >= 64 && manifest::slot_in(
                bytes.subrange(0, 64),
                checksum::crc32c_of(bytes.subrange(0, 60)),
            ) is Some
            &&& slots.left is Some ==> slots.left == manifest::slot_in(
                bytes.subrange(0, 64),
                checksum::crc32c_of(bytes.subrange(0, 60)),
            )
            &&& slots.right is Some <==> bytes.len() >= 4160 && manifest::slot_in(
                bytes.subrange(4096, 4160),
                checksum::crc32c_of(bytes.subrange(4096, 4156)),
            ) is Some
            &&& slots.right is Some ==> slots.right == manifest::slot_in(
                bytes.subrange(4096, 4160),
                checksum::crc32c_of(bytes.subrange(4096, 4156)),
            )
        },
        store::slots_in(bytes) is None <==> {
            &&& bytes.len() >= 128
            &&& exists|i: int| 0 <= i < bytes.len() && #[trigger] bytes[i] != 0
            &&& manifest::slot_in(
                bytes.subrange(0, 64),
                checksum::crc32c_of(bytes.subrange(0, 60)),
            ) is None
            &&& bytes.len() >= 4160 ==> manifest::slot_in(
                bytes.subrange(4096, 4160),
                checksum::crc32c_of(bytes.subrange(4096, 4156)),
            ) is None
        },
{
    if bytes.len() >= 64 {
        assert(bytes.subrange(0, 64).take(60) =~= bytes.subrange(0, 60));
    }
    if bytes.len() >= 4160 {
        assert(bytes.subrange(4096, 4160).take(60) =~= bytes.subrange(4096, 4156));
    }
}

/// The slot that serves is a valid one, if there is any, and no valid slot has a higher
/// version.
pub proof fn law_serving_slot_has_the_highest_version(slots: SlotPair)
    ensures
        ({
            let active = store::active_of(slots);
            &&& active == 0 || active == 1
            &&& slots.slot(0) == slots.left && slots.slot(1) == slots.right
            &&& slots.left is Some || slots.right is Some ==> slots.slot(active) is Some
            &&& slots.left matches Some(left) ==> slots.slot(active)->0.version >= left.version
            &&& slots.right matches Some(right) ==> slots.slot(active)->0.version
                >= right.version
            &&& slots.left is Some && slots.right is Some && slots.left->0.version
                == slots.right->0.version ==> active == 0
        }),
{
}

/// True when the name is that of a snapshot that no slot points at.
pub open spec fn is_spare(slots: SlotPair, name: Seq<char>, id: u64) -> bool {
    &&& name == "snap-"@ + crate::text::decimal(id as nat) + ".bin"@
    &&& !(slots.left matches Some(left) && left.snapshot_id == id)
    &&& !(slots.right matches Some(right) && right.snapshot_id == id)
}

/// What sorting keeps.
proof fn lemma_inserted(ids: Seq<u64>, id: u64)
    requires
        store::sorted(ids),
    ensures
        store::sorted(store::inserted(ids, id)),
        store::inserted(ids, id).to_multiset() == ids.to_multiset().insert(id),
        forall|k: int|
            0 <= k < store::inserted(ids, id).len() ==> #[trigger] store::inserted(ids, id)[k]
                == id || ids.contains(store::inserted(ids, id)[k]),
    decreases ids.len(),
{
    broadcast use vstd::seq_lib::group_to_multiset_ensures;

    let all = store::inserted(ids, id);
    if ids.len() == 0 || ids.last() <= id {
        assert forall|i: int, j: int| 0 <= i <= j < all.len() implies all[i] <= all[j] by {
            if j < ids.len() {
                assert(ids[i] <= ids[j]);
            } else if i < ids.len() {
                assert(ids[i] <= ids[ids.len() - 1]);
            }
        }
        assert(ids.push(id).to_multiset() =~= ids.to_multiset().insert(id));
    } else {
        let rest = ids.drop_last();
        let last = ids.last();
        assert forall|i: int, j: int| 0 <= i <= j < rest.len() implies rest[i] <= rest[j] by {
            assert(ids[i] <= ids[j]);
        }
        lemma_inserted(rest, id);
        let some = store::inserted(rest, id);
        assert(all == some.push(last));
        assert(ids =~= rest.push(last));
        assert(all.to_multiset() =~= ids.to_multiset().insert(id));
        assert forall|k: int| 0 <= k < all.len() implies #[trigger] all[k] == id
            || ids.contains(all[k]) by {
            if k < some.len() {
                assert(all[k] == some[k]);
                if some[k] != id {
                    let n = choose|n: int| 0 <= n < rest.len() && rest[n] == some[k];
                    assert(ids[n] == all[k]);
                }
            } else {
                assert(ids[ids.len() - 1] == all[k]);
            }
        }
        assert forall|i: int, j: int| 0 <= i <= j < all.len() implies all[i] <= all[j] by {
            if j < some.len() {
                assert(some[i] <= some[j]);
            } else if i < some.len() {
                if some[i] != id {
                    let n = choose|n: int| 0 <= n < rest.len() && rest[n] == some[i];
                    assert(ids[n] <= ids[ids.len() - 1]);
                }
            }
        }
    }
}

proof fn lemma_ordered(ids: Seq<u64>)
    ensures
        store::sorted(store::ordered(ids)),
        store::ordered(ids).to_multiset() == ids.to_multiset(),
        store::ordered(ids).len() == ids.len(),
    decreases ids.len(),
{
    broadcast use vstd::seq_lib::group_to_multiset_ensures;

    if ids.len() > 0 {
        lemma_ordered(ids.drop_last());
        lemma_inserted(store::ordered(ids.drop_last()), ids.last());
        assert(ids =~= ids.drop_last().push(ids.last()));
        assert(store::ordered(ids).to_multiset().len() == ids.to_multiset().len());
    }
}

/// The ids that no slot points at, of a listing.
proof fn lemma_unreferenced(names: Seq<Seq<char>>, slots: SlotPair)
    ensures
        forall|i: int, id: u64|
            0 <= i < names.len() && #[trigger] is_spare(slots, names[i], id)
                ==> store::unreferenced(names, slots).contains(id),
        forall|k: int|
            0 <= k < store::unreferenced(names, slots).len() ==> exists|i: int|
                0 <= i < names.len() && is_spare(
                    slots,
                    #[trigger] names[i],
                    #[trigger] store::unreferenced(names, slots)[k],
                ),
        store::unreferenced(names, slots).len() == names.filter(
            |name: Seq<char>| exists|id: u64| is_spare(slots, name, id),
        ).len(),
    decreases names.len(),
{
    reveal(Seq::filter);
    let spare = |name: Seq<char>| exists|id: u64| is_spare(slots, name, id);
    let ids = store::unreferenced(names, slots);
    if names.len() > 0 {
        let rest = names.drop_last();
        let last = names.last();
        lemma_unreferenced(rest, slots);
        let fewer = store::unreferenced(rest, slots);
        assert forall|id: u64| is_spare(slots, last, id) implies store::id_of_name(last) == Some(
            id,
        ) by {
            assert(last == store::snapshot_name(id));
            store::law_snapshot_names_differ(id, store::id_of_name(last)->0);
        }
        match store::id_of_name(last) {
            Some(id) => {
                assert(last == store::snapshot_name(id));
                assert(is_spare(slots, last, id) == !slots.references(id));
            },
            None => {},
        }
        assert(spare(last) == (ids.len() > fewer.len()));
        assert forall|i: int, id: u64|
            0 <= i < names.len() && #[trigger] is_spare(slots, names[i], id) implies ids.contains(
            id,
        ) by {
            if i < rest.len() {
                assert(rest[i] == names[i]);
                let k = choose|k: int| 0 <= k < fewer.len() && fewer[k] == id;
                assert(ids[k] == id);
            } else {
                assert(ids[fewer.len() as int] == id);
            }
        }
        assert forall|k: int| 0 <= k < ids.len() implies exists|i: int|
            0 <= i < names.len() && is_spare(slots, #[trigger] names[i], #[trigger] ids[k]) by {
            if k < fewer.len() {
                assert(ids[k] == fewer[k]);
                let i = choose|i: int|
                    0 <= i < rest.len() && is_spare(slots, #[trigger] rest[i], fewer[k]);
                assert(rest[i] == names[i]);
            } else {
                assert(is_spare(slots, names[names.len() - 1], ids[k]));
            }
        }
    }
}

/// Pruning removes listed snapshots that no slot points at, the oldest first, and spares the
/// newest `retain` of them: as many as there are beyond that number go, and every one that
/// stays is at least as new as every one that goes.
pub proof fn law_pruning_keeps_the_newest(
    names: Seq<Seq<char>>,
    slots: SlotPair,
    retain: usize,
) -> (kept: Seq<u64>)
    ensures
        ({
            let doomed = store::doomed(names, slots, retain);
            let spare = names.filter(
                |name: Seq<char>| exists|id: u64| is_spare(slots, name, id),
            ).len();
            &&& kept.len() + doomed.len() == spare
            &&& kept.len() == (if spare < retain {
                spare as int
            } else {
                retain as int
            })
            &&& forall|i: int, j: int|
                0 <= i < doomed.len() && 0 <= j < kept.len() ==> #[trigger] doomed[i]
                    <= #[trigger] kept[j]
            &&& forall|i: int, j: int|
                0 <= i <= j < doomed.len() ==> #[trigger] doomed[i] <= #[trigger] doomed[j]
            &&& forall|i: int, id: u64|
                0 <= i < names.len() && #[trigger] is_spare(slots, names[i], id)
                    ==> doomed.contains(id) || kept.contains(id)
            &&& forall|k: int|
                0 <= k < doomed.len() ==> exists|i: int|
                    0 <= i < names.len() && is_spare(
                        slots,
                        #[trigger] names[i],
                        #[trigger] doomed[k],
                    )
        }),
{
    broadcast use vstd::seq_lib::group_to_multiset_ensures;

    let found = store::unreferenced(names, slots);
    let ids = store::ordered(found);
    let doomed = store::doomed(names, slots, retain);
    let kept = ids.skip(doomed.len() as int);
    lemma_unreferenced(names, slots);
    lemma_ordered(found);
    assert forall|i: int, id: u64|
        0 <= i < names.len() && #[trigger] is_spare(slots, names[i], id) implies doomed.contains(
        id,
    ) || kept.contains(id) by {
        assert(found.contains(id));
        assert(found.to_multiset().count(id) > 0);
        assert(ids.contains(id));
        let k = choose|k: int| 0 <= k < ids.len() && ids[k] == id;
        if k < doomed.len() {
            assert(doomed[k] == id);
        } else {
            assert(kept[k - doomed.len()] == id);
        }
    }
    assert forall|k: int| 0 <= k < doomed.len() implies exists|i: int|
        0 <= i < names.len() && is_spare(slots, #[trigger] names[i], #[trigger] doomed[k]) by {
        assert(ids.contains(ids[k]));
        assert(ids.to_multiset().count(ids[k]) > 0);
        assert(found.contains(ids[k]));
        let n = choose|n: int| 0 <= n < found.len() && found[n] == ids[k];
        assert(doomed[k] == found[n]);
    }
    kept
}

/// A commit that went through: the snapshot was written under the temp name, synced and renamed
/// to the file of the next version, whose slot was then written over the one that did not
/// serve and synced. That version serves now; the slot that served until then is untouched.
pub proof fn law_commit_writes_the_other_slot<V>(
    before: StoreState,
    snapshot: Seq<u8>,
    cursor: Option<Position>,
    log: Seq<Exchange<V>>,
    after: StoreState,
    served: Option<SlotRecord>,
    record: SlotRecord,
)
    requires
        store::committed_by(before, snapshot, cursor, log, after, Ok::<(), StoreError>(())),
        before.active == 0 || before.active == 1,
        served == (if before.active == 0 {
            before.slots.left
        } else {
            before.slots.right
        }),
        served matches Some(slot) ==> slot.version < u64::MAX,
        record.version == (match served {
            Some(slot) => slot.version + 1,
            None => 1,
        }),
        record.snapshot_id == record.version,
        record.cursor == cursor,
    ensures
        ({
            let dir = before.dir;
            let name = "snap-"@ + crate::text::decimal(record.version as nat) + ".bin"@;
            &&& log.len() > 6
            &&& forall|i: int| 0 <= i < 6 ==> !((#[trigger] log[i]).reply is Fault)
            &&& log[0].call == (VfsCall::Write { dir, name: "snap.tmp"@, bytes: snapshot })
            &&& log[1].call == (VfsCall::SyncFile { dir, name: "snap.tmp"@ })
            &&& log[2].call == (VfsCall::Rename { dir, from: "snap.tmp"@, to: name })
            &&& log[3].call == (VfsCall::SyncDir { dir })
            &&& log[4].call == (VfsCall::WriteAt {
                dir,
                name: "manifest"@,
                offset: if before.active == 0 {
                    4096
                } else {
                    0
                },
                bytes: manifest::slot_bytes(
                    record,
                    checksum::crc32c_of(manifest::slot_body(record)),
                ),
            })
            &&& log[5].call == (VfsCall::SyncFile { dir, name: "manifest"@ })
            &&& log[6].call == (VfsCall::List { dir })
            &&& after.active == 1 - before.active
            &&& if before.active == 0 {
                after.slots.right == Some(record) && after.slots.left == before.slots.left
            } else {
                after.slots.left == Some(record) && after.slots.right == before.slots.right
            }
            &&& after.poisoned == before.poisoned
            &&& after.retain == before.retain
            &&& after.dir == before.dir
        }),
{
    assert(record == store::next_record(before, cursor));
    assert(log[6] == log.skip(6)[0]);
}

/// How a store opens: the directory is made, a leftover temp file removed and its removal
/// synced, then the manifest read, or written blank when there is none. What the store starts
/// with are the manifest's slots and, when a slot serves, the file of its snapshot as it was
/// read, with the slot's cursor; it does not open when that file or the manifest is bad.
pub proof fn law_open_reads_what_the_manifest_names<V>(
    dir: Seq<char>,
    log: Seq<Exchange<V>>,
    opening: Opening,
    used: int,
) -> (at: int)
    requires
        store::opened_by(dir, log, opening, used),
    ensures
        log[0].call == (VfsCall::CreateDirAll { dir }),
        opening matches Opening::Ready { slots, snapshot } ==> {
            &&& log[1].call == (VfsCall::Remove { dir, name: "snap.tmp"@ })
            &&& if log[1].reply is Fault {
                at == 2
            } else {
                at == 3 && log[2].call == (VfsCall::SyncDir { dir }) && !(log[2].reply is Fault)
            }
            &&& at < log.len()
            &&& log[at].call == (VfsCall::Read { dir, name: "manifest"@ })
            &&& match log[at].reply {
                VfsReply::Bytes(bytes) => store::slots_in(bytes) == Some(slots),
                VfsReply::Fault(fault) => fault.is_absence() && slots.left is None
                    && slots.right is None && log[at + 1].call == (VfsCall::Write {
                    dir,
                    name: "manifest"@,
                    bytes: Seq::new(4160, |i: int| 0u8),
                }),
                _ => false,
            }
            &&& (slots.left is None && slots.right is None) ==> snapshot is None
            &&& snapshot matches Some((bytes, cursor)) ==> {
                let serving = if slots.left is None || (slots.right is Some
                    && slots.right->0.version > slots.left->0.version) {
                    slots.right
                } else {
                    slots.left
                };
                &&& serving matches Some(record)
                &&& cursor == record.cursor
                &&& used == at + 2
                &&& log[at + 1].call == (VfsCall::Read {
                    dir,
                    name: "snap-"@ + crate::text::decimal(record.snapshot_id as nat) + ".bin"@,
                })
                &&& log[at + 1].reply == VfsReply::Bytes(bytes)
            }
            &&& snapshot is None ==> slots.left is None && slots.right is None
        },
        opening == Opening::Failed(StoreError::CorruptManifest) ==> (log[at].reply matches
            VfsReply::Bytes(bytes) && store::slots_in(bytes) is None),
{
    let at: int = if log[1].reply is Fault {
        2
    } else {
        3
    };
    assert(manifest::zeros(4160) =~= Seq::new(4160, |i: int| 0u8));
    at
}

} // verus!
