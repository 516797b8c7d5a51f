//! What a background flusher decides: admission, outcomes, and the durable watermark.
use vstd::prelude::*;

use crate::batch_laws;
use crate::checkpoint;
use crate::checksum;
use crate::driver_laws;
use crate::engine::Engine;
use crate::error::DurabilityLost;
use crate::position::Position;
use crate::ring;
use crate::snapshot;
use crate::snapshot::Persist;
use crate::snapshot_model;
use crate::storage::store;
use crate::storage::store::{SnapshotStore, StoreError};
use crate::storage::vfs;
use crate::storage::vfs::{Exchange, FaultKind, Vfs};
use crate::text::Describe;

verus! {

/// Failure completing a submitted snapshot flush.
#[derive(Debug, Clone, Copy, PartialEq, Eq, Structural)]
pub enum FlushError {
    /// Flusher stopped after a prior failure or shutdown.
    Closed,
    /// Filesystem operation failed during the commit.
    Io {
        /// Kind of the underlying fault.
        kind: FaultKind,
    },
    /// Store refused the durable state it found.
    Corrupt,
}

impl Describe for FlushError {
    open spec fn text(&self) -> Seq<char> {
        match self {
            FlushError::Closed => "flusher closed after a prior failure or shutdown"@,
            FlushError::Io { kind } => "flusher io error: "@ + kind.text(),
            FlushError::Corrupt => "flusher rejected a corrupt durable state"@,
        }
    }

    fn describe(&self) -> (text: String) {
        match self {
            FlushError::Closed => String::from_str(
                "flusher closed after a prior failure or shutdown",
            ),
            FlushError::Io { kind } => {
                let mut out = String::from_str("flusher io error: ");
                out.append(kind.describe().as_str());
                out
            },
            FlushError::Corrupt => String::from_str("flusher rejected a corrupt durable state"),
        }
    }
}

/// The flush failure that a store failure shows as.
pub open spec fn flush_error(error: StoreError) -> FlushError {
    match error {
        StoreError::Io(fault) => FlushError::Io { kind: fault.kind },
        StoreError::Poisoned => FlushError::Closed,
        _ => FlushError::Corrupt,
    }
}

impl From<StoreError> for FlushError {
    fn from(error: StoreError) -> (flush: Self) {
        match error {
            StoreError::Io(fault) => FlushError::Io { kind: fault.kind },
            StoreError::CorruptManifest => FlushError::Corrupt,
            StoreError::MissingSnapshot { .. } => FlushError::Corrupt,
            StoreError::RetainZero => FlushError::Corrupt,
            StoreError::Poisoned => FlushError::Closed,
        }
    }
}

impl vstd::std_specs::convert::FromSpecImpl<StoreError> for FlushError {
    open spec fn obeys_from_spec() -> bool {
        true
    }

    open spec fn from_spec(error: StoreError) -> FlushError {
        flush_error(error)
    }
}

/// Counting gate bounding jobs admitted but not yet fully processed.
#[derive(Debug)]
pub struct Admission {
    available: usize,
}

impl Admission {
    /// Jobs that may still be admitted.
    pub closed spec fn free(&self) -> nat {
        self.available as nat
    }

    /// Builds a gate for `capacity` jobs.
    pub fn new(capacity: usize) -> (gate: Self)
        ensures
            gate.free() == capacity,
    {
        Admission { available: capacity }
    }

    /// Takes a slot when one is available.
    pub fn try_acquire(&mut self) -> (taken: bool)
        ensures
            taken == (old(self).free() > 0),
            final(self).free() == if taken {
                old(self).free() - 1
            } else {
                old(self).free() as int
            },
    {
        if self.available == 0 {
            return false;
        }
        self.available = self.available - 1;
        true
    }

    /// Returns a slot.
    pub fn release(&mut self)
        requires
            old(self).free() < usize::MAX,
        ensures
            final(self).free() == old(self).free() + 1,
    {
        self.available = self.available + 1;
    }
}

/// A token's outcome after one more result came in.
pub open spec fn settled_with(
    outcome: Option<Result<(), FlushError>>,
    result: Result<(), FlushError>,
) -> Option<Result<(), FlushError>> {
    if outcome is None {
        Some(result)
    } else {
        outcome
    }
}

/// Cell that one durability token waits on.
#[derive(Debug, Clone, Copy, PartialEq, Eq)]
pub struct TokenState {
    result: Option<Result<(), FlushError>>,
}

impl TokenState {
    /// The outcome recorded, if any.
    pub closed spec fn outcome(&self) -> Option<Result<(), FlushError>> {
        self.result
    }

    /// Builds a cell without an outcome.
    pub fn new() -> (cell: Self)
        ensures
            cell.outcome() is None,
    {
        TokenState { result: None }
    }

    /// Settles the token, keeping the first outcome recorded; true when this one was the first.
    pub fn complete(&mut self, result: Result<(), FlushError>) -> (first: bool)
        ensures
            first == (old(self).outcome() is None),
            final(self).outcome() == settled_with(old(self).outcome(), result),
            first ==> final(self).outcome() == Some(result),
            !first ==> final(self).outcome() == old(self).outcome(),
    {
        if self.result.is_none() {
            self.result = Some(result);
            true
        } else {
            false
        }
    }

    /// Reads the flush outcome, if it has completed.
    pub fn try_result(&self) -> (outcome: Option<Result<(), FlushError>>)
        ensures
            outcome == self.outcome(),
    {
        self.result
    }
}

/// What the flusher has on record: the cursor a reopen would recover, and whether a commit
/// failed.
#[derive(Debug, Clone, Copy, PartialEq, Eq, Structural)]
pub struct FlushLedger {
    /// Cursor a reopen of the store would recover.
    pub durable_cursor: Option<Position>,
    /// True once a commit failed.
    pub poisoned: bool,
}

impl FlushLedger {
    /// Starts from what the store holds.
    pub fn new(durable_cursor: Option<Position>) -> (ledger: Self)
        ensures
            ledger == (FlushLedger { durable_cursor, poisoned: false }),
    {
        FlushLedger { durable_cursor, poisoned: false }
    }

    /// Refuses further snapshots once a prior flush failed.
    pub fn accept(&self) -> (result: Result<(), FlushError>)
        ensures
            match result {
                Ok(()) => !self.poisoned,
                Err(error) => self.poisoned && error == FlushError::Closed,
            },
    {
        if self.poisoned {
            Err(FlushError::Closed)
        } else {
            Ok(())
        }
    }

    /// Notes how a commit went. A commit supersedes whatever the store held, so the watermark
    /// tracks it down as well as up and always names what a reopen recovers.
    pub fn settle(&mut self, result: Result<(), StoreError>, committed: Option<Position>) -> (
        outcome: Result<(), FlushError>)
        ensures
            match result {
                Ok(()) => {
                    &&& outcome is Ok
                    &&& *final(self) == (FlushLedger {
                        durable_cursor: committed,
                        poisoned: old(self).poisoned,
                    })
                },
                Err(error) => {
                    &&& outcome == Err::<(), _>(flush_error(error))
                    &&& outcome == Err::<(), _>(
                        match error {
                            StoreError::Io(fault) => FlushError::Io { kind: fault.kind },
                            StoreError::Poisoned => FlushError::Closed,
                            _ => FlushError::Corrupt,
                        },
                    )
                    &&& *final(self) == (FlushLedger { poisoned: true, ..*old(self) })
                },
            },
    {
        match result {
            Ok(()) => {
                self.durable_cursor = committed;
                Ok(())
            },
            Err(error) => {
                self.poisoned = true;
                Err(FlushError::from(error))
            },
        }
    }
}

/// Commits one job unless a prior one failed; None leaves its token to be closed.
pub fn flush_job<V: Vfs>(
    store: &mut SnapshotStore<V>,
    ledger: &mut FlushLedger,
    snapshot: &[u8],
    cursor: Option<Position>,
) -> (outcome: Option<Result<(), FlushError>>)
    requires
        old(store).wf(),
        !old(ledger).poisoned && !old(store).state().poisoned ==> store::version_of(
            old(store).state(),
        ) < u64::MAX,
    ensures
        final(store).wf(),
        if old(ledger).poisoned {
            &&& outcome is None
            &&& *final(ledger) == *old(ledger)
            &&& final(store).state() == old(store).state()
            &&& final(store).disk() == old(store).disk()
        } else if old(store).state().poisoned {
            &&& outcome == Some(Err::<(), _>(FlushError::Closed))
            &&& *final(ledger) == (FlushLedger { poisoned: true, ..*old(ledger) })
            &&& final(store).state() == old(store).state()
            &&& final(store).disk() == old(store).disk()
        } else {
            exists|log: Seq<Exchange<V>>, result: Result<(), StoreError>|
                vfs::logged(old(store).disk(), log, final(store).disk())
                    && #[trigger] store::committed_by(
                    old(store).state(),
                    snapshot@,
                    cursor,
                    log,
                    final(store).state(),
                    result,
                ) && match result {
                    Ok(()) => {
                        &&& outcome matches Some(Ok(()))
                        &&& *final(ledger) == (FlushLedger {
                            durable_cursor: cursor,
                            poisoned: false,
                        })
                    },
                    Err(error) => {
                        &&& outcome == Some(Err::<(), _>(flush_error(error)))
                        &&& *final(ledger) == (FlushLedger { poisoned: true, ..*old(ledger) })
                    },
                }
        },
{
    if ledger.poisoned {
        return None;
    }
    let ghost before = store.state();
    let ghost start = store.disk();
    let result = store.commit(snapshot, cursor);
    let ghost log = choose|log: Seq<Exchange<V>>|
        vfs::logged(start, log, store.disk()) && #[trigger] store::committed_by(
            before,
            snapshot@,
            cursor,
            log,
            store.state(),
            result,
        );
    let outcome = ledger.settle(result, store.durable_cursor());
    Some(outcome)
}

/// Encodes the oldest retained checkpoint for the queue; None when there is nothing to persist.
pub fn durable_offer<F: Persist>(engine: &Engine<F>) -> (result: Result<
    Option<(Vec<u8>, Position)>,
    DurabilityLost,
>)
    requires
        engine.wf(),
    ensures
        match checkpoint::oldest_live(engine.state().slots, engine.state().window) {
            Some(slot) if slot.cursor is Some => {
                let envelope = snapshot::sealed(
                    slot.fold,
                    slot.cursor,
                    ring::at_or_below(engine.state().window, slot.cursor->0.block),
                );
                let payload = snapshot_model::envelope_bytes(envelope);
                if snapshot_model::fits(envelope) {
                    &&& result matches Ok(Some((bytes, point)))
                    &&& bytes@ == snapshot::framed(payload, checksum::crc32c_of(payload))
                    &&& Some(point) == slot.cursor
                } else {
                    result is Err
                }
            },
            _ => result matches Ok(None),
        },
        forall|k: int, block: u64| #[trigger]
            driver_laws::durable_at(engine.state(), k, block) ==> match result {
                Ok(Some((_, point))) => engine.state().slots[k]->0.cursor == Some(point),
                Ok(None) => false,
                Err(_) => true,
            },
        (forall|k: int, block: u64| !#[trigger] driver_laws::durable_at(engine.state(), k, block))
            ==> result matches Ok(None),
{
    proof {
        batch_laws::lemma_durable_block(engine.state());
    }
    let mut bytes: Vec<u8> = Vec::new();
    let encoded = engine.encode_durable_snapshot(&mut bytes);
    match encoded {
        Ok(None) => Ok(None),
        Ok(Some(point)) => {
            proof {
                let slot = checkpoint::oldest_live(
                    engine.state().slots,
                    engine.state().window,
                )->0;
                let payload = snapshot_model::envelope_bytes(
                    snapshot::sealed(
                        slot.fold,
                        slot.cursor,
                        ring::at_or_below(engine.state().window, slot.cursor->0.block),
                    ),
                );
                assert(bytes@ =~= snapshot::framed(payload, checksum::crc32c_of(payload)));
            }
            Ok(Some((bytes, point)))
        },
        Err(_) => Err(DurabilityLost),
    }
}

/// The first outcome recorded for a token is the one it keeps.
pub proof fn law_first_outcome_wins(
    before: Option<Result<(), FlushError>>,
    first: Result<(), FlushError>,
    second: Result<(), FlushError>,
)
    ensures
        settled_with(settled_with(before, first), second) == settled_with(before, first),
{
}

} // verus!
