//! Classified failures of the fold, the engine and its configuration.
use vstd::prelude::*;

use crate::batch::BatchShapeError;
use crate::position::{BlockRef, Position};
use crate::text::{push_decimal, push_hex_bytes, Describe};

verus! {

/// Classified fold failure; the variant fixes the engine's recovery obligation.
#[derive(Debug, Clone, Copy, PartialEq, Eq)]
pub enum FoldError<E> {
    /// Event is not mine; engine counts it and advances the cursor.
    Skip(E),
    /// State is clean up to the previous position; recovery is rollback or resync.
    Halt(E),
    /// Apply mutated state partially; state is untrusted until a restore.
    Poison(E),
}

/// Coarse-grained state of the fold engine.
#[derive(Debug, Clone, Copy, PartialEq, Eq, Structural)]
pub enum EngineStatus {
    /// Applying batches and advancing the cursor.
    Active,
    /// Fold refused an event with clean state below it.
    Halted {
        /// Position the fold halted at.
        at: Position,
    },
    /// Fold refused an event after mutating state.
    Poisoned {
        /// Position the fold poisoned at.
        at: Position,
    },
    /// Automated recovery is exhausted; only a reset leaves this state.
    Unrecoverable {
        /// Divergence that ended automated recovery.
        cause: DivergenceCause,
    },
}

impl EngineStatus {
    /// True while the engine still accepts batches.
    pub fn is_active(&self) -> (active: bool)
        ensures
            active == (*self is Active),
    {
        matches!(self, EngineStatus::Active)
    }
}

/// Terminal divergence reason the engine cannot recover from automatically.
#[derive(Debug, Clone, Copy, PartialEq, Eq, Structural)]
pub enum DivergenceCause {
    /// Fork deeper than the oldest observed block in the ring.
    ForkBeyondWindow,
    /// Replay is required but the source's horizon no longer covers the start block.
    HorizonExceeded {
        /// Block replay must start from.
        needed: u64,
        /// Oldest block the source still serves.
        horizon: u64,
    },
    /// Fold view disagreed with the anchor after retries.
    AnchorDivergence {
        /// Block whose anchor comparison failed.
        at: u64,
    },
}

/// Durability sink refused a snapshot offer; persistence has stopped.
#[derive(Debug, Clone, Copy, PartialEq, Eq, Structural)]
pub struct DurabilityLost;

/// Rejected engine construction configuration.
#[derive(Debug, Clone, Copy, PartialEq, Eq, Structural)]
pub enum ConfigError {
    /// Ring capacity is not a power of two.
    RingCapacityNotPowerOfTwo {
        /// Capacity the caller asked for.
        got: usize,
    },
    /// Ring capacity is outside the allowed range.
    RingCapacityOutOfRange {
        /// Capacity the caller asked for.
        got: usize,
    },
    /// Source cannot replay from the configured start block.
    HorizonExceedsStart {
        /// Block the driver folds from.
        start: u64,
        /// Oldest block the source still serves.
        horizon: u64,
    },
}

/// Rejected or failed batch application.
#[derive(Debug, PartialEq, Eq)]
pub enum ApplyError<E> {
    /// Engine is halted, poisoned, or unrecoverable.
    NotActive {
        /// Status that refused the batch.
        status: EngineStatus,
    },
    /// Batch violates the flat layout rules.
    Shape(BatchShapeError),
    /// Cursor is set but the batch carries no boundary header.
    MissingBoundary,
    /// Boundary header names a block other than the cursor block.
    BoundaryNumberMismatch {
        /// Cursor block the boundary must name.
        expected: u64,
        /// Block the boundary named.
        got: u64,
    },
    /// Refetched header disagrees with the observed block of that number.
    ForkSuspected {
        /// Block as the engine observed it.
        observed: BlockRef,
        /// Block as the source refetched it.
        refetched: BlockRef,
    },
    /// Observed ring holds no entry for the cursor block, so no boundary is verifiable.
    CursorBlockUnobserved {
        /// Cursor block absent from the ring.
        block: u64,
    },
    /// Fold halted; state is clean up to the position before `at`.
    Halted {
        /// Position the fold refused.
        at: Position,
        /// Error the fold reported.
        error: E,
    },
    /// Fold poisoned; state is untrusted until a restore.
    Poisoned {
        /// Position the fold refused after mutating.
        at: Position,
        /// Error the fold reported.
        error: E,
    },
}

/// Rejected rollback request.
#[derive(Debug, Clone, Copy, PartialEq, Eq, Structural)]
pub enum RollbackError {
    /// No retained checkpoint sits at or below the requested block.
    NoCheckpointAtOrBelow {
        /// Block the rollback targeted.
        block: u64,
    },
    /// Engine is unrecoverable; only a reset leaves this state.
    Unrecoverable {
        /// Divergence that ended automated recovery.
        cause: DivergenceCause,
    },
}

impl<E: Describe> Describe for FoldError<E> {
    open spec fn text(&self) -> Seq<char> {
        match self {
            FoldError::Skip(error) => "skip: "@ + error.text(),
            FoldError::Halt(error) => "halt: "@ + error.text(),
            FoldError::Poison(error) => "poison: "@ + error.text(),
        }
    }

    fn describe(&self) -> (text: String) {
        let (mut out, error) = match self {
            FoldError::Skip(error) => (String::from_str("skip: "), error),
            FoldError::Halt(error) => (String::from_str("halt: "), error),
            FoldError::Poison(error) => (String::from_str("poison: "), error),
        };
        out.append(error.describe().as_str());
        out
    }
}

/// Block and log index of a position in words.
pub open spec fn place_text(at: Position) -> Seq<char> {
    " at block "@ + decimal_of(at.block) + " log index "@ + decimal_of(at.log_index)
}

/// Decimal digits of a number.
pub open spec fn decimal_of(n: u64) -> Seq<char> {
    crate::text::decimal(n as nat)
}

fn push_place(out: &mut String, at: Position)
    ensures
        final(out)@ == old(out)@ + place_text(at),
{
    out.append(" at block ");
    push_decimal(out, at.block);
    out.append(" log index ");
    push_decimal(out, at.log_index);
    assert(out@ =~= old(out)@ + place_text(at));
}

impl Describe for EngineStatus {
    open spec fn text(&self) -> Seq<char> {
        match self {
            EngineStatus::Active => "active"@,
            EngineStatus::Halted { at } => "halted"@ + place_text(*at),
            EngineStatus::Poisoned { at } => "poisoned"@ + place_text(*at),
            EngineStatus::Unrecoverable { cause } => "unrecoverable: "@ + cause.text(),
        }
    }

    fn describe(&self) -> (text: String) {
        match self {
            EngineStatus::Active => String::from_str("active"),
            EngineStatus::Halted { at } => {
                let mut out = String::from_str("halted");
                push_place(&mut out, *at);
                out
            },
            EngineStatus::Poisoned { at } => {
                let mut out = String::from_str("poisoned");
                push_place(&mut out, *at);
                out
            },
            EngineStatus::Unrecoverable { cause } => {
                let mut out = String::from_str("unrecoverable: ");
                out.append(cause.describe().as_str());
                out
            },
        }
    }
}

impl Describe for DivergenceCause {
    open spec fn text(&self) -> Seq<char> {
        match self {
            DivergenceCause::ForkBeyondWindow => "fork deeper than the observed window"@,
            DivergenceCause::HorizonExceeded { needed, horizon } => "replay needs block "@
                + decimal_of(*needed) + ", source horizon is "@ + decimal_of(*horizon),
            DivergenceCause::AnchorDivergence { at } => "anchor divergence at block "@
                + decimal_of(*at),
        }
    }

    fn describe(&self) -> (text: String) {
        match self {
            DivergenceCause::ForkBeyondWindow => String::from_str(
                "fork deeper than the observed window",
            ),
            DivergenceCause::HorizonExceeded { needed, horizon } => {
                let mut out = String::from_str("replay needs block ");
                push_decimal(&mut out, *needed);
                out.append(", source horizon is ");
                push_decimal(&mut out, *horizon);
                out
            },
            DivergenceCause::AnchorDivergence { at } => {
                let mut out = String::from_str("anchor divergence at block ");
                push_decimal(&mut out, *at);
                out
            },
        }
    }
}

impl Describe for DurabilityLost {
    open spec fn text(&self) -> Seq<char> {
        "durability sink refused a snapshot; snapshots are no longer persisted"@
    }

    fn describe(&self) -> (text: String) {
        String::from_str("durability sink refused a snapshot; snapshots are no longer persisted")
    }
}

impl Describe for ConfigError {
    open spec fn text(&self) -> Seq<char> {
        match self {
            ConfigError::RingCapacityNotPowerOfTwo { got } => "ring capacity "@ + decimal_of(
                *got as u64,
            ) + " is not a power of two"@,
            ConfigError::RingCapacityOutOfRange { got } => "ring capacity "@ + decimal_of(
                *got as u64,
            ) + " is out of the allowed range"@,
            ConfigError::HorizonExceedsStart { start, horizon } => "replay horizon "@ + decimal_of(
                *horizon,
            ) + " exceeds start block "@ + decimal_of(*start),
        }
    }

    fn describe(&self) -> (text: String) {
        match self {
            ConfigError::RingCapacityNotPowerOfTwo { got } => {
                let mut out = String::from_str("ring capacity ");
                push_decimal(&mut out, *got as u64);
                out.append(" is not a power of two");
                out
            },
            ConfigError::RingCapacityOutOfRange { got } => {
                let mut out = String::from_str("ring capacity ");
                push_decimal(&mut out, *got as u64);
                out.append(" is out of the allowed range");
                out
            },
            ConfigError::HorizonExceedsStart { start, horizon } => {
                let mut out = String::from_str("replay horizon ");
                push_decimal(&mut out, *horizon);
                out.append(" exceeds start block ");
                push_decimal(&mut out, *start);
                out
            },
        }
    }
}

impl<E: Describe> Describe for ApplyError<E> {
    open spec fn text(&self) -> Seq<char> {
        match self {
            ApplyError::NotActive { status } => "engine not active: "@ + status.text(),
            ApplyError::Shape(error) => "batch shape invalid: "@ + error.text(),
            ApplyError::MissingBoundary => "cursor is set but the batch carries no boundary"@,
            ApplyError::BoundaryNumberMismatch { expected, got } => "boundary block "@
                + decimal_of(*got) + " does not match cursor block "@ + decimal_of(*expected),
            ApplyError::ForkSuspected { observed, refetched } => "fork suspected at block "@
                + decimal_of(observed.number) + ": observed hash "@ + crate::text::hex_bytes(
                observed.hash@,
            ) + ", refetched hash "@ + crate::text::hex_bytes(refetched.hash@),
            ApplyError::CursorBlockUnobserved { block } =>
            "observed ring holds no entry for cursor block "@ + decimal_of(*block),
            ApplyError::Halted { at, error } => "halted"@ + place_text(*at) + ": "@
                + error.text(),
            ApplyError::Poisoned { at, error } => "poisoned"@ + place_text(*at) + ": "@
                + error.text(),
        }
    }

    fn describe(&self) -> (text: String) {
        match self {
            ApplyError::NotActive { status } => {
                let mut out = String::from_str("engine not active: ");
                out.append(status.describe().as_str());
                out
            },
            ApplyError::Shape(error) => {
                let mut out = String::from_str("batch shape invalid: ");
                out.append(error.describe().as_str());
                out
            },
            ApplyError::MissingBoundary => String::from_str(
                "cursor is set but the batch carries no boundary",
            ),
            ApplyError::BoundaryNumberMismatch { expected, got } => {
                let mut out = String::from_str("boundary block ");
                push_decimal(&mut out, *got);
                out.append(" does not match cursor block ");
                push_decimal(&mut out, *expected);
                out
            },
            ApplyError::ForkSuspected { observed, refetched } => {
                let mut out = String::from_str("fork suspected at block ");
                push_decimal(&mut out, observed.number);
                out.append(": observed hash ");
                push_hex_bytes(&mut out, &observed.hash);
                out.append(", refetched hash ");
                push_hex_bytes(&mut out, &refetched.hash);
                out
            },
            ApplyError::CursorBlockUnobserved { block } => {
                let mut out = String::from_str("observed ring holds no entry for cursor block ");
                push_decimal(&mut out, *block);
                out
            },
            ApplyError::Halted { at, error } => {
                let mut out = String::from_str("halted");
                push_place(&mut out, *at);
                out.append(": ");
                out.append(error.describe().as_str());
                out
            },
            ApplyError::Poisoned { at, error } => {
                let mut out = String::from_str("poisoned");
                push_place(&mut out, *at);
                out.append(": ");
                out.append(error.describe().as_str());
                out
            },
        }
    }
}

impl Describe for RollbackError {
    open spec fn text(&self) -> Seq<char> {
        match self {
            RollbackError::NoCheckpointAtOrBelow { block } =>
            "no retained checkpoint at or below block "@ + decimal_of(*block),
            RollbackError::Unrecoverable { cause } => "unrecoverable: "@ + cause.text(),
        }
    }

    fn describe(&self) -> (text: String) {
        match self {
            RollbackError::NoCheckpointAtOrBelow { block } => {
                let mut out = String::from_str("no retained checkpoint at or below block ");
                push_decimal(&mut out, *block);
                out
            },
            RollbackError::Unrecoverable { cause } => {
                let mut out = String::from_str("unrecoverable: ");
                out.append(cause.describe().as_str());
                out
            },
        }
    }
}

} // verus!
