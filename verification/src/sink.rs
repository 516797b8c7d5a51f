//! Where durable snapshots go.
use vstd::prelude::*;

use crate::engine::Engine;
use crate::engine_model::EngineState;
use crate::error::DurabilityLost;
use crate::fold::Fold;
use crate::position::Position;

verus! {

/// Consumer of durable snapshots.
pub trait SnapshotSink<F: Fold>: Sized {
    /// The replies this sink may give to an offer, and what they leave it in; any, unless it says
    /// more.
    open spec fn offered(
        before: Self,
        engine: EngineState<F>,
        after: Self,
        refused: bool,
    ) -> bool {
        true
    }

    /// The durable cursors this sink may report; any, unless it says more.
    open spec fn reports(&self, cursor: Option<Position>) -> bool {
        true
    }

    /// Takes a snapshot of the engine's durable point, or refuses for good.
    fn offer(&mut self, engine: &Engine<F>) -> (reply: Result<(), DurabilityLost>)
        requires
            engine.wf(),
        ensures
            Self::offered(*old(self), engine.state(), *final(self), reply is Err),
    ;

    /// Cursor a restart would recover; None before the first flush.
    fn durable_cursor(&self) -> (cursor: Option<Position>)
        ensures
            self.reports(cursor),
    ;
}

/// Sink that persists nothing.
#[derive(Debug, Clone, Copy, PartialEq, Eq, Structural)]
pub struct NoSink;

impl<F: Fold> SnapshotSink<F> for NoSink {
    open spec fn offered(
        before: Self,
        engine: EngineState<F>,
        after: Self,
        refused: bool,
    ) -> bool {
        after == before && !refused
    }

    open spec fn reports(&self, cursor: Option<Position>) -> bool {
        cursor is None
    }

    fn offer(&mut self, engine: &Engine<F>) -> (reply: Result<(), DurabilityLost>) {
        Ok(())
    }

    fn durable_cursor(&self) -> (cursor: Option<Position>) {
        None
    }
}

} // verus!
