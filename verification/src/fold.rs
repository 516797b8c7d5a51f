//! The consumer state machine that events are folded into.
use vstd::prelude::*;

use crate::error::FoldError;
use crate::position::Position;

verus! {

/// Consumer state machine folding events at strictly increasing positions.
pub trait Fold: Sized {
    /// Event the fold consumes.
    type Event;

    /// Failure the fold classifies as skip, halt, or poison.
    type Error;

    /// What a reader sees of the state.
    type View;

    /// The steps this state machine may take; any, unless it says more.
    open spec fn folds(
        before: Self,
        pos: Position,
        event: Self::Event,
        after: Self,
        outcome: Result<(), FoldError<Self::Error>>,
    ) -> bool {
        true
    }

    /// The views that show this state; any, unless it says more.
    open spec fn shows(&self, view: Self::View) -> bool {
        true
    }

    /// Folds one event into the state at a strictly increasing position.
    fn apply(&mut self, pos: Position, event: &Self::Event) -> (outcome: Result<
        (),
        FoldError<Self::Error>,
    >)
        ensures
            Self::folds(*old(self), pos, *event, *final(self), outcome),
    ;

    /// Reads the state.
    fn view(&self) -> (view: Self::View)
        ensures
            self.shows(view),
    ;
}

} // verus!
