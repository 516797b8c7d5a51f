//! What a loop around a driver decides between ticks.
use vstd::prelude::*;

use crate::delay::Delay;
use crate::driver::DriverStatus;
use crate::position::Position;

verus! {

/// Pending checkpoint requests and the stop signal shared with the loop thread.
#[derive(Debug, Clone, Copy, PartialEq, Eq, Structural)]
pub struct HarnessState {
    /// Checkpoints asked for since the loop last looked.
    pub checkpoint_requests: u64,
    /// True once the loop is asked to end.
    pub stop: bool,
}

/// What the loop does after a tick.
#[derive(Debug, Clone, Copy, PartialEq, Eq, Structural)]
pub enum Next {
    /// End the loop.
    Stop,
    /// Tick again at once.
    Again,
    /// Wait so long, or until a request or the stop signal comes.
    Wait(Delay),
}

impl HarnessState {
    /// Starts without requests.
    pub fn new() -> (state: Self)
        ensures
            state == (HarnessState { checkpoint_requests: 0, stop: false }),
    {
        HarnessState { checkpoint_requests: 0, stop: false }
    }

    /// Asks the loop to checkpoint before its next tick.
    pub fn request_checkpoint(&mut self)
        ensures
            *final(self) == (HarnessState {
                checkpoint_requests: if old(self).checkpoint_requests == u64::MAX {
                    u64::MAX
                } else {
                    (old(self).checkpoint_requests + 1) as u64
                },
                ..*old(self)
            }),
    {
        self.checkpoint_requests = self.checkpoint_requests.saturating_add(1);
    }

    /// Takes the pending requests; they coalesce into one checkpoint, keeping the K slots at
    /// K cursors.
    pub fn take_requests(&mut self) -> (wanted: bool)
        ensures
            wanted == (old(self).checkpoint_requests > 0),
            *final(self) == (HarnessState { checkpoint_requests: 0, ..*old(self) }),
    {
        let wanted = self.checkpoint_requests > 0;
        self.checkpoint_requests = 0;
        wanted
    }

    /// Asks the loop to end.
    pub fn request_stop(&mut self)
        ensures
            *final(self) == (HarnessState { stop: true, ..*old(self) }),
    {
        self.stop = true;
    }

    /// True while a waiting loop has nothing to wake for.
    pub fn is_quiet(&self) -> (quiet: bool)
        ensures
            quiet == (!self.stop && self.checkpoint_requests == 0),
    {
        !self.stop && self.checkpoint_requests == 0
    }

    /// Decides what follows a tick: a terminal driver or the stop signal ends the loop, a
    /// catch-up tick asks for no delay.
    pub fn after_tick(&self, status: &DriverStatus, delay: Delay) -> (next: Next)
        ensures
            next == (if !(status.engine is Active) || self.stop {
                Next::Stop
            } else if delay.nanos == 0 {
                Next::Again
            } else {
                Next::Wait(delay)
            }),
    {
        if status.is_terminal() || self.stop {
            Next::Stop
        } else if delay.is_zero() {
            Next::Again
        } else {
            Next::Wait(delay)
        }
    }
}

/// True when a position is at or past another.
pub open spec fn reached(cursor: Option<Position>, pos: Position) -> bool {
    cursor matches Some(cursor) && pos.at_or_before(cursor)
}

fn has_reached(cursor: Option<Position>, pos: Position) -> (yes: bool)
    ensures
        yes == reached(cursor, pos),
{
    match cursor {
        Some(cursor) => pos.is_at_or_before(&cursor),
        None => false,
    }
}

/// True when a wait for the tip ends: caught up or terminal.
pub fn caught_up_settles(status: &DriverStatus) -> (yes: bool)
    ensures
        yes == (status.caught_up || !(status.engine is Active)),
{
    status.caught_up || status.is_terminal()
}

/// True when a wait for the cursor ends: it reached `pos`, or the driver is terminal.
pub fn past_settles(status: &DriverStatus, pos: Position) -> (yes: bool)
    ensures
        yes == (!(status.engine is Active) || reached(status.cursor, pos)),
        yes == (!(status.engine is Active) || (status.cursor matches Some(at) && (pos.block
            < at.block || (pos.block == at.block && pos.log_index <= at.log_index)))),
{
    status.is_terminal() || has_reached(status.cursor, pos)
}

/// True when a wait for durability ends: the durable cursor reached `pos`, or the driver is
/// terminal.
pub fn durable_settles(status: &DriverStatus, pos: Position) -> (yes: bool)
    ensures
        yes == (!(status.engine is Active) || reached(status.durable_cursor, pos)),
        yes == (!(status.engine is Active) || (status.durable_cursor matches Some(at) && (pos.block
            < at.block || (pos.block == at.block && pos.log_index <= at.log_index)))),
{
    status.is_terminal() || has_reached(status.durable_cursor, pos)
}

} // verus!
