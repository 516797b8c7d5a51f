//! Random-access event supply over one chain.
use vstd::prelude::*;

use crate::position::BlockRef;

verus! {

/// Blocks per range query. 500 clears the common `eth_getLogs` limits.
pub const DEFAULT_WINDOW: u64 = 500;

/// Oldest position a source can replay from.
#[derive(Debug, Clone, Copy, PartialEq, Eq, Structural)]
pub enum ReplayHorizon {
    /// Source replays the whole chain.
    Genesis,
    /// Source replays only from this block upward.
    FromBlock(u64),
}

/// One question to a source.
pub enum SourceCall<E> {
    /// Which block is the highest.
    Head,
    /// Which header a block has.
    HeaderAt(u64),
    /// Which events a range holds, appended behind those given.
    EventsIn { from: u64, to: u64, given: Seq<(BlockRef, u32, E)> },
}

/// What a source answered.
pub enum SourceReply<E, X> {
    /// The highest block.
    Head(u64),
    /// The header of a block, or none.
    Header(Option<BlockRef>),
    /// The events given and appended.
    Events(Seq<(BlockRef, u32, E)>),
    /// It failed.
    Failed(X),
}

/// The reply on the highest block.
pub open spec fn head_reply<E, X>(result: Result<u64, X>) -> SourceReply<E, X> {
    match result {
        Ok(number) => SourceReply::Head(number),
        Err(error) => SourceReply::Failed(error),
    }
}

/// The reply on a header.
pub open spec fn header_reply<E, X>(result: Result<Option<BlockRef>, X>) -> SourceReply<E, X> {
    match result {
        Ok(header) => SourceReply::Header(header),
        Err(error) => SourceReply::Failed(error),
    }
}

/// The reply on the events of a range.
pub open spec fn events_reply<E, X>(
    result: Result<(), X>,
    events: Seq<(BlockRef, u32, E)>,
) -> SourceReply<E, X> {
    match result {
        Ok(()) => SourceReply::Events(events),
        Err(error) => SourceReply::Failed(error),
    }
}

/// Random-access event supply over one chain.
pub trait Source: Sized {
    /// Consumer event the source decodes its wire format into.
    type Event;

    /// Failure reading the source.
    type Error;

    /// The answers this source may give, and what they leave it in; any, unless it says more.
    open spec fn answers(
        before: Self,
        call: SourceCall<Self::Event>,
        after: Self,
        reply: SourceReply<Self::Event, Self::Error>,
    ) -> bool {
        true
    }

    /// Highest block this source will serve.
    fn head(&mut self) -> (result: Result<u64, Self::Error>)
        ensures
            Self::answers(
                *old(self),
                SourceCall::Head,
                *final(self),
                head_reply(result),
            ),
    ;

    /// Header of one block, or None when it is not on the current chain.
    fn header_at(&mut self, number: u64) -> (result: Result<Option<BlockRef>, Self::Error>)
        ensures
            Self::answers(
                *old(self),
                SourceCall::HeaderAt(number),
                *final(self),
                header_reply(result),
            ),
    ;

    /// Appends every event in `from..=to`. Any order; the driver sorts and groups.
    fn events_in(
        &mut self,
        from: u64,
        to: u64,
        out: &mut Vec<(BlockRef, u32, Self::Event)>,
    ) -> (result: Result<(), Self::Error>)
        ensures
            Self::answers(
                *old(self),
                SourceCall::EventsIn { from, to, given: old(out)@ },
                *final(self),
                events_reply(result, final(out)@),
            ),
    ;

    /// Oldest block this source can still replay.
    fn horizon(&self) -> (horizon: ReplayHorizon)
        default_ensures
            horizon == ReplayHorizon::Genesis,
    {
        ReplayHorizon::Genesis
    }

    /// Blocks per `events_in` call. Nodes cap the span.
    fn window(&self) -> (window: u64)
        default_ensures
            window == DEFAULT_WINDOW,
    {
        DEFAULT_WINDOW
    }
}

/// True for a horizon that a source reports.
pub open spec fn reports_horizon<S: Source>(source: S, horizon: ReplayHorizon) -> bool {
    call_ensures(S::horizon, (&source,), horizon)
}

/// True for a window that a source asks for.
pub open spec fn reports_window<S: Source>(source: S, window: u64) -> bool {
    call_ensures(S::window, (&source,), window)
}

/// One question with its answer and what it left the source in.
pub struct Asked<S: Source> {
    /// What was asked.
    pub call: SourceCall<S::Event>,
    /// What was answered.
    pub reply: SourceReply<S::Event, S::Error>,
    /// The source afterwards.
    pub after: S,
}

/// The source before question `i` of a log.
pub open spec fn source_before<S: Source>(start: S, log: Seq<Asked<S>>, i: int) -> S {
    if i <= 0 {
        start
    } else {
        log[i - 1].after
    }
}

/// The log records what was asked of a source and what it answered, from `start` to `end`.
pub open spec fn asked<S: Source>(start: S, log: Seq<Asked<S>>, end: S) -> bool {
    &&& source_before(start, log, log.len() as int) == end
    &&& forall|i: int|
        0 <= i < log.len() ==> S::answers(
            source_before(start, log, i),
            (#[trigger] log[i]).call,
            log[i].after,
            log[i].reply,
        )
}

/// One more question extends a log.
pub proof fn lemma_asked_push<S: Source>(
    start: S,
    log: Seq<Asked<S>>,
    middle: S,
    call: SourceCall<S::Event>,
    reply: SourceReply<S::Event, S::Error>,
    end: S,
)
    requires
        asked(start, log, middle),
        S::answers(middle, call, end, reply),
    ensures
        asked(start, log.push(Asked { call, reply, after: end }), end),
{
    let longer = log.push(Asked { call, reply, after: end });
    assert forall|i: int| 0 <= i < longer.len() implies S::answers(
        source_before(start, longer, i),
        (#[trigger] longer[i]).call,
        longer[i].after,
        longer[i].reply,
    ) by {
        assert(source_before(start, longer, i) == source_before(start, log, i));
        if i < log.len() {
            assert(longer[i] == log[i]);
        }
    }
}

} // verus!
