//! A chain as a source serves it, and what scanning it finds.
use vstd::prelude::*;

use crate::driver_model;
use crate::engine_model;
use crate::engine_model::Entry;
use crate::position::{BlockRef, Position};
use crate::source;
use crate::source::{Asked, Source, SourceCall, SourceReply};

verus! {

/// One chain, as far as a source serves it.
pub struct Chain<E> {
    /// Highest block.
    pub head: u64,
    /// Header of each block on the chain.
    pub headers: Map<u64, BlockRef>,
    /// Every event, in chain order.
    pub events: Seq<(BlockRef, u32, E)>,
}

/// The header of a block, if it is on the chain.
pub open spec fn header_at<E>(chain: Chain<E>, number: u64) -> Option<BlockRef> {
    if chain.headers.dom().contains(number) {
        Some(chain.headers[number])
    } else {
        None
    }
}

/// Strict chain order of events.
pub open spec fn key_lt<E>(a: (BlockRef, u32, E), b: (BlockRef, u32, E)) -> bool {
    a.0.number < b.0.number || (a.0.number == b.0.number && a.1 < b.1)
}

/// True when events ascend in chain order.
pub open spec fn sorted<E>(events: Seq<(BlockRef, u32, E)>) -> bool {
    forall|i: int, j: int|
        0 <= i < j < events.len() ==> key_lt(#[trigger] events[i], #[trigger] events[j])
}

/// Headers carry their own number, events ascend, each under its block's header, and none lies
/// above the highest block.
pub open spec fn sound<E>(chain: Chain<E>) -> bool {
    &&& forall|number: u64| #[trigger]
        chain.headers.dom().contains(number) ==> chain.headers[number].number == number
    &&& forall|i: int|
        0 <= i < chain.events.len() ==> header_at(chain, (#[trigger] chain.events[i]).0.number)
            == Some(chain.events[i].0) && chain.events[i].0.number <= chain.head
    &&& sorted(chain.events)
}

/// The events of blocks `low` to `high`.
pub open spec fn between<E>(events: Seq<(BlockRef, u32, E)>, low: int, high: int) -> Seq<
    (BlockRef, u32, E),
> {
    events.filter(|event: (BlockRef, u32, E)| low <= event.0.number <= high)
}

/// An event with its place.
pub open spec fn entry_of<E>(event: (BlockRef, u32, E)) -> Entry<E> {
    Entry {
        block: event.0,
        pos: Position { block: event.0.number, log_index: event.1 as u64 },
        event: event.2,
    }
}

/// Events with their places.
pub open spec fn entries<E>(events: Seq<(BlockRef, u32, E)>) -> Seq<Entry<E>> {
    events.map_values(|event: (BlockRef, u32, E)| entry_of(event))
}

/// The events of blocks `low` to `high` with their places.
pub open spec fn entries_between<E>(chain: Chain<E>, low: int, high: int) -> Seq<Entry<E>> {
    entries(between(chain.events, low, high))
}

/// Hashes commit to ancestry: chains that share a header share everything up to it.
pub open spec fn commits<E>(a: Chain<E>, b: Chain<E>) -> bool {
    forall|number: u64|
        (#[trigger] header_at(a, number)) is Some && header_at(a, number) == header_at(b, number)
            ==> {
            &&& forall|below: u64|
                below <= number ==> #[trigger] header_at(a, below) == header_at(b, below)
            &&& between(a.events, 0, number as int) == between(b.events, 0, number as int)
        }
}

/// True for an answer that tells of the chain, or of a failure; the events of a range may come
/// in any order.
pub open spec fn tells<E, X>(
    chain: Chain<E>,
    call: SourceCall<E>,
    reply: SourceReply<E, X>,
) -> bool {
    match reply {
        SourceReply::Failed(_) => true,
        SourceReply::Head(head) => call is Head ==> head == chain.head,
        SourceReply::Header(header) => call matches SourceCall::HeaderAt(number) ==> header
            == header_at(chain, number),
        SourceReply::Events(events) => call matches SourceCall::EventsIn { from, to, given }
            ==> given.len() == 0 ==> driver_model::arranged(
            events,
            between(chain.events, from as int, to as int),
        ),
    }
}

/// Every answer of a source tells of the chain it is on, and leaves it there.
pub open spec fn answers_from<S: Source>(chain_of: spec_fn(S) -> Chain<S::Event>) -> bool {
    forall|
        before: S,
        call: SourceCall<S::Event>,
        after: S,
        reply: SourceReply<S::Event, S::Error>,
    | #[trigger]
        S::answers(before, call, after, reply) ==> chain_of(after) == chain_of(before) && tells(
            chain_of(before),
            call,
            reply,
        )
}

/// What picking a range keeps: the order, all of the range, and nothing else.
pub proof fn lemma_between<E>(events: Seq<(BlockRef, u32, E)>, low: int, high: int)
    requires
        sorted(events),
    ensures
        sorted(between(events, low, high)),
        forall|i: int|
            0 <= i < between(events, low, high).len() ==> {
                let event = #[trigger] between(events, low, high)[i];
                low <= event.0.number <= high && events.contains(event)
            },
        forall|k: int|
            0 <= k < events.len() && low <= (#[trigger] events[k]).0.number <= high
                ==> between(events, low, high).contains(events[k]),
    decreases events.len(),
{
    reveal(Seq::filter);
    let picked = between(events, low, high);
    if events.len() > 0 {
        let rest = events.drop_last();
        let last = events[events.len() - 1];
        assert forall|i: int, j: int| 0 <= i < j < rest.len() implies key_lt(
            #[trigger] rest[i],
            #[trigger] rest[j],
        ) by {
            assert(rest[i] == events[i] && rest[j] == events[j]);
        }
        lemma_between(rest, low, high);
        let fewer = between(rest, low, high);
        let joins = low <= last.0.number <= high;
        assert(picked == if joins {
            fewer.push(last)
        } else {
            fewer
        });
        assert forall|i: int| 0 <= i < fewer.len() implies {
            let event = #[trigger] fewer[i];
            events.contains(event) && key_lt(event, last)
        } by {
            let k = choose|k: int| 0 <= k < rest.len() && rest[k] == fewer[i];
            assert(events[k] == fewer[i]);
            assert(key_lt(events[k], events[events.len() - 1]));
        }
        assert forall|i: int, j: int| 0 <= i < j < picked.len() implies key_lt(
            #[trigger] picked[i],
            #[trigger] picked[j],
        ) by {
            assert(picked[i] == fewer[i]);
            if j < fewer.len() {
                assert(picked[j] == fewer[j]);
            }
        }
        assert forall|i: int| 0 <= i < picked.len() implies {
            let event = #[trigger] picked[i];
            low <= event.0.number <= high && events.contains(event)
        } by {
            if i < fewer.len() {
                assert(picked[i] == fewer[i]);
            } else {
                assert(events[events.len() - 1] == picked[i]);
            }
        }
        assert forall|k: int|
            0 <= k < events.len() && low <= (#[trigger] events[k]).0.number
                <= high implies picked.contains(events[k]) by {
            if k < rest.len() {
                assert(rest[k] == events[k]);
                let i = choose|i: int| 0 <= i < fewer.len() && fewer[i] == rest[k];
                assert(picked[i] == events[k]);
            } else {
                assert(picked[picked.len() - 1] == events[k]);
            }
        }
    }
}

/// A range is its lower part and then its upper part.
pub proof fn lemma_split_range<E>(
    events: Seq<(BlockRef, u32, E)>,
    low: int,
    mid: int,
    high: int,
)
    requires
        sorted(events),
        low - 1 <= mid <= high,
    ensures
        between(events, low, high) == between(events, low, mid) + between(events, mid + 1, high),
    decreases events.len(),
{
    reveal(Seq::filter);
    if events.len() == 0 {
        assert(between(events, low, high) =~= between(events, low, mid) + between(
            events,
            mid + 1,
            high,
        ));
    } else {
        let rest = events.drop_last();
        let last = events[events.len() - 1];
        assert forall|i: int, j: int| 0 <= i < j < rest.len() implies key_lt(
            #[trigger] rest[i],
            #[trigger] rest[j],
        ) by {
            assert(rest[i] == events[i] && rest[j] == events[j]);
        }
        lemma_split_range(rest, low, mid, high);
        let number = last.0.number;
        if low <= number <= mid {
            let keep = |event: (BlockRef, u32, E)| mid + 1 <= event.0.number <= high;
            assert forall|i: int| 0 <= i < rest.len() implies !keep(#[trigger] rest[i]) by {
                assert(rest[i] == events[i]);
                assert(key_lt(events[i], events[events.len() - 1]));
            }
            engine_model::lemma_filter_none(rest, keep);
            assert(between(rest, mid + 1, high).len() == 0);
            assert(between(events, mid + 1, high).len() == 0);
            assert(between(events, low, mid) == between(rest, low, mid).push(last));
        }
        assert(between(events, low, high) =~= between(events, low, mid) + between(
            events,
            mid + 1,
            high,
        ));
    }
}

/// Picking a range of a wider range is picking it of the whole.
pub proof fn lemma_range_of_range<E>(
    events: Seq<(BlockRef, u32, E)>,
    low: int,
    high: int,
    top: int,
)
    requires
        0 <= low,
        high <= top,
    ensures
        between(between(events, 0, top), low, high) == between(events, low, high),
    decreases events.len(),
{
    reveal(Seq::filter);
    if events.len() > 0 {
        let rest = events.drop_last();
        lemma_range_of_range(rest, low, high, top);
        let wide = between(rest, 0, top);
        let last = events[events.len() - 1];
        if 0 <= last.0.number <= top {
            assert(between(events, 0, top) == wide.push(last));
            assert(wide.push(last).drop_last() =~= wide);
        }
    }
}

/// An empty range has no events in any part of it.
pub proof fn lemma_empty_part<E>(
    events: Seq<(BlockRef, u32, E)>,
    low: int,
    high: int,
    part_low: int,
    part_high: int,
)
    requires
        sorted(events),
        between(events, low, high).len() == 0,
        low <= part_low,
        part_high <= high,
    ensures
        between(events, part_low, part_high) == Seq::<(BlockRef, u32, E)>::empty(),
{
    lemma_between(events, low, high);
    lemma_between(events, part_low, part_high);
    let part = between(events, part_low, part_high);
    if part.len() > 0 {
        let event = part[0];
        let k = choose|k: int| 0 <= k < events.len() && events[k] == event;
        assert(between(events, low, high).contains(events[k]));
        assert(false);
    }
    assert(part =~= Seq::<(BlockRef, u32, E)>::empty());
}

/// A range ends where its last event lies.
pub proof fn lemma_range_ends<E>(events: Seq<(BlockRef, u32, E)>, low: int, high: int)
    requires
        sorted(events),
        between(events, low, high).len() > 0,
    ensures
        ({
            let number = between(events, low, high).last().0.number as int;
            low <= number <= high && between(events, low, number) == between(events, low, high)
        }),
{
    lemma_between(events, low, high);
    let range = between(events, low, high);
    let last = range[range.len() - 1];
    let number = last.0.number as int;
    lemma_split_range(events, low, number, high);
    lemma_between(events, number + 1, high);
    let rest = between(events, number + 1, high);
    if rest.len() > 0 {
        assert(range[range.len() - 1] == rest[rest.len() - 1]);
        assert(false);
    }
    assert(between(events, low, number) + rest =~= between(events, low, number));
}

/// A filter keeps what its last value passes.
proof fn lemma_with_key_last<E>(events: Seq<(BlockRef, u32, E)>)
    requires
        events.len() > 0,
    ensures
        ({
            let last = events.last();
            let picked = driver_model::with_key(events, last.0.number, last.1);
            picked.len() > 0 && picked.last() == last
        }),
{
    reveal(Seq::filter);
}

/// A key with entries is the key of one of them.
proof fn lemma_with_key_found<E>(
    events: Seq<(BlockRef, u32, E)>,
    number: u64,
    log_index: u32,
)
    requires
        driver_model::with_key(events, number, log_index).len() > 0,
    ensures
        exists|i: int|
            0 <= i < events.len() && driver_model::key_is(#[trigger] events[i], number, log_index),
    decreases events.len(),
{
    reveal(Seq::filter);
    if events.len() > 0 {
        if !driver_model::key_is(events.last(), number, log_index) {
            let rest = events.drop_last();
            lemma_with_key_found(rest, number, log_index);
            let i = choose|i: int|
                0 <= i < rest.len() && driver_model::key_is(#[trigger] rest[i], number, log_index);
            assert(events[i] == rest[i]);
        } else {
            assert(events[events.len() - 1] == events.last());
        }
    }
}

/// Two arrangements of the same entries are one.
pub proof fn lemma_one_arrangement<E>(
    a: Seq<(BlockRef, u32, E)>,
    b: Seq<(BlockRef, u32, E)>,
)
    requires
        a.len() == b.len(),
        forall|i: int, j: int|
            0 <= i <= j < a.len() ==> driver_model::key_le(#[trigger] a[i], #[trigger] a[j]),
        forall|i: int, j: int|
            0 <= i <= j < b.len() ==> driver_model::key_le(#[trigger] b[i], #[trigger] b[j]),
        forall|number: u64, log_index: u32| #[trigger]
            driver_model::with_key(a, number, log_index) == driver_model::with_key(
                b,
                number,
                log_index,
            ),
    ensures
        a == b,
    decreases a.len(),
{
    reveal(Seq::filter);
    if a.len() > 0 {
        let x = a[a.len() - 1];
        let y = b[b.len() - 1];
        lemma_with_key_last(a);
        lemma_with_key_last(b);
        lemma_with_key_found(b, x.0.number, x.1);
        lemma_with_key_found(a, y.0.number, y.1);
        let i = choose|i: int|
            0 <= i < b.len() && driver_model::key_is(#[trigger] b[i], x.0.number, x.1);
        let j = choose|j: int|
            0 <= j < a.len() && driver_model::key_is(#[trigger] a[j], y.0.number, y.1);
        assert(driver_model::key_le(b[i], b[b.len() - 1]));
        assert(driver_model::key_le(a[j], a[a.len() - 1]));
        assert(x.0.number == y.0.number && x.1 == y.1);
        assert(x == y);
        let c = a.drop_last();
        let d = b.drop_last();
        assert forall|number: u64, log_index: u32| #[trigger]
            driver_model::with_key(c, number, log_index) == driver_model::with_key(
                d,
                number,
                log_index,
            ) by {
            let all = driver_model::with_key(a, number, log_index);
            assert(all == driver_model::with_key(b, number, log_index));
            if driver_model::key_is(x, number, log_index) {
                assert(driver_model::with_key(c, number, log_index) =~= all.drop_last());
                assert(driver_model::with_key(d, number, log_index) =~= all.drop_last());
            }
        }
        assert forall|i: int, j: int| 0 <= i <= j < c.len() implies driver_model::key_le(
            #[trigger] c[i],
            #[trigger] c[j],
        ) by {
            assert(c[i] == a[i] && c[j] == a[j]);
        }
        assert forall|i: int, j: int| 0 <= i <= j < d.len() implies driver_model::key_le(
            #[trigger] d[i],
            #[trigger] d[j],
        ) by {
            assert(d[i] == b[i] && d[j] == b[j]);
        }
        lemma_one_arrangement(c, d);
        assert(a =~= c.push(x));
        assert(b =~= d.push(y));
    } else {
        assert(a =~= b);
    }
}

/// Sorting the answer on a range gives the range.
pub proof fn lemma_sorted_answer<E>(
    answer: Seq<(BlockRef, u32, E)>,
    range: Seq<(BlockRef, u32, E)>,
    arranged: Seq<(BlockRef, u32, E)>,
)
    requires
        driver_model::arranged(answer, range),
        driver_model::arranged(answer, arranged),
    ensures
        arranged == range,
{
    assert forall|number: u64, log_index: u32| #[trigger]
        driver_model::with_key(arranged, number, log_index) == driver_model::with_key(
            range,
            number,
            log_index,
        ) by {
        assert(driver_model::with_key(answer, number, log_index) == driver_model::with_key(
            range,
            number,
            log_index,
        ));
    }
    lemma_one_arrangement(arranged, range);
}

/// Grouping events by block keeps them all, in order.
pub proof fn lemma_grouped_entries<E>(events: Seq<(BlockRef, u32, E)>)
    requires
        forall|i: int, j: int|
            0 <= i <= j < events.len() && (#[trigger] events[i]).0.number == (
            #[trigger] events[j]).0.number ==> events[i].0 == events[j].0,
    ensures
        engine_model::all_entries(driver_model::grouped(events)) == entries(events),
        driver_model::grouped(events).len() == 0 <==> events.len() == 0,
        events.len() > 0 ==> driver_model::grouped(events).last().block == events.last().0,
    decreases events.len(),
{
    let spans = driver_model::grouped(events);
    if events.len() == 0 {
        assert(engine_model::all_entries(spans) =~= entries(events));
    } else {
        let rest = events.drop_last();
        assert forall|i: int, j: int|
            0 <= i <= j < rest.len() && (#[trigger] rest[i]).0.number == (
            #[trigger] rest[j]).0.number implies rest[i].0 == rest[j].0 by {
            assert(rest[i] == events[i] && rest[j] == events[j]);
        }
        lemma_grouped_entries(rest);
        let fewer = driver_model::grouped(rest);
        let last = events[events.len() - 1];
        assert(entries(events) =~= entries(rest).push(entry_of(last)));
        if fewer.len() > 0 && fewer.last().block.number == last.0.number {
            assert(rest.last() == events[events.len() - 2]);
            assert(events[events.len() - 2].0 == events[events.len() - 1].0);
            assert(spans.drop_last() =~= fewer.drop_last());
            let old = engine_model::entries_of(fewer.last());
            let new = engine_model::entries_of(spans.last());
            assert(new =~= old.push(entry_of(last)));
            assert(engine_model::all_entries(fewer) == engine_model::all_entries(
                fewer.drop_last(),
            ) + old);
            assert(engine_model::all_entries(spans) =~= engine_model::all_entries(fewer).push(
                entry_of(last),
            ));
        } else {
            assert(spans.drop_last() =~= fewer);
            assert(engine_model::entries_of(spans.last()) =~= seq![entry_of(last)]);
            assert(engine_model::all_entries(spans) =~= engine_model::all_entries(fewer).push(
                entry_of(last),
            ));
        }
    }
}

/// A source stays on its chain while it answers, and every answer tells of it.
pub proof fn lemma_stays_on_chain<S: Source>(
    chain_of: spec_fn(S) -> Chain<S::Event>,
    start: S,
    log: Seq<Asked<S>>,
    end: S,
    at: int,
)
    requires
        answers_from(chain_of),
        source::asked(start, log, end),
        0 <= at <= log.len(),
    ensures
        chain_of(source::source_before(start, log, at)) == chain_of(start),
        at < log.len() ==> tells(chain_of(start), log[at].call, log[at].reply),
    decreases at,
{
    if at > 0 {
        lemma_stays_on_chain(chain_of, start, log, end, at - 1);
        assert(S::answers(
            source::source_before(start, log, at - 1),
            log[at - 1].call,
            log[at - 1].after,
            log[at - 1].reply,
        ));
    }
    if at < log.len() {
        assert(S::answers(
            source::source_before(start, log, at),
            log[at].call,
            log[at].after,
            log[at].reply,
        ));
    }
}

/// True when a scan from `from` found the events up to block `to`, all of them when there are
/// none.
pub open spec fn reaches<E>(
    chain: Chain<E>,
    from: u64,
    found: Seq<(BlockRef, u32, E)>,
    to: int,
) -> bool {
    &&& from - 1 <= to
    &&& driver_model::arranged(found, between(chain.events, from as int, to))
    &&& found.len() == 0 ==> to >= chain.head
}

/// What sweeping ranges of a chain finds.
pub proof fn lemma_sweep_reaches<S: Source>(
    chain_of: spec_fn(S) -> Chain<S::Event>,
    start: S,
    log: Seq<Asked<S>>,
    end: S,
    at: int,
    from: u64,
    window: u64,
    mark: Option<u64>,
) -> (to: int)
    requires
        answers_from(chain_of),
        sound(chain_of(start)),
        source::asked(start, log, end),
        0 <= at,
        0 < window,
        driver_model::sweep(log, at, from, chain_of(start).head, window, mark) matches Some(swept)
            && !swept.failed,
    ensures
        reaches(
            chain_of(start),
            from,
            driver_model::sweep(log, at, from, chain_of(start).head, window, mark)->0.entries,
            to,
        ),
    decreases log.len() - at,
{
    let chain = chain_of(start);
    let head = chain.head;
    let none = Seq::<(BlockRef, u32, S::Event)>::empty();
    if from > head {
        let to = from - 1;
        let range = between(chain.events, from as int, to);
        lemma_between(chain.events, from as int, to);
        if range.len() > 0 {
            assert(from <= range[0].0.number <= to);
        }
        assert(range =~= none);
        to
    } else {
        let to = driver_model::least(head, driver_model::plus(from, (window - 1) as u64));
        lemma_stays_on_chain(chain_of, start, log, end, at);
        let found = log[at].reply->Events_0;
        let range = between(chain.events, from as int, to as int);
        assert(driver_model::arranged(found, range));
        if found.len() > 0 || to == head {
            to as int
        } else {
            let next = (to + 1) as u64;
            let top = lemma_sweep_reaches(
                chain_of,
                start,
                log,
                end,
                at + 1,
                next,
                window,
                Some(to),
            );
            lemma_split_range(chain.events, from as int, to as int, top);
            let rest = between(chain.events, next as int, top);
            assert(range + rest =~= rest);
            top
        }
    }
}

} // verus!
