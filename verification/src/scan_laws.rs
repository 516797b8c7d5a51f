//! What a scan asks of a source and what it reports.
use vstd::prelude::*;

use crate::batch::Span;
use crate::driver::DriverConfig;
use crate::driver_model;
use crate::driver_model::DriverState;
use crate::engine_model;
use crate::engine_model::Entry;
use crate::fold::Fold;
use crate::position::{BlockRef, Position};
use crate::source;
use crate::source::{Asked, Source, SourceCall, SourceReply};

verus! {

/// True for a question about the events of a range: not empty, at most `window` blocks long,
/// not above `head`, and shorter than the window only when it ends there.
pub open spec fn asks_range<E>(call: SourceCall<E>, head: u64, window: u64) -> bool {
    &&& call is EventsIn
    &&& call->given.len() == 0
    &&& call->from <= call->to <= head
    &&& call->to - call->from < window
    &&& call->to < head ==> call->to - call->from == window - 1
}

/// True when questions from `at` on read ranges from `from` upwards, each where the one before
/// it ended, and only the last was answered with events.
pub open spec fn reads_on<S: Source>(
    log: Seq<Asked<S>>,
    at: int,
    from: u64,
    head: u64,
    window: u64,
) -> bool {
    &&& forall|i: int| at <= i < log.len() ==> asks_range((#[trigger] log[i]).call, head, window)
    &&& at < log.len() ==> log[at].call->from == from
    &&& forall|i: int| at < i < log.len() ==> (#[trigger] log[i]).call->from == log[i - 1].call->to + 1
    &&& forall|i: int|
        at <= i < log.len() - 1 ==> ((#[trigger] log[i]).reply matches SourceReply::Events(events)
            && events.len() == 0)
}

proof fn lemma_sweep_reads_on<S: Source>(
    log: Seq<Asked<S>>,
    at: int,
    from: u64,
    head: u64,
    window: u64,
    mark: Option<u64>,
)
    requires
        0 <= at,
        0 < window,
    ensures
        driver_model::sweep(log, at, from, head, window, mark) matches Some(swept) ==> {
            &&& at <= log.len()
            &&& reads_on(log, at, from, head, window)
            &&& at == log.len() ==> from > head && !swept.failed && swept.entries.len() == 0
                && swept.scanned_to == mark
            &&& at < log.len() ==> match log.last().reply {
                SourceReply::Failed(_) => swept.failed && swept.entries.len() == 0
                    && swept.scanned_to == (if at + 1 == log.len() {
                    mark
                } else {
                    Some(log[log.len() - 2].call->to)
                }),
                SourceReply::Events(events) => !swept.failed && swept.entries == events
                    && swept.scanned_to == Some(log.last().call->to) && (events.len() == 0
                    ==> log.last().call->to == head),
                _ => false,
            }
        },
    decreases log.len() - at,
{
    if from <= head && at < log.len() {
        let to = driver_model::least(head, driver_model::plus(from, (window - 1) as u64));
        if log[at].reply is Events && log[at].reply->Events_0.len() == 0 && to != head {
            lemma_sweep_reads_on(log, at + 1, (to + 1) as u64, head, window, Some(to));
            if driver_model::sweep(log, at, from, head, window, mark) is Some {
                if at + 1 == log.len() {
                    assert(false);
                }
            }
        }
    }
}

/// How a scan goes: it asks for the header of the cursor's block, then for the highest block,
/// then for the events of one range after the other until one holds some. The first range
/// starts behind the cursor's block, or behind the last block read if that is lower, or at the
/// start block without a cursor; each further one starts where the last ended. What the scan
/// reports is that header, the events of the last range and the block that range ended at; it
/// fails exactly when the last answer is a failure.
pub proof fn law_scan_reads_range_by_range<S: Source>(
    log: Seq<Asked<S>>,
    cursor: Option<Position>,
    scanned_to: Option<u64>,
    start_block: u64,
    window: u64,
    first: u64,
    asked: int,
)
    requires
        0 < window,
        driver_model::scan_of(log, cursor, scanned_to, start_block, window) is Some,
        cursor matches Some(at) ==> at.block < u64::MAX,
        first == (match cursor {
            None => start_block as int,
            Some(at) => match scanned_to {
                Some(to) => if to < at.block {
                    to + 1
                } else {
                    at.block + 1
                },
                None => at.block + 1,
            },
        }),
        asked == (if cursor is Some {
            1int
        } else {
            0int
        }),
    ensures
        ({
            let scanned = driver_model::scan_of(
                log,
                cursor,
                scanned_to,
                start_block,
                window,
            )->0;
            &&& log.len() > 0
            &&& scanned.failed <==> log.last().reply is Failed
            &&& scanned.failed ==> scanned.entries.len() == 0
            &&& cursor matches Some(at) ==> log[0].call == SourceCall::<S::Event>::HeaderAt(
                at.block,
            )
            &&& !scanned.failed ==> {
                &&& log.len() > asked
                &&& log[asked].call is Head
                &&& log[asked].reply is Head
                &&& reads_on(log, asked + 1, first, log[asked].reply->Head_0, window)
                &&& if cursor is Some {
                    log[0].reply == SourceReply::<S::Event, S::Error>::Header(scanned.boundary)
                } else {
                    scanned.boundary is None
                }
                &&& log.len() == asked + 1 ==> first > log[asked].reply->Head_0
                    && scanned.entries.len() == 0 && scanned.scanned_to == scanned_to
                &&& log.len() > asked + 1 ==> log.last().reply == SourceReply::<
                    S::Event,
                    S::Error,
                >::Events(scanned.entries) && scanned.scanned_to == Some(log.last().call->to) && (
                scanned.entries.len() == 0 ==> log.last().call->to == log[asked].reply->Head_0)
            }
        }),
{
    let from = driver_model::scan_start(cursor, scanned_to, start_block);
    assert(from == first);
    if log.len() > asked && log[asked].reply is Head {
        lemma_sweep_reads_on(
            log,
            asked + 1,
            from,
            log[asked].reply->Head_0,
            window,
            scanned_to,
        );
    }
}

/// Sorting keeps every event and puts those of lower blocks, and within a block those of lower
/// log indices, first; events of one block and index keep the order they came in.
pub proof fn law_arranged_events_are_the_same<E>(
    before: Seq<(BlockRef, u32, E)>,
    after: Seq<(BlockRef, u32, E)>,
    number: u64,
    log_index: u32,
)
    requires
        driver_model::arranged(before, after),
    ensures
        before.len() == after.len(),
        forall|i: int, j: int|
            0 <= i < j < after.len() ==> (#[trigger] after[i]).0.number < (
            #[trigger] after[j]).0.number || (after[i].0.number == after[j].0.number && after[i].1
                <= after[j].1),
        after.filter(
            |entry: (BlockRef, u32, E)| entry.0.number == number && entry.1 == log_index,
        ) == before.filter(
            |entry: (BlockRef, u32, E)| entry.0.number == number && entry.1 == log_index,
        ),
{
    let same = |entry: (BlockRef, u32, E)| entry.0.number == number && entry.1 == log_index;
    let keyed = |entry: (BlockRef, u32, E)| driver_model::key_is(entry, number, log_index);
    assert(same =~= keyed);
    assert(driver_model::with_key(after, number, log_index) == driver_model::with_key(
        before,
        number,
        log_index,
    ));
}

/// Grouping keeps every entry in order, with its number, log index and event. Each block's
/// entries stand under the header that came first with its number, no block is without entries,
/// and neighbouring blocks have different numbers.
pub proof fn law_grouping_keeps_the_entries<E>(entries: Seq<(BlockRef, u32, E)>)
    ensures
        ({
            let spans = driver_model::grouped(entries);
            let listed = engine_model::all_entries(spans);
            &&& listed.len() == entries.len()
            &&& forall|k: int|
                0 <= k < entries.len() ==> {
                    &&& (#[trigger] listed[k]).pos.block == entries[k].0.number
                    &&& listed[k].pos.log_index == entries[k].1
                    &&& listed[k].event == entries[k].2
                    &&& listed[k].block == (if k > 0 && entries[k - 1].0.number
                        == entries[k].0.number {
                        listed[k - 1].block
                    } else {
                        entries[k].0
                    })
                }
            &&& forall|i: int| 0 <= i < spans.len() ==> (#[trigger] spans[i]).entries.len() > 0
            &&& forall|i: int|
                0 < i < spans.len() ==> (#[trigger] spans[i]).block.number != spans[i
                    - 1].block.number
        }),
    decreases entries.len(),
{
    lemma_groups(entries);
    if entries.len() > 0 {
        let rest = entries.drop_last();
        law_grouping_keeps_the_entries(rest);
        lemma_groups(rest);
        lemma_listed_grows(entries);
        let listed = engine_model::all_entries(driver_model::grouped(entries));
        let before = engine_model::all_entries(driver_model::grouped(rest));
        if rest.len() > 0 {
            lemma_listed_grows(rest);
            assert(before.last() == before[before.len() - 1]);
            assert(rest.last() == entries[entries.len() - 2]);
        }
        assert forall|k: int| 0 <= k < entries.len() implies {
            &&& (#[trigger] listed[k]).pos.block == entries[k].0.number
            &&& listed[k].pos.log_index == entries[k].1
            &&& listed[k].event == entries[k].2
            &&& listed[k].block == (if k > 0 && entries[k - 1].0.number == entries[k].0.number {
                listed[k - 1].block
            } else {
                entries[k].0
            })
        } by {
            if k < rest.len() {
                assert(listed[k] == before[k]);
                assert(rest[k] == entries[k]);
                if k > 0 {
                    assert(listed[k - 1] == before[k - 1]);
                    assert(rest[k - 1] == entries[k - 1]);
                }
            } else if k > 0 {
                assert(listed[k - 1] == before[k - 1]);
            }
        }
    }
}

/// No block is without entries, neighbours differ, and the last has the last entry's number.
proof fn lemma_groups<E>(entries: Seq<(BlockRef, u32, E)>)
    ensures
        ({
            let spans = driver_model::grouped(entries);
            &&& spans.len() == 0 <==> entries.len() == 0
            &&& entries.len() > 0 ==> spans.last().block.number == entries.last().0.number
            &&& forall|i: int| 0 <= i < spans.len() ==> (#[trigger] spans[i]).entries.len() > 0
            &&& forall|i: int|
                0 < i < spans.len() ==> (#[trigger] spans[i]).block.number != spans[i
                    - 1].block.number
        }),
    decreases entries.len(),
{
    if entries.len() > 0 {
        let spans = driver_model::grouped(entries);
        let fewer = driver_model::grouped(entries.drop_last());
        lemma_groups(entries.drop_last());
        assert forall|i: int| 0 <= i < spans.len() implies (#[trigger] spans[i]).entries.len()
            > 0 by {
            if i < fewer.len() {
                assert(fewer[i].entries.len() > 0);
            }
        }
        assert forall|i: int| 0 < i < spans.len() implies (#[trigger] spans[i]).block.number
            != spans[i - 1].block.number by {
            assert(spans[i - 1].block == fewer[i - 1].block);
            if i < fewer.len() {
                assert(fewer[i].block.number != fewer[i - 1].block.number);
                assert(spans[i].block == fewer[i].block);
            }
        }
    }
}

/// One more entry is listed behind the others, under the header of its block.
proof fn lemma_listed_grows<E>(entries: Seq<(BlockRef, u32, E)>)
    requires
        entries.len() > 0,
    ensures
        ({
            let rest = entries.drop_last();
            let spans = driver_model::grouped(entries);
            let fewer = driver_model::grouped(rest);
            let (block, log_index, event) = entries.last();
            let entry = Entry {
                block: if rest.len() > 0 && rest.last().0.number == block.number {
                    fewer.last().block
                } else {
                    block
                },
                pos: Position { block: block.number, log_index: log_index as u64 },
                event,
            };
            &&& engine_model::all_entries(spans) == engine_model::all_entries(fewer).push(entry)
            &&& spans.last().block == entry.block
        }),
{
    let rest = entries.drop_last();
    let spans = driver_model::grouped(entries);
    let fewer = driver_model::grouped(rest);
    lemma_groups(rest);
    let before = engine_model::all_entries(fewer);
    let new = engine_model::entries_of(spans.last());
    if fewer.len() > 0 && fewer.last().block.number == entries.last().0.number {
        let old = engine_model::entries_of(fewer.last());
        assert(spans.drop_last() =~= fewer.drop_last());
        assert(new =~= old.push(new[new.len() - 1]));
        assert(before == engine_model::all_entries(fewer.drop_last()) + old);
        assert(engine_model::all_entries(spans) =~= before.push(new[new.len() - 1]));
    } else {
        assert(spans.drop_last() =~= fewer);
        assert(new.len() == 1);
        assert(engine_model::all_entries(spans) =~= before.push(new[0]));
    }
}

/// A driver scans by the window that its source reports once it has named its highest block,
/// or by single blocks when that is zero. What it makes of the answers: the header of the
/// cursor's block as the boundary, the events of the last range in chain order and grouped by
/// block as the batch, and the end of that range as the block it read up to; nothing else of
/// the driver changes but the source.
pub proof fn law_driver_scans_by_the_sources_window<F: Fold, S: Source<Event = F::Event>, K>(
    config: DriverConfig,
    before: DriverState<F, S, K>,
    after: DriverState<F, S, K>,
    found: Option<(Option<BlockRef>, Seq<Span<F::Event>>)>,
    asked: int,
    first: int,
)
    requires
        driver_model::scan_done(config, before, after, found),
        before.engine.cursor matches Some(at) ==> at.block < u64::MAX,
        asked == (if before.engine.cursor is Some {
            1int
        } else {
            0int
        }),
        first == (match before.engine.cursor {
            None => config.start_block as int,
            Some(at) => match before.scanned_to {
                Some(to) => if to < at.block {
                    to + 1
                } else {
                    at.block + 1
                },
                None => at.block + 1,
            },
        }),
    ensures
        after == (DriverState {
            source: after.source,
            scanned_to: after.scanned_to,
            ..before
        }),
        exists|log: Seq<Asked<S>>, reported: u64, entries: Seq<(BlockRef, u32, F::Event)>|
            #[trigger] scanned_by(before, after, found, asked, first, log, reported, entries),
{
    let (log, window, entries) = choose|
        log: Seq<Asked<S>>,
        window: u64,
        entries: Seq<(BlockRef, u32, F::Event)>,
    |
        #![trigger source::asked(before.source, log, after.source),
            driver_model::reads_by(before.source, log, before.engine.cursor, window),
            driver_model::grouped(entries)]
        {
            &&& source::asked(before.source, log, after.source)
            &&& driver_model::reads_by(before.source, log, before.engine.cursor, window)
            &&& driver_model::scan_of(
                log,
                before.engine.cursor,
                before.scanned_to,
                config.start_block,
                driver_model::positive(window),
            ) matches Some(scanned)
            &&& after == (DriverState {
                source: after.source,
                scanned_to: scanned.scanned_to,
                ..before
            })
            &&& driver_model::arranged(scanned.entries, entries)
            &&& found == (if scanned.failed {
                None
            } else {
                Some((scanned.boundary, driver_model::grouped(entries)))
            })
        };
    law_scan_reads_range_by_range(
        log,
        before.engine.cursor,
        before.scanned_to,
        config.start_block,
        driver_model::positive(window),
        first as u64,
        asked,
    );
    assert(scanned_by(before, after, found, asked, first, log, window, entries));
}

/// One scan: the questions in `log`, the window that the source reported, and the events of the
/// last range in chain order.
pub open spec fn scanned_by<F: Fold, S: Source<Event = F::Event>, K>(
    before: DriverState<F, S, K>,
    after: DriverState<F, S, K>,
    found: Option<(Option<BlockRef>, Seq<Span<F::Event>>)>,
    asked: int,
    first: int,
    log: Seq<Asked<S>>,
    reported: u64,
    entries: Seq<(BlockRef, u32, F::Event)>,
) -> bool {
    let head = log[asked].reply->Head_0;
    &&& source::asked(before.source, log, after.source)
    &&& log.len() > 0
    &&& found is None <==> log.last().reply is Failed
    &&& found matches Some((boundary, spans)) ==> {
        &&& source::reports_window(
            source::source_before(before.source, log, asked + 1),
            reported,
        )
        &&& log.len() > asked
        &&& log[asked].reply is Head
        &&& reads_on(
            log,
            asked + 1,
            first as u64,
            head,
            if reported == 0 {
                1
            } else {
                reported
            },
        )
        &&& before.engine.cursor matches Some(at) ==> log[0].call == SourceCall::<
            S::Event,
        >::HeaderAt(at.block) && log[0].reply == SourceReply::<S::Event, S::Error>::Header(
            boundary,
        )
        &&& before.engine.cursor is None ==> boundary is None
        &&& spans == driver_model::grouped(entries)
        &&& log.len() > asked + 1 ==> log.last().reply is Events && driver_model::arranged(
            log.last().reply->Events_0,
            entries,
        ) && after.scanned_to == Some(log.last().call->to)
        &&& log.len() == asked + 1 ==> entries.len() == 0 && after.scanned_to == before.scanned_to
            && first > head
    }
}

} // verus!
