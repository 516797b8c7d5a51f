//! One poll's worth of events, in flat lanes.
use vstd::prelude::*;

use crate::position::BlockRef;
use crate::text::{push_decimal, Describe};

verus! {

/// One block's events within a batch.
#[derive(Debug)]
pub struct SpanView<'a, E> {
    /// Number of the block the events belong to.
    pub number: u64,
    /// Hash of the block the events belong to.
    pub hash: &'a [u8; 32],
    /// Log index of each event within the block, strictly ascending.
    pub log_indices: &'a [u32],
    /// Consumer events, parallel to `log_indices`.
    pub events: &'a [E],
}

impl<'a, E> SpanView<'a, E> {
    /// The span that the view shows.
    pub open spec fn model(&self) -> Span<E> {
        Span {
            block: BlockRef { number: self.number, hash: *self.hash },
            entries: Seq::new(
                self.events@.len(),
                |j: int| (self.log_indices@[j], self.events@[j]),
            ),
        }
    }

    /// The two lanes run in parallel.
    pub open spec fn wf(&self) -> bool {
        self.log_indices@.len() == self.events@.len()
    }

    /// Owned header of the span's block.
    pub fn block(&self) -> (block: BlockRef)
        ensures
            block == (BlockRef { number: self.number, hash: *self.hash }),
    {
        BlockRef { number: self.number, hash: *self.hash }
    }
}

/// What a batch says of one block: its header and its events in order.
pub struct Span<E> {
    /// Header of the block.
    pub block: BlockRef,
    /// Log index and event, in the order the source gave them.
    pub entries: Seq<(u32, E)>,
}

/// One poll's worth of events.
///
/// The view lists the spans in the order they were pushed.
#[derive(Debug, Clone, PartialEq, Eq)]
pub struct Batch<E> {
    /// Refetched header of the cursor block; None means the source could not produce it.
    pub boundary: Option<BlockRef>,
    /// Block number of each span.
    pub blocks: Vec<u64>,
    /// Block hash of each span.
    pub hashes: Vec<[u8; 32]>,
    /// End of each span in the event lanes; a span starts where the one before it ends.
    pub ends: Vec<usize>,
    /// Log index of each event.
    pub log_indices: Vec<u32>,
    /// Consumer events, parallel to `log_indices`.
    pub events: Vec<E>,
}

/// Batch layout violation found before any event reaches the fold.
#[derive(Debug, Clone, Copy, PartialEq, Eq, Structural)]
pub enum BatchShapeError {
    /// Span carries no events; a block with none is left out of the batch.
    SpanEmpty {
        /// Index of the offending span.
        span: usize,
    },
    /// Span block number does not exceed its predecessor's.
    BlocksNotAscending {
        /// Index of the offending span.
        span: usize,
    },
    /// Log index does not exceed its predecessor's within a span.
    LogIndexNotAscending {
        /// Index of the offending span.
        span: usize,
        /// Index of the offending event in the batch's event lane.
        index: usize,
    },
}

impl Describe for BatchShapeError {
    open spec fn text(&self) -> Seq<char> {
        match self {
            BatchShapeError::SpanEmpty { span } => "span "@ + crate::error::decimal_of(
                *span as u64,
            ) + " carries no events"@,
            BatchShapeError::BlocksNotAscending { span } => "span "@ + crate::error::decimal_of(
                *span as u64,
            ) + " block number is not strictly ascending"@,
            BatchShapeError::LogIndexNotAscending { span, index } => "span "@
                + crate::error::decimal_of(*span as u64) + " log index at event "@
                + crate::error::decimal_of(*index as u64) + " is not strictly ascending"@,
        }
    }

    fn describe(&self) -> (text: String) {
        let mut out = String::from_str("span ");
        match self {
            BatchShapeError::SpanEmpty { span } => {
                push_decimal(&mut out, *span as u64);
                out.append(" carries no events");
            },
            BatchShapeError::BlocksNotAscending { span } => {
                push_decimal(&mut out, *span as u64);
                out.append(" block number is not strictly ascending");
            },
            BatchShapeError::LogIndexNotAscending { span, index } => {
                push_decimal(&mut out, *span as u64);
                out.append(" log index at event ");
                push_decimal(&mut out, *index as u64);
                out.append(" is not strictly ascending");
            },
        }
        out
    }
}

/// A number that can be compared with its neighbours.
pub trait Ordinal: Copy {
    /// The number itself.
    spec fn rank(self) -> int;

    /// True when the number is strictly below `other`.
    fn below(self, other: Self) -> (yes: bool)
        ensures
            yes == (self.rank() < other.rank()),
    ;
}

impl Ordinal for u64 {
    open spec fn rank(self) -> int {
        self as int
    }

    fn below(self, other: u64) -> (yes: bool) {
        self < other
    }
}

impl Ordinal for u32 {
    open spec fn rank(self) -> int {
        self as int
    }

    fn below(self, other: u32) -> (yes: bool) {
        self < other
    }
}

/// Index of the first element at or after `from` that does not exceed its predecessor.
pub open spec fn descent_from(values: Seq<int>, from: int) -> Option<int>
    decreases values.len() - from,
{
    if from >= values.len() {
        None
    } else if values[from] <= values[from - 1] {
        Some(from)
    } else {
        descent_from(values, from + 1)
    }
}

/// Index of the first element that does not exceed its predecessor.
pub open spec fn descent(values: Seq<int>) -> Option<int> {
    descent_from(values, 1)
}

/// True when each value exceeds every value before it.
pub open spec fn strictly_ascending(values: Seq<int>) -> bool {
    forall|i: int, j: int| 0 <= i < j < values.len() ==> values[i] < values[j]
}

/// Values without a descent ascend strictly, and the other way round.
pub proof fn lemma_descent(values: Seq<int>)
    ensures
        descent(values) is None <==> strictly_ascending(values),
        descent(values) matches Some(at) ==> 0 < at < values.len(),
{
    if values.len() > 0 {
        assert(strictly_ascending(values.take(1)));
        lemma_descent_from(values, 1);
    }
}

proof fn lemma_descent_from(values: Seq<int>, from: int)
    requires
        0 < from <= values.len(),
        strictly_ascending(values.take(from)),
    ensures
        descent_from(values, from) is None <==> strictly_ascending(values),
        descent_from(values, from) matches Some(at) ==> from <= at < values.len(),
    decreases values.len() - from,
{
    if from == values.len() {
        assert(values.take(from) =~= values);
    } else if values[from] <= values[from - 1] {
        assert(!(values[from - 1] < values[from]));
    } else {
        let next = values.take(from + 1);
        assert forall|i: int, j: int| 0 <= i < j < next.len() implies next[i] < next[j] by {
            let prior = values.take(from);
            if j < from {
                assert(prior[i] < prior[j]);
            } else if i < from - 1 {
                assert(prior[i] < prior[from - 1]);
            }
        }
        lemma_descent_from(values, from + 1);
    }
}

/// Block numbers of the spans, in order.
pub open spec fn block_numbers<E>(spans: Seq<Span<E>>) -> Seq<int> {
    spans.map_values(|span: Span<E>| span.block.number as int)
}

/// Log indices of a span, in order.
pub open spec fn log_indices<E>(entries: Seq<(u32, E)>) -> Seq<int> {
    entries.map_values(|entry: (u32, E)| entry.0 as int)
}

/// First violation at or after span `at`, whose first event is event `start` of the batch.
pub open spec fn span_error<E>(spans: Seq<Span<E>>, at: int, start: int) -> Option<
    BatchShapeError,
>
    decreases spans.len() - at,
{
    if at >= spans.len() {
        None
    } else if spans[at].entries.len() == 0 {
        Some(BatchShapeError::SpanEmpty { span: at as usize })
    } else {
        match descent(log_indices(spans[at].entries)) {
            Some(offset) => Some(
                BatchShapeError::LogIndexNotAscending {
                    span: at as usize,
                    index: (start + offset) as usize,
                },
            ),
            None => span_error(spans, at + 1, start + spans[at].entries.len()),
        }
    }
}

/// First layout violation of a batch: block order before event order.
pub open spec fn shape_error<E>(spans: Seq<Span<E>>) -> Option<BatchShapeError> {
    match descent(block_numbers(spans)) {
        Some(at) => Some(BatchShapeError::BlocksNotAscending { span: at as usize }),
        None => span_error(spans, 0, 0),
    }
}

/// The layout a source owes: ascending blocks, each with events at ascending log indices.
pub open spec fn well_shaped<E>(spans: Seq<Span<E>>) -> bool {
    &&& strictly_ascending(block_numbers(spans))
    &&& forall|i: int|
        0 <= i < spans.len() ==> (#[trigger] spans[i]).entries.len() > 0 && strictly_ascending(
            log_indices(spans[i].entries),
        )
}

/// A batch without a violation has the layout a source owes, and the other way round.
pub proof fn lemma_shape_error<E>(spans: Seq<Span<E>>)
    ensures
        shape_error(spans) is None <==> well_shaped(spans),
{
    lemma_descent(block_numbers(spans));
    lemma_span_error(spans, 0, 0);
}

proof fn lemma_span_error<E>(spans: Seq<Span<E>>, at: int, start: int)
    requires
        0 <= at <= spans.len(),
    ensures
        span_error(spans, at, start) is None <==> (forall|i: int|
            at <= i < spans.len() ==> (#[trigger] spans[i]).entries.len() > 0
                && strictly_ascending(log_indices(spans[i].entries))),
    decreases spans.len() - at,
{
    if at < spans.len() {
        lemma_descent(log_indices(spans[at].entries));
        lemma_span_error(spans, at + 1, start + spans[at].entries.len());
    }
}

/// Index of the first element that does not exceed its predecessor.
pub fn first_descent<T: Ordinal>(values: &[T]) -> (at: Option<usize>)
    ensures
        match at {
            Some(i) => descent(values@.map_values(|value: T| value.rank())) == Some(i as int),
            None => descent(values@.map_values(|value: T| value.rank())) is None,
        },
        match at {
            Some(i) => 0 < i < values@.len() && values@[i as int].rank() <= values@[i - 1].rank(),
            None => true,
        },
        forall|j: int|
            0 < j < values@.len() && (at matches Some(i) ==> j < i) ==> (
            #[trigger] values@[j]).rank() > values@[j - 1].rank(),
{
    let ghost ranks = values@.map_values(|value: T| value.rank());
    let mut i: usize = 1;
    while i < values.len()
        invariant
            1 <= i,
            ranks == values@.map_values(|value: T| value.rank()),
            descent(ranks) == descent_from(ranks, i as int),
            forall|j: int|
                0 < j < i && j < values@.len() ==> (#[trigger] values@[j]).rank() > values@[j
                    - 1].rank(),
        decreases values@.len() - i,
    {
        if !values[i - 1].below(values[i]) {
            return Some(i);
        }
        i += 1;
    }
    None
}

impl<E> View for Batch<E> {
    type V = Seq<Span<E>>;

    open spec fn view(&self) -> Seq<Span<E>> {
        Seq::new(
            self.ends@.len(),
            |i: int|
                Span {
                    block: BlockRef { number: self.blocks@[i], hash: self.hashes@[i] },
                    entries: Seq::new(
                        (self.ends@[i] - self.start(i)) as nat,
                        |j: int|
                            (
                                self.log_indices@[self.start(i) + j],
                                self.events@[self.start(i) + j],
                            ),
                    ),
                },
        )
    }
}

impl<E> Batch<E> {
    /// Index of the first event of a span in the event lane.
    pub open spec fn start(&self, span: int) -> int {
        if span <= 0 {
            0
        } else {
            self.ends@[span - 1] as int
        }
    }

    /// The lanes agree with each other.
    pub open spec fn wf(&self) -> bool {
        &&& self.blocks@.len() == self.ends@.len()
        &&& self.hashes@.len() == self.ends@.len()
        &&& self.log_indices@.len() == self.events@.len()
        &&& forall|i: int|
            0 <= i < self.ends@.len() ==> self.start(i) <= #[trigger] self.ends@[i]
                <= self.events@.len()
        &&& self.ends@.len() > 0 ==> self.ends@.last() == self.events@.len()
        &&& self.ends@.len() == 0 ==> self.events@.len() == 0
    }

    /// Builds an empty, capacity-free batch.
    pub fn new() -> (batch: Self)
        ensures
            batch.wf(),
            batch.boundary is None,
            batch@ == Seq::<Span<E>>::empty(),
    {
        let batch = Batch {
            boundary: None,
            blocks: Vec::new(),
            hashes: Vec::new(),
            ends: Vec::new(),
            log_indices: Vec::new(),
            events: Vec::new(),
        };
        assert(batch@ =~= Seq::<Span<E>>::empty());
        batch
    }

    /// Empties every lane and the boundary while keeping capacity.
    pub fn clear(&mut self)
        ensures
            final(self).wf(),
            final(self).boundary is None,
            final(self)@ == Seq::<Span<E>>::empty(),
    {
        self.boundary = None;
        self.blocks.clear();
        self.hashes.clear();
        self.ends.clear();
        self.log_indices.clear();
        self.events.clear();
        assert(self@ =~= Seq::<Span<E>>::empty());
    }

    /// True when the batch carries no spans.
    pub fn is_empty(&self) -> (empty: bool)
        ensures
            empty == (self@.len() == 0),
    {
        self.ends.len() == 0
    }

    /// Spans the batch carries, one per observed block.
    pub fn span_count(&self) -> (count: usize)
        ensures
            count == self@.len(),
    {
        self.ends.len()
    }

    /// Appends one block's complete event set in log order.
    pub fn push_block(&mut self, block: BlockRef, events: Vec<(u32, E)>)
        requires
            old(self).wf(),
        ensures
            final(self).wf(),
            final(self).boundary == old(self).boundary,
            final(self)@ == old(self)@.push(Span { block, entries: events@ }),
    {
        let ghost entries = events@;
        let ghost first = self.events@.len() as int;
        self.blocks.push(block.number);
        self.hashes.push(block.hash);
        for entry in it: events
            invariant
                it.seq() == entries,
                self.boundary == old(self).boundary,
                self.blocks@ == old(self).blocks@.push(block.number),
                self.hashes@ == old(self).hashes@.push(block.hash),
                self.ends@ == old(self).ends@,
                self.log_indices@.len() == first + it.index(),
                self.events@.len() == first + it.index(),
                old(self).events@.len() == first,
                old(self).log_indices@.len() == first,
                forall|j: int|
                    0 <= j < first ==> self.log_indices@[j] == old(self).log_indices@[j]
                        && self.events@[j] == old(self).events@[j],
                forall|j: int|
                    0 <= j < it.index() ==> self.log_indices@[first + j] == entries[j].0
                        && self.events@[first + j] == entries[j].1,
        {
            let (log_index, event) = entry;
            self.log_indices.push(log_index);
            self.events.push(event);
        }
        self.ends.push(self.events.len());
        proof {
            let spans = old(self)@.push(Span { block, entries });
            assert forall|i: int| 0 <= i < spans.len() implies self@[i] == spans[i] by {
                assert(self@[i].entries =~= spans[i].entries);
            }
            assert(self@ =~= spans);
        }
    }

    /// Walks the spans oldest first with their event slices.
    pub fn spans(&self) -> (spans: Spans<'_, E>)
        requires
            self.wf(),
        ensures
            spans.wf(),
            spans@ == self@,
    {
        let spans = Spans { batch: self, next: 0, start: 0 };
        assert(spans@ =~= self@);
        spans
    }

    /// Validates the orderings a source controls, before any event reaches the fold.
    pub fn validate(&self) -> (result: Result<(), BatchShapeError>)
        requires
            self.wf(),
        ensures
            match result {
                Ok(()) => shape_error(self@) is None,
                Err(error) => shape_error(self@) == Some(error),
            },
    {
        assert(self.blocks@.map_values(|value: u64| value.rank()) =~= block_numbers(self@));
        if let Some(span) = first_descent(self.blocks.as_slice()) {
            return Err(BatchShapeError::BlocksNotAscending { span });
        }
        let mut start: usize = 0;
        let mut span: usize = 0;
        while span < self.ends.len()
            invariant
                self.wf(),
                span <= self.ends@.len(),
                start == self.start(span as int),
                start <= self.events@.len(),
                shape_error(self@) == span_error(self@, span as int, start as int),
            decreases self.ends@.len() - span,
        {
            let end = self.ends[span];
            if end <= start {
                return Err(BatchShapeError::SpanEmpty { span });
            }
            let lane = vstd::slice::slice_subrange(self.log_indices.as_slice(), start, end);
            assert(lane@.map_values(|value: u32| value.rank()) =~= log_indices(
                self@[span as int].entries,
            ));
            let found = first_descent(lane);
            proof {
                lemma_descent(log_indices(self@[span as int].entries));
            }
            if let Some(offset) = found {
                return Err(
                    BatchShapeError::LogIndexNotAscending { span, index: start + offset },
                );
            }
            start = end;
            span += 1;
        }
        Ok(())
    }
}

impl<E> Default for Batch<E> {
    fn default() -> (batch: Self)
        ensures
            batch.wf(),
            batch.boundary is None,
            batch@ == Seq::<Span<E>>::empty(),
    {
        Batch::new()
    }
}

/// Oldest-first walk over a batch's spans; the view lists the spans still to come.
#[derive(Debug)]
pub struct Spans<'a, E> {
    batch: &'a Batch<E>,
    next: usize,
    start: usize,
}

impl<'a, E> View for Spans<'a, E> {
    type V = Seq<Span<E>>;

    closed spec fn view(&self) -> Seq<Span<E>> {
        self.batch@.skip(self.next as int)
    }
}

impl<'a, E> Spans<'a, E> {
    /// The walk stays within its batch.
    pub closed spec fn wf(&self) -> bool {
        &&& self.batch.wf()
        &&& self.next <= self.batch.ends@.len()
        &&& self.start == self.batch.start(self.next as int)
    }

    /// Hands out the next span.
    pub fn next(&mut self) -> (span: Option<SpanView<'a, E>>)
        requires
            old(self).wf(),
        ensures
            final(self).wf(),
            match span {
                Some(span) => {
                    &&& old(self)@.len() > 0
                    &&& span.wf()
                    &&& span.model() == old(self)@.first()
                    &&& final(self)@ == old(self)@.drop_first()
                },
                None => old(self)@.len() == 0 && final(self)@ == old(self)@,
            },
    {
        if self.next >= self.batch.ends.len() {
            return None;
        }
        let end = self.batch.ends[self.next];
        let span = SpanView {
            number: self.batch.blocks[self.next],
            hash: &self.batch.hashes[self.next],
            log_indices: vstd::slice::slice_subrange(
                self.batch.log_indices.as_slice(),
                self.start,
                end,
            ),
            events: vstd::slice::slice_subrange(self.batch.events.as_slice(), self.start, end),
        };
        assert(span.model().entries =~= self@.first().entries);
        self.next = self.next + 1;
        self.start = end;
        assert(self@ =~= old(self)@.drop_first());
        Some(span)
    }

    /// Spans still to come.
    pub fn len(&self) -> (len: usize)
        requires
            self.wf(),
        ensures
            len == self@.len(),
    {
        self.batch.ends.len() - self.next
    }
}

} // verus!
