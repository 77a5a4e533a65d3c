//! The merge: one record for every base interval, holding the intervals of
//! the other streams that overlap it.

use crate::chrom_order::{lemma_rank_names, ChromOrder};
use crate::heap::{is_first_of, HeapEntry, MinHeap, SortKey};
use crate::position::{overlaps, Positioned, PositionedIterator, StreamError};
use vstd::multiset::Multiset;
use vstd::prelude::*;

verus! {

/// Where the head of a stream lies relative to a base interval.
#[derive(Clone, Copy, Debug, PartialEq, Eq, Structural)]
pub enum Placement {
    /// On a chromosome that ranks before the base's.
    BehindChromosome,
    /// On the base's chromosome, ending at or before the base's start.
    BehindPosition,
    /// On the base's chromosome, starting at or before the base's stop.
    Candidate,
    /// On a later chromosome, or starting after the base's stop.
    Ahead,
}

/// Classifies the key of a head against the key of a base interval.
/// Everything but [`Placement::Ahead`] leaves the queue.
pub open spec fn placement(head: SortKey, base: SortKey) -> Placement {
    if head.rank < base.rank {
        Placement::BehindChromosome
    } else if head.rank > base.rank {
        Placement::Ahead
    } else if head.stop <= base.start {
        Placement::BehindPosition
    } else if head.start <= base.stop {
        Placement::Candidate
    } else {
        Placement::Ahead
    }
}

/// Half-open overlap of two keys: same rank, and each starts before the
/// other stops.
pub open spec fn keys_overlap(head: SortKey, base: SortKey) -> bool {
    head.rank == base.rank && head.start < base.stop && head.stop > base.start
}

/// Computes [`placement`].
pub fn classify(head: &SortKey, base: &SortKey) -> (place: Placement)
    ensures
        place == placement(*head, *base),
{
    if head.rank < base.rank {
        Placement::BehindChromosome
    } else if head.rank > base.rank {
        Placement::Ahead
    } else if head.stop <= base.start {
        Placement::BehindPosition
    } else if head.start <= base.stop {
        Placement::Candidate
    } else {
        Placement::Ahead
    }
}

/// Decides [`keys_overlap`].
pub fn reports(head: &SortKey, base: &SortKey) -> (r: bool)
    ensures
        r == keys_overlap(*head, *base),
{
    head.rank == base.rank && head.start < base.stop && head.stop > base.start
}

/// Why a value that a stream yielded was not accepted.
#[derive(Debug, PartialEq, Eq)]
pub enum Fault {
    /// The stream failed to read or parse its next value.
    Stream(StreamError),
    /// The value lies on a chromosome that the order table does not have.
    UnknownChromosome(String),
    /// The value's key is before that of the value that the stream
    /// yielded just before.
    OutOfOrder { previous: SortKey, current: SortKey },
    /// The merge has taken as many values from the other streams as its
    /// limit allows.
    TooManyValues,
}

/// Why a merge stopped: what went wrong, and the name that the stream at
/// fault then gave for itself.
#[derive(Debug, PartialEq, Eq)]
pub struct MergeError {
    pub source: String,
    pub fault: Fault,
}

/// Checks what a stream has just yielded. A value passes with the rank of
/// its chromosome if the table has that chromosome and the value's key is
/// not before `floor`, the key of the stream's previous value.
pub fn screen<P: Positioned>(
    order: &ChromOrder,
    pulled: Option<Result<P, StreamError>>,
    floor: Option<SortKey>,
) -> (verdict: Result<Option<(P, usize)>, Fault>)
    ensures
        match pulled {
            None => verdict matches Ok(None),
            Some(Err(e)) => verdict == Err::<Option<(P, usize)>, Fault>(Fault::Stream(e)),
            Some(Ok(p)) => match order.rank_of(p.chromosome_view()) {
                None => verdict matches Err(Fault::UnknownChromosome(name)) && name@
                    == p.chromosome_view(),
                Some(rank) => {
                    let key = SortKey { rank, start: p.start_view(), stop: p.stop_view() };
                    if floor is Some && !floor->0.not_after(key) {
                        verdict == Err::<Option<(P, usize)>, Fault>(
                            Fault::OutOfOrder { previous: floor->0, current: key },
                        )
                    } else {
                        verdict == Ok::<Option<(P, usize)>, Fault>(Some((p, rank)))
                    }
                },
            },
        },
{
    match pulled {
        None => Ok(None),
        Some(Err(error)) => Err(Fault::Stream(error)),
        Some(Ok(p)) => {
            match order.rank(p.chromosome()) {
                None => Err(Fault::UnknownChromosome(p.chromosome().to_owned())),
                Some(rank) => {
                    let key = SortKey { rank, start: p.start(), stop: p.stop() };
                    match floor {
                        Some(previous) => {
                            if previous.is_not_after(&key) {
                                Ok(Some((p, rank)))
                            } else {
                                Err(Fault::OutOfOrder { previous, current: key })
                            }
                        },
                        None => Ok(Some((p, rank))),
                    }
                },
            }
        },
    }
}

/// One emitted record: a base interval and the intervals of the other
/// streams that overlap it, each with the index of its stream (1 for the
/// first of the other streams).
pub struct Intersection<P: Positioned> {
    pub base: P,
    pub overlapping: Vec<(usize, P)>,
}

impl<P: Positioned> Intersection<P> {
    /// The base interval.
    pub fn base(&self) -> (base: &P)
        ensures
            *base == self.base,
    {
        &self.base
    }

    /// The overlapping intervals, in the order in which they left the
    /// queue.
    pub fn overlapping(&self) -> (overlapping: &Vec<(usize, P)>)
        ensures
            *overlapping == self.overlapping,
    {
        &self.overlapping
    }
}

/// A record as the merge remembers it: what was emitted, which value of
/// its stream each overlapping interval is, and how many values of each
/// stream had left the queue before and after the record was made.
pub struct Emission<P> {
    pub base: P,
    pub overlapping: Seq<(usize, P)>,
    pub ordinals: Seq<nat>,
    pub floor: Seq<nat>,
    pub ceiling: Seq<nat>,
}

/// The order within a record: by start, then stop, then stream.
pub open spec fn report_order<P: Positioned>(a: (usize, P), b: (usize, P)) -> bool {
    a.1.start_view() < b.1.start_view() || (a.1.start_view() == b.1.start_view() && (
    a.1.stop_view() < b.1.stop_view() || (a.1.stop_view() == b.1.stop_view() && a.0 <= b.0)))
}

/// Entry `j` of a record is a value that its stream yielded, was taken
/// from the queue for this record, and overlaps the base.
pub open spec fn report_ok<P: Positioned>(rec: Emission<P>, yielded: Seq<Seq<P>>, j: int) -> bool {
    let source = rec.overlapping[j].0 as int;
    let ordinal = rec.ordinals[j] as int;
    &&& 1 <= source <= yielded.len()
    &&& rec.floor[source - 1] <= ordinal < rec.ceiling[source - 1]
    &&& yielded[source - 1][ordinal] == rec.overlapping[j].1
    &&& overlaps(&rec.overlapping[j].1, &rec.base)
}

/// Value `ordinal` of stream `source` is in the record.
pub open spec fn reported<P: Positioned>(rec: Emission<P>, source: int, ordinal: int) -> bool {
    exists|j: int|
        0 <= j < rec.overlapping.len() && #[trigger] rec.overlapping[j].0 == source
            && rec.ordinals[j] == ordinal
}

/// A record is right: it holds exactly the overlapping ones among the
/// values that left the queue while it was made, each once, in order.
pub open spec fn emission_ok<P: Positioned>(rec: Emission<P>, yielded: Seq<Seq<P>>) -> bool {
    &&& rec.ordinals.len() == rec.overlapping.len()
    &&& rec.floor.len() == yielded.len()
    &&& rec.ceiling.len() == yielded.len()
    &&& forall|s: int|
        0 <= s < yielded.len() ==> rec.floor[s] <= #[trigger] rec.ceiling[s] <= yielded[s].len()
    &&& forall|j: int| 0 <= j < rec.overlapping.len() ==> #[trigger] report_ok(rec, yielded, j)
    &&& forall|i: int, j: int|
        0 <= i < j < rec.overlapping.len() ==> #[trigger] report_order(
            rec.overlapping[i],
            rec.overlapping[j],
        )
    &&& forall|i: int, j: int|
        0 <= i < j < rec.overlapping.len() && rec.overlapping[i].0 == rec.overlapping[j].0
            ==> #[trigger] rec.ordinals[i] < #[trigger] rec.ordinals[j]
    &&& forall|s: int, o: int|
        0 <= s < yielded.len() && rec.floor[s] <= o < rec.ceiling[s] && #[trigger] overlaps(
            &yielded[s][o],
            &rec.base,
        ) ==> reported(rec, s + 1, o)
}

/// The records so far are right, and each begins where the one before
/// it ended.
pub open spec fn log_ok<P: Positioned>(
    emitted: Seq<Emission<P>>,
    yielded: Seq<Seq<P>>,
    consumed: Seq<nat>,
) -> bool {
    &&& forall|r: int| 0 <= r < emitted.len() ==> #[trigger] emission_ok(emitted[r], yielded)
    &&& forall|r: int, s: int|
        0 <= r < emitted.len() - 1 && 0 <= s < yielded.len() ==> #[trigger] emitted[r].ceiling[s]
            <= emitted[r + 1].floor[s]
    &&& forall|s: int|
        0 <= s < yielded.len() && emitted.len() > 0 ==> #[trigger] emitted.last().ceiling[s]
            <= consumed[s]
}

/// Every stream's history `later` begins with its history `earlier`.
pub open spec fn extends<P>(earlier: Seq<Seq<P>>, later: Seq<Seq<P>>) -> bool {
    &&& earlier.len() == later.len()
    &&& forall|s: int| 0 <= s < earlier.len() ==> earlier[s].len() <= #[trigger] later[s].len()
    &&& forall|s: int, j: int|
        0 <= s < earlier.len() && 0 <= j < earlier[s].len() ==> #[trigger] later[s][j]
            == earlier[s][j]
}

/// No count went down.
pub open spec fn not_below(earlier: Seq<nat>, later: Seq<nat>) -> bool {
    &&& earlier.len() == later.len()
    &&& forall|s: int| 0 <= s < earlier.len() ==> earlier[s] <= #[trigger] later[s]
}

/// The key of a value whose chromosome the table has.
pub open spec fn key_of<P: Positioned>(order: &ChromOrder, p: P) -> SortKey {
    SortKey {
        rank: order.rank_of(p.chromosome_view()).unwrap_or(0),
        start: p.start_view(),
        stop: p.stop_view(),
    }
}

/// The table has the chromosome of every value, and no value's key is
/// before that of the value before it.
pub open spec fn in_order<P: Positioned>(order: &ChromOrder, log: Seq<P>) -> bool {
    &&& forall|i: int|
        0 <= i < log.len() ==> order.rank_of((#[trigger] log[i]).chromosome_view()) is Some
    &&& forall|i: int|
        0 < i < log.len() ==> key_of(order, log[i - 1]).not_after(#[trigger] key_of(order, log[i]))
}

/// The key that the next value of a stream must not be before: that of
/// the last value so far.
pub open spec fn floor_of<P: Positioned>(order: &ChromOrder, log: Seq<P>) -> Option<SortKey> {
    if log.len() > 0 {
        Some(key_of(order, log.last()))
    } else {
        None
    }
}

/// In a history that is in order, no value's key is before that of any
/// earlier value.
pub proof fn lemma_in_order_far<P: Positioned>(order: &ChromOrder, log: Seq<P>, i: int, j: int)
    requires
        in_order(order, log),
        0 <= i <= j < log.len(),
    ensures
        key_of(order, log[i]).not_after(key_of(order, log[j])),
    decreases j - i,
{
    if i < j {
        lemma_in_order_far(order, log, i, j - 1);
        assert(key_of(order, log[j - 1]).not_after(key_of(order, log[j])));
    }
}

/// A head is the newest value of its stream, and carries the rank of its
/// chromosome.
pub open spec fn entry_ok<P: Positioned>(
    e: HeapEntry<P>,
    order: &ChromOrder,
    yielded: Seq<Seq<P>>,
    consumed: Seq<nat>,
) -> bool {
    &&& 1 <= e.file_index <= yielded.len()
    &&& e.ordinal@ == consumed[e.file_index - 1]
    &&& yielded[e.file_index - 1].len() == e.ordinal@ + 1
    &&& yielded[e.file_index - 1][e.ordinal@ as int] == e.position
    &&& order.rank_of(e.position.chromosome_view()) == Some(e.rank)
}

/// The queue holds at most one head of each stream, and nothing else.
pub open spec fn heads_ok<P: Positioned>(
    heads: Multiset<HeapEntry<P>>,
    order: &ChromOrder,
    yielded: Seq<Seq<P>>,
    consumed: Seq<nat>,
) -> bool {
    forall|e: HeapEntry<P>| #[trigger]
        heads.count(e) > 0 ==> heads.count(e) == 1 && entry_ok(e, order, yielded, consumed)
}

/// A value of stream `s` is waiting in the queue: the stream has yielded
/// one more value than have left the queue.
pub open spec fn is_live<P>(yielded: Seq<Seq<P>>, consumed: Seq<nat>, s: int) -> bool {
    consumed[s] < yielded[s].len()
}

/// The head that stream `s` has in the queue while a value of it is
/// waiting there: its newest value, under the index of the stream.
pub open spec fn head_of<P: Positioned>(
    order: &ChromOrder,
    yielded: Seq<Seq<P>>,
    consumed: Seq<nat>,
    s: int,
) -> HeapEntry<P> {
    HeapEntry {
        position: yielded[s].last(),
        file_index: (s + 1) as usize,
        rank: order.rank_of(yielded[s].last().chromosome_view())->0,
        ordinal: Ghost(consumed[s]),
    }
}

/// How many of the first `n` streams have a value waiting in the queue.
pub open spec fn live_count<P>(yielded: Seq<Seq<P>>, consumed: Seq<nat>, n: int) -> nat
    decreases n,
{
    if n <= 0 {
        0
    } else {
        live_count(yielded, consumed, n - 1) + if is_live(yielded, consumed, n - 1) {
            1nat
        } else {
            0nat
        }
    }
}

/// Every stream that has a value waiting has its head in the queue, once,
/// and the queue holds as many heads as there are such streams.
pub open spec fn heads_are_live<P: Positioned>(
    heads: Multiset<HeapEntry<P>>,
    order: &ChromOrder,
    yielded: Seq<Seq<P>>,
    consumed: Seq<nat>,
) -> bool {
    &&& forall|s: int|
        0 <= s < yielded.len() && is_live(yielded, consumed, s) ==> heads.count(
            #[trigger] head_of(order, yielded, consumed, s),
        ) == 1
    &&& heads.len() == live_count(yielded, consumed, yielded.len() as int)
}

/// Where two states of the streams differ in stream `j` alone, the counts
/// of waiting values differ by what stream `j` adds to each.
proof fn lemma_live_count_change<P>(
    y1: Seq<Seq<P>>,
    c1: Seq<nat>,
    y2: Seq<Seq<P>>,
    c2: Seq<nat>,
    j: int,
    n: int,
)
    requires
        0 <= j,
        0 <= n <= y1.len(),
        y1.len() == y2.len(),
        forall|s: int| 0 <= s < n && s != j ==> is_live(y1, c1, s) == is_live(y2, c2, s),
    ensures
        j >= n ==> live_count(y2, c2, n) == live_count(y1, c1, n),
        j < n ==> live_count(y2, c2, n) + (if is_live(y1, c1, j) {
            1nat
        } else {
            0nat
        }) == live_count(y1, c1, n) + (if is_live(y2, c2, j) {
            1nat
        } else {
            0nat
        }),
    decreases n,
{
    if n > 0 {
        lemma_live_count_change(y1, c1, y2, c2, j, n - 1);
    }
}

/// The count is at most the number of streams, and less where a stream
/// has no value waiting.
proof fn lemma_live_count_bound<P>(yielded: Seq<Seq<P>>, consumed: Seq<nat>, n: int, j: int)
    requires
        0 <= n <= yielded.len(),
    ensures
        live_count(yielded, consumed, n) <= n,
        0 <= j < n && !is_live(yielded, consumed, j) ==> live_count(yielded, consumed, n) < n,
    decreases n,
{
    if n > 0 {
        lemma_live_count_bound(yielded, consumed, n - 1, j);
    }
}

/// Where no stream has a value waiting, the count is zero.
proof fn lemma_live_count_none<P>(yielded: Seq<Seq<P>>, consumed: Seq<nat>, n: int)
    requires
        0 <= n <= yielded.len(),
        forall|s: int| 0 <= s < n ==> !is_live(yielded, consumed, s),
    ensures
        live_count(yielded, consumed, n) == 0,
    decreases n,
{
    if n > 0 {
        lemma_live_count_none(yielded, consumed, n - 1);
    }
}

/// A fault that was found on a value: the chromosome is indeed unknown,
/// the keys are indeed out of order, the limit is indeed used up.
pub open spec fn founded(fault: Fault, order: &ChromOrder, budget: u64) -> bool {
    match fault {
        Fault::Stream(_) => true,
        Fault::UnknownChromosome(name) => order.rank_of(name@) is None,
        Fault::OutOfOrder { previous, current } => !previous.not_after(current),
        Fault::TooManyValues => budget == 0,
    }
}

/// Records stay right when the streams yield more and more values leave
/// the queue.
pub proof fn lemma_log_stable<P: Positioned>(
    emitted: Seq<Emission<P>>,
    yielded: Seq<Seq<P>>,
    consumed: Seq<nat>,
    yielded2: Seq<Seq<P>>,
    consumed2: Seq<nat>,
)
    requires
        log_ok(emitted, yielded, consumed),
        extends(yielded, yielded2),
        not_below(consumed, consumed2),
        consumed.len() == yielded.len(),
    ensures
        log_ok(emitted, yielded2, consumed2),
{
    assert forall|r: int| 0 <= r < emitted.len() implies #[trigger] emission_ok(
        emitted[r],
        yielded2,
    ) by {
        let rec = emitted[r];
        assert(emission_ok(rec, yielded));
        assert forall|s: int| 0 <= s < yielded2.len() implies rec.floor[s]
            <= #[trigger] rec.ceiling[s] <= yielded2[s].len() by {
            assert(yielded[s].len() <= yielded2[s].len());
        }
        assert forall|j: int| 0 <= j < rec.overlapping.len() implies #[trigger] report_ok(
            rec,
            yielded2,
            j,
        ) by {
            assert(report_ok(rec, yielded, j));
            let source = rec.overlapping[j].0 as int;
            assert(rec.ceiling[source - 1] <= yielded[source - 1].len());
        }
        assert forall|s: int, o: int|
            0 <= s < yielded2.len() && rec.floor[s] <= o < rec.ceiling[s] && #[trigger] overlaps(
                &yielded2[s][o],
                &rec.base,
            ) implies reported(rec, s + 1, o) by {
            assert(rec.ceiling[s] <= yielded[s].len());
            assert(yielded2[s][o] == yielded[s][o]);
            assert(overlaps(&yielded[s][o], &rec.base));
        }
    }
    assert forall|s: int| 0 <= s < yielded2.len() && emitted.len() > 0 implies #[trigger] emitted.last().ceiling[s]
        <= consumed2[s] by {
        assert(consumed[s] <= consumed2[s]);
    }
}

/// One more value of stream `e.file_index` has left the queue while a
/// record was being made, and was added to the record if it overlaps the
/// base: the record is still right.
proof fn lemma_record_step<P: Positioned>(
    rec: Emission<P>,
    yielded: Seq<Seq<P>>,
    yielded2: Seq<Seq<P>>,
    e: HeapEntry<P>,
    report: bool,
) -> (next: Emission<P>)
    requires
        emission_ok(rec, yielded),
        extends(yielded, yielded2),
        1 <= e.file_index <= yielded.len(),
        e.ordinal@ == rec.ceiling[e.file_index - 1],
        e.ordinal@ < yielded[e.file_index - 1].len(),
        yielded[e.file_index - 1][e.ordinal@ as int] == e.position,
        report == overlaps(&e.position, &rec.base),
        report ==> forall|i: int|
            0 <= i < rec.overlapping.len() ==> #[trigger] report_order(
                rec.overlapping[i],
                (e.file_index, e.position),
            ),
    ensures
        emission_ok(next, yielded2),
        next.base == rec.base,
        next.floor == rec.floor,
        next.ceiling == rec.ceiling.update(e.file_index - 1, e.ordinal@ + 1),
        report ==> next.overlapping == rec.overlapping.push((e.file_index, e.position))
            && next.ordinals == rec.ordinals.push(e.ordinal@),
        !report ==> next.overlapping == rec.overlapping && next.ordinals == rec.ordinals,
{
    let slot = e.file_index - 1;
    let ordinal = e.ordinal@;
    let next = Emission {
        base: rec.base,
        overlapping: if report {
            rec.overlapping.push((e.file_index, e.position))
        } else {
            rec.overlapping
        },
        ordinals: if report {
            rec.ordinals.push(ordinal)
        } else {
            rec.ordinals
        },
        floor: rec.floor,
        ceiling: rec.ceiling.update(slot, ordinal + 1),
    };
    let n = rec.overlapping.len() as int;
    assert forall|s: int| 0 <= s < yielded2.len() implies next.floor[s]
        <= #[trigger] next.ceiling[s] <= yielded2[s].len() by {
        assert(rec.floor[s] <= rec.ceiling[s] <= yielded[s].len());
        assert(yielded[s].len() <= yielded2[s].len());
    }
    assert forall|j: int| 0 <= j < next.overlapping.len() implies #[trigger] report_ok(
        next,
        yielded2,
        j,
    ) by {
        if j < n {
            assert(report_ok(rec, yielded, j));
            let source = rec.overlapping[j].0 as int;
            assert(rec.ceiling[source - 1] <= yielded[source - 1].len());
            assert(rec.ceiling[source - 1] <= next.ceiling[source - 1]);
        } else {
            assert(rec.floor[slot] <= rec.ceiling[slot]);
        }
    }
    assert forall|i: int, j: int| 0 <= i < j < next.overlapping.len() implies #[trigger] report_order(
        next.overlapping[i],
        next.overlapping[j],
    ) by {
        if j < n {
            assert(report_order(rec.overlapping[i], rec.overlapping[j]));
        } else {
            assert(report_order(rec.overlapping[i], (e.file_index, e.position)));
        }
    }
    assert forall|i: int, j: int|
        0 <= i < j < next.overlapping.len() && next.overlapping[i].0
            == next.overlapping[j].0 implies #[trigger] next.ordinals[i]
        < #[trigger] next.ordinals[j] by {
        if j < n {
            assert(rec.ordinals[i] < rec.ordinals[j]);
        } else {
            assert(report_ok(rec, yielded, i));
        }
    }
    assert forall|s: int, o: int|
        0 <= s < yielded2.len() && next.floor[s] <= o < next.ceiling[s] && #[trigger] overlaps(
            &yielded2[s][o],
            &next.base,
        ) implies reported(next, s + 1, o) by {
        assert(rec.ceiling[s] <= yielded[s].len());
        if s == slot && o == ordinal {
            assert(yielded2[s][o] == e.position);
            assert(report);
            assert(next.overlapping[n].0 == s + 1 && next.ordinals[n] == o);
        } else {
            assert(o < rec.ceiling[s]);
            assert(yielded2[s][o] == yielded[s][o]);
            assert(overlaps(&yielded[s][o], &rec.base));
            assert(reported(rec, s + 1, o));
            let j = choose|j: int|
                0 <= j < rec.overlapping.len() && #[trigger] rec.overlapping[j].0 == s + 1
                    && rec.ordinals[j] == o;
            assert(next.overlapping[j].0 == s + 1 && next.ordinals[j] == o);
        }
    }
    next
}

/// The merge of one base stream with any number of other streams.
///
/// The queue holds the head of every other stream that has not ended. For
/// each base interval, heads are taken from the queue until the first one
/// is ahead of the base; each head taken is replaced by the next value of
/// its stream, and reported if it overlaps the base. Every stream is read
/// once, front to back.
#[verifier::reject_recursive_types(I)]
#[verifier::reject_recursive_types(P)]
pub struct IntersectionIterator<'c, I: PositionedIterator<Item = P>, P: Positioned> {
    base_iterator: I,
    other_iterators: Vec<I>,
    min_heap: MinHeap<P>,
    chromosome_order: &'c ChromOrder,
    last_base: Option<SortKey>,
    pending: Option<MergeError>,
    finished: bool,
    budget: u64,
    base_log: Ghost<Seq<P>>,
    yielded: Ghost<Seq<Seq<P>>>,
    consumed: Ghost<Seq<nat>>,
    emitted: Ghost<Seq<Emission<P>>>,
}

impl<'c, I: PositionedIterator<Item = P>, P: Positioned> IntersectionIterator<'c, I, P> {
    /// The base stream as it stands.
    pub closed spec fn base_stream(&self) -> I {
        self.base_iterator
    }

    /// The other streams as they stand.
    pub closed spec fn streams(&self) -> Seq<I> {
        self.other_iterators@
    }

    /// The heads in the queue.
    pub closed spec fn heads(&self) -> Multiset<HeapEntry<P>> {
        self.min_heap@
    }

    /// The order table.
    pub closed spec fn order(&self) -> &ChromOrder {
        self.chromosome_order
    }

    /// The key of the last base interval that was accepted.
    pub closed spec fn last_base(&self) -> Option<SortKey> {
        self.last_base
    }

    /// An error met while a head was pulled, kept for the next call of
    /// [`Self::next`].
    pub closed spec fn pending(&self) -> Option<MergeError> {
        self.pending
    }

    /// The merge has reported an error and is over.
    pub closed spec fn failed(&self) -> bool {
        self.finished
    }

    /// How many more values the merge can take from the other streams.
    pub closed spec fn budget(&self) -> u64 {
        self.budget
    }

    /// The values that the base stream has yielded, in order.
    pub closed spec fn base_log(&self) -> Seq<P> {
        self.base_log@
    }

    /// For each other stream, the values that it has yielded and the
    /// merge has accepted, in order.
    pub closed spec fn yielded(&self) -> Seq<Seq<P>> {
        self.yielded@
    }

    /// For each other stream, how many of its values have left the queue.
    pub closed spec fn consumed(&self) -> Seq<nat> {
        self.consumed@
    }

    /// The records emitted so far, in order.
    pub closed spec fn emitted(&self) -> Seq<Emission<P>> {
        self.emitted@
    }

    /// What holds of a merge between any two calls.
    pub closed spec fn inv(&self) -> bool {
        &&& self.chromosome_order.wf()
        &&& self.min_heap.wf()
        &&& self.other_iterators@.len() < usize::MAX
        &&& self.min_heap@.len() <= self.other_iterators@.len()
        &&& self.yielded@.len() == self.other_iterators@.len()
        &&& self.consumed@.len() == self.other_iterators@.len()
        &&& forall|s: int|
            0 <= s < self.yielded@.len() ==> #[trigger] self.consumed@[s] <= self.yielded@[s].len()
        &&& heads_ok(self.min_heap@, self.chromosome_order, self.yielded@, self.consumed@)
        &&& heads_are_live(self.min_heap@, self.chromosome_order, self.yielded@, self.consumed@)
        &&& (self.pending matches Some(e) ==> founded(e.fault, self.chromosome_order, self.budget))
        &&& log_ok(self.emitted@, self.yielded@, self.consumed@)
        &&& self.emitted@.len() <= self.base_log@.len() <= self.emitted@.len() + 1
        &&& !self.finished ==> self.emitted@.len() == self.base_log@.len()
        &&& forall|r: int|
            0 <= r < self.emitted@.len() ==> (#[trigger] self.emitted@[r]).base == self.base_log@[r]
        &&& forall|s: int|
            0 <= s < self.yielded@.len() ==> in_order(
                self.chromosome_order,
                #[trigger] self.yielded@[s],
            )
        &&& in_order(self.chromosome_order, self.base_log@.take(self.emitted@.len() as int))
        &&& self.last_base == floor_of(
            self.chromosome_order,
            self.base_log@.take(self.emitted@.len() as int),
        )
    }

    /// Stream `file_index` has no value waiting in the queue: all that it
    /// has yielded has left the queue.
    pub open spec fn vacant(&self, file_index: usize) -> bool {
        &&& 1 <= file_index <= self.streams().len()
        &&& self.yielded()[file_index - 1].len() == self.consumed()[file_index - 1]
    }

    /// A stream without a waiting value has no head in the queue, and the
    /// queue has room for one.
    proof fn lemma_vacant(&self, file_index: usize)
        requires
            self.inv(),
            self.vacant(file_index),
        ensures
            self.min_heap@.len() < self.other_iterators@.len(),
            forall|e: HeapEntry<P>| #[trigger]
                self.min_heap@.count(e) > 0 ==> e.file_index != file_index,
    {
        lemma_live_count_bound(
            self.yielded@,
            self.consumed@,
            self.yielded@.len() as int,
            file_index - 1,
        );
        assert forall|e: HeapEntry<P>| #[trigger]
            self.min_heap@.count(e) > 0 implies e.file_index != file_index by {
            assert(entry_ok(e, self.chromosome_order, self.yielded@, self.consumed@));
        }
    }

    /// Queue, histories, limit and kept error are as they were.
    pub open spec fn untouched_from(&self, before: &Self) -> bool {
        &&& self.heads() == before.heads()
        &&& self.yielded() == before.yielded()
        &&& self.budget() == before.budget()
        &&& self.pending() == before.pending()
    }

    /// Queue, histories and limit are as they were, and an error is kept:
    /// the one that was kept before, if there was one.
    pub open spec fn kept_from(&self, before: &Self) -> bool {
        &&& self.heads() == before.heads()
        &&& self.yielded() == before.yielded()
        &&& self.budget() == before.budget()
        &&& self.pending() is Some
        &&& before.pending() is Some ==> self.pending() == before.pending()
    }

    /// Takes what stream `file_index` has just yielded: `pulled` is what
    /// the pull returned, `floor` the key of the stream's last value.
    ///
    /// The end of the stream changes nothing. A value that passes
    /// [`screen`] while the limit of values is not used up becomes the
    /// newest of its stream's history and the head of its stream, and is
    /// accepted. Anything else is refused and changes nothing, but that its
    /// fault is kept as the merge's error, unless an earlier one is kept
    /// already. The result says whether the pull was accepted.
    pub fn enqueue(
        &mut self,
        file_index: usize,
        pulled: Option<Result<P, StreamError>>,
        floor: Option<SortKey>,
    ) -> (accepted: bool)
        requires
            old(self).inv(),
            old(self).vacant(file_index),
            floor == floor_of(old(self).order(), old(self).yielded()[file_index - 1]),
        ensures
            final(self).inv(),
            final(self).base_stream() == old(self).base_stream(),
            final(self).streams() == old(self).streams(),
            final(self).order() == old(self).order(),
            final(self).last_base() == old(self).last_base(),
            final(self).failed() == old(self).failed(),
            final(self).base_log() == old(self).base_log(),
            final(self).consumed() == old(self).consumed(),
            final(self).emitted() == old(self).emitted(),
            !accepted ==> final(self).kept_from(old(self)),
            match pulled {
                None => accepted && final(self).untouched_from(old(self)),
                Some(Err(e)) => !accepted && (old(self).pending() is None ==> final(self).pending()->0.fault == Fault::Stream(e)),
                Some(Ok(p)) => match old(self).order().rank_of(p.chromosome_view()) {
                    None => !accepted && (old(self).pending() is None ==> (final(self).pending()->0.fault matches Fault::UnknownChromosome(name) && name@
                        == p.chromosome_view())),
                    Some(rank) => {
                        let key = SortKey { rank, start: p.start_view(), stop: p.stop_view() };
                        if floor is Some && !floor->0.not_after(key) {
                            !accepted && (old(self).pending() is None ==> final(self).pending()->0.fault == (Fault::OutOfOrder {
                                previous: floor->0,
                                current: key,
                            }))
                        } else if old(self).budget() == 0 {
                            !accepted && (old(self).pending() is None ==> final(self).pending()->0.fault == Fault::TooManyValues)
                        } else {
                            let head = HeapEntry {
                                position: p,
                                file_index,
                                rank,
                                ordinal: Ghost(old(self).consumed()[file_index - 1]),
                            };
                            &&& accepted
                            &&& final(self).pending() == old(self).pending()
                            &&& final(self).heads() == old(self).heads().insert(head)
                            &&& final(self).yielded() == old(self).yielded().update(
                                file_index - 1,
                                old(self).yielded()[file_index - 1].push(p),
                            )
                            &&& final(self).budget() == old(self).budget() - 1
                        }
                    },
                },
            },
    {
        proof {
            self.lemma_vacant(file_index);
        }
        let verdict = screen(self.chromosome_order, pulled, floor);
        match verdict {
            Err(fault) => {
                if self.pending.is_none() {
                    let source = self.other_iterators[file_index - 1].name();
                    self.pending = Some(MergeError { source, fault });
                }
                false
            },
            Ok(None) => true,
            Ok(Some((p, rank))) => {
                if self.budget == 0 {
                    if self.pending.is_none() {
                        let source = self.other_iterators[file_index - 1].name();
                        self.pending = Some(MergeError { source, fault: Fault::TooManyValues });
                    }
                    return false;
                }
                let ghost slot = file_index - 1;
                let ghost ordinal = self.consumed@[slot];
                let ghost grown = self.yielded@.update(slot, self.yielded@[slot].push(p));
                let entry = HeapEntry { position: p, file_index, rank, ordinal: Ghost(ordinal) };
                proof {
                    assert(extends(self.yielded@, grown));
                    assert(not_below(self.consumed@, self.consumed@));
                    lemma_log_stable(
                        self.emitted@,
                        self.yielded@,
                        self.consumed@,
                        grown,
                        self.consumed@,
                    );
                    assert forall|s: int| 0 <= s < grown.len() implies in_order(
                        self.chromosome_order,
                        #[trigger] grown[s],
                    ) by {
                        assert(in_order(self.chromosome_order, self.yielded@[s]));
                        if s == slot {
                            let before = self.yielded@[s];
                            let after = grown[s];
                            assert forall|i: int| 0 <= i < after.len() implies self.chromosome_order.rank_of(
                                (#[trigger] after[i]).chromosome_view(),
                            ) is Some by {
                                if i < before.len() {
                                    assert(after[i] == before[i]);
                                }
                            }
                            assert forall|i: int| 0 < i < after.len() implies key_of(
                                self.chromosome_order,
                                after[i - 1],
                            ).not_after(#[trigger] key_of(self.chromosome_order, after[i])) by {
                                if i < before.len() {
                                    assert(after[i] == before[i]);
                                    assert(after[i - 1] == before[i - 1]);
                                    assert(key_of(self.chromosome_order, before[i - 1]).not_after(
                                        key_of(self.chromosome_order, before[i]),
                                    ));
                                } else {
                                    assert(after[i - 1] == before.last());
                                }
                            }
                        }
                    }
                    assert(self.min_heap@.count(entry) == 0);
                    assert forall|e: HeapEntry<P>| #[trigger]
                        self.min_heap@.insert(entry).count(e) > 0 implies self.min_heap@.insert(
                        entry,
                    ).count(e) == 1 && entry_ok(e, self.chromosome_order, grown, self.consumed@) by {
                        if e != entry {
                            assert(self.min_heap@.count(e) > 0);
                            assert(entry_ok(e, self.chromosome_order, self.yielded@, self.consumed@));
                        }
                    }
                    assert forall|s: int|
                        0 <= s < grown.len() && is_live(
                            grown,
                            self.consumed@,
                            s,
                        ) implies self.min_heap@.insert(entry).count(
                        #[trigger] head_of(self.chromosome_order, grown, self.consumed@, s),
                    ) == 1 by {
                        if s == slot {
                            assert(head_of(self.chromosome_order, grown, self.consumed@, s)
                                == entry);
                        } else {
                            assert(is_live(self.yielded@, self.consumed@, s));
                            assert(head_of(self.chromosome_order, grown, self.consumed@, s)
                                == head_of(self.chromosome_order, self.yielded@, self.consumed@, s));
                        }
                    }
                    lemma_live_count_change(
                        self.yielded@,
                        self.consumed@,
                        grown,
                        self.consumed@,
                        slot,
                        grown.len() as int,
                    );
                }
                self.yielded = Ghost(grown);
                self.min_heap.push(entry);
                self.budget = self.budget - 1;
                true
            },
        }
    }

    /// Pulls stream `file_index` once and hands what it yields to
    /// [`Self::enqueue`]. Whatever the stream returns, no other stream is
    /// touched, and either nothing changes but the kept error, or the value
    /// pulled becomes the newest of its stream's history and the head of
    /// its stream, at the cost of one from the limit.
    fn refill(&mut self, file_index: usize, floor: Option<SortKey>) -> (accepted: bool)
        requires
            old(self).inv(),
            old(self).vacant(file_index),
            floor == floor_of(old(self).chromosome_order, old(self).yielded@[file_index - 1]),
        ensures
            final(self).inv(),
            final(self).base_iterator == old(self).base_iterator,
            final(self).chromosome_order == old(self).chromosome_order,
            final(self).last_base == old(self).last_base,
            final(self).finished == old(self).finished,
            final(self).base_log == old(self).base_log,
            final(self).consumed == old(self).consumed,
            final(self).emitted == old(self).emitted,
            final(self).other_iterators@.len() == old(self).other_iterators@.len(),
            extends(old(self).yielded@, final(self).yielded@),
            forall|s: int|
                0 <= s < old(self).yielded@.len() && s != file_index - 1 ==> final(self).yielded@[s]
                    == old(self).yielded@[s],
            forall|s: int|
                0 <= s < old(self).other_iterators@.len() && s != file_index - 1 ==> final(self).other_iterators@[s] == old(self).other_iterators@[s],
            final(self).yielded@[file_index - 1].len() <= old(self).yielded@[file_index - 1].len() + 1,
            final(self).min_heap@.len() + final(self).budget == old(self).min_heap@.len() + old(self).budget,
            accepted ==> final(self).pending == old(self).pending,
            !accepted ==> final(self).kept_from(old(self)),
            old(self).pending is None && floor is None ==> !(final(self).pending matches Some(e)
                && e.fault is OutOfOrder),
            final(self).yielded@ == old(self).yielded@ ==> final(self).min_heap@ == old(self).min_heap@ && final(self).budget == old(self).budget,
            final(self).yielded@ != old(self).yielded@ ==> accepted && ({
                let p = final(self).yielded@[file_index - 1].last();
                let e = HeapEntry {
                    position: p,
                    file_index,
                    rank: old(self).chromosome_order.rank_of(p.chromosome_view())->0,
                    ordinal: Ghost(old(self).consumed@[file_index - 1]),
                };
                &&& final(self).yielded@ == old(self).yielded@.update(
                    file_index - 1,
                    old(self).yielded@[file_index - 1].push(p),
                )
                &&& final(self).min_heap@ == old(self).min_heap@.insert(e)
                &&& final(self).budget == old(self).budget - 1
                &&& old(self).chromosome_order.rank_of(p.chromosome_view()) is Some
                &&& (floor matches Some(f) ==> f.not_after(e.key()))
            }),
    {
        let pulled = self.other_iterators[file_index - 1].next_position(None);
        let ghost histories = self.yielded@;
        let accepted = self.enqueue(file_index, pulled, floor);
        proof {
            if self.yielded@ != histories {
                let slot = file_index - 1;
                assert(self.yielded@[slot].last() == pulled->0->Ok_0);
            }
        }
        accepted
    }

    /// Starts a merge. The head of every other stream is pulled into the
    /// queue, in the order of the streams, until a pull is refused; the
    /// base stream is not touched. The fault of a refused pull is kept and
    /// reported by the first call of [`Self::next`].
    pub fn new(base_iterator: I, other_iterators: Vec<I>, chromosome_order: &'c ChromOrder) -> (merge:
        Self)
        requires
            chromosome_order.wf(),
            other_iterators@.len() < usize::MAX,
        ensures
            merge.inv(),
            merge.base_stream() == base_iterator,
            merge.streams().len() == other_iterators@.len(),
            merge.order() == chromosome_order,
            merge.heads().len() <= other_iterators@.len(),
            merge.budget() + merge.heads().len() == u64::MAX,
            merge.base_log() == Seq::<P>::empty(),
            merge.emitted() == Seq::<Emission<P>>::empty(),
            merge.last_base() is None,
            !merge.failed(),
            merge.yielded().len() == other_iterators@.len(),
            merge.consumed() == Seq::new(other_iterators@.len(), |s: int| 0nat),
            forall|s: int| 0 <= s < other_iterators@.len() ==> #[trigger] merge.yielded()[s].len() <= 1,
            heads_ok(merge.heads(), chromosome_order, merge.yielded(), merge.consumed()),
            heads_are_live(merge.heads(), chromosome_order, merge.yielded(), merge.consumed()),
            other_iterators@.len() == 0 ==> merge.pending() is None,
            merge.pending() matches Some(e) ==> founded(e.fault, chromosome_order, merge.budget())
                && !(e.fault is OutOfOrder),
            merge.pending() is Some ==> exists|s: int|
                0 <= s < other_iterators@.len() && (#[trigger] merge.yielded()[s]).len() == 0,
    {
        Self::with_limit(base_iterator, other_iterators, chromosome_order, u64::MAX)
    }

    /// Starts a merge that takes at most `limit` values from the other
    /// streams, all together. A value beyond the limit is refused like a
    /// value that its stream failed to deliver.
    pub fn with_limit(
        base_iterator: I,
        other_iterators: Vec<I>,
        chromosome_order: &'c ChromOrder,
        limit: u64,
    ) -> (merge: Self)
        requires
            chromosome_order.wf(),
            other_iterators@.len() < usize::MAX,
        ensures
            merge.inv(),
            merge.base_stream() == base_iterator,
            merge.streams().len() == other_iterators@.len(),
            merge.order() == chromosome_order,
            merge.heads().len() <= other_iterators@.len(),
            merge.budget() + merge.heads().len() == limit,
            merge.base_log() == Seq::<P>::empty(),
            merge.emitted() == Seq::<Emission<P>>::empty(),
            merge.last_base() is None,
            !merge.failed(),
            merge.yielded().len() == other_iterators@.len(),
            merge.consumed() == Seq::new(other_iterators@.len(), |s: int| 0nat),
            forall|s: int| 0 <= s < other_iterators@.len() ==> #[trigger] merge.yielded()[s].len() <= 1,
            heads_ok(merge.heads(), chromosome_order, merge.yielded(), merge.consumed()),
            heads_are_live(merge.heads(), chromosome_order, merge.yielded(), merge.consumed()),
            other_iterators@.len() == 0 ==> merge.pending() is None,
            merge.pending() matches Some(e) ==> founded(e.fault, chromosome_order, merge.budget())
                && !(e.fault is OutOfOrder),
            merge.pending() is Some ==> exists|s: int|
                0 <= s < other_iterators@.len() && (#[trigger] merge.yielded()[s]).len() == 0,
    {
        let k: usize = other_iterators.len();
        let mut merge = IntersectionIterator {
            base_iterator,
            other_iterators,
            min_heap: MinHeap::new(),
            chromosome_order,
            last_base: None,
            pending: None,
            finished: false,
            budget: limit,
            base_log: Ghost(Seq::empty()),
            yielded: Ghost(Seq::new(k as nat, |s: int| Seq::<P>::empty())),
            consumed: Ghost(Seq::new(k as nat, |s: int| 0nat)),
            emitted: Ghost(Seq::empty()),
        };
        proof {
            lemma_live_count_change(
                merge.yielded@,
                merge.consumed@,
                merge.yielded@,
                merge.consumed@,
                k as int,
                k as int,
            );
            lemma_live_count_none(merge.yielded@, merge.consumed@, k as int);
        }
        let mut i: usize = 0;
        while i < k
            invariant_except_break
                merge.pending is None,
                merge.min_heap@.len() <= i,
                forall|s: int| i <= s < k ==> #[trigger] merge.yielded@[s].len() == 0,
                forall|e: HeapEntry<P>| #[trigger] merge.min_heap@.count(e) > 0 ==> e.file_index <= i,
            invariant
                i <= k,
                k < usize::MAX,
                merge.inv(),
                merge.other_iterators@.len() == k,
                merge.base_iterator == base_iterator,
                merge.chromosome_order == chromosome_order,
                merge.last_base is None,
                !merge.finished,
                merge.budget + merge.min_heap@.len() == limit,
                merge.base_log@ == Seq::<P>::empty(),
                merge.emitted@ == Seq::<Emission<P>>::empty(),
                merge.consumed@ == Seq::new(k as nat, |s: int| 0nat),
                forall|s: int| 0 <= s < k ==> #[trigger] merge.yielded@[s].len() <= 1,
                merge.pending matches Some(e) ==> !(e.fault is OutOfOrder),
                k == 0 ==> merge.pending is None,
                merge.pending is Some ==> exists|s: int|
                    0 <= s < k && (#[trigger] merge.yielded@[s]).len() == 0,
            decreases k - i,
        {
            let ghost before = merge;
            let accepted = merge.refill(i + 1, None);
            if !accepted {
                assert(merge.yielded@[i as int].len() == 0);
                break ;
            }
            proof {
                assert forall|e: HeapEntry<P>| #[trigger]
                    merge.min_heap@.count(e) > 0 implies e.file_index <= i + 1 by {
                    if before.min_heap@.count(e) > 0 {
                    }
                }
            }
            i += 1;
        }
        merge
    }

    /// Takes the first head from the queue and pulls the next value of its
    /// stream into the queue. If that value is refused, the stream is left
    /// without a head, and [`Self::enqueue`] has kept the error for the
    /// next call of [`Self::next`].
    fn take_first(&mut self) -> (e: HeapEntry<P>)
        requires
            old(self).inv(),
            old(self).min_heap@.len() > 0,
        ensures
            final(self).inv(),
            final(self).base_iterator == old(self).base_iterator,
            final(self).chromosome_order == old(self).chromosome_order,
            final(self).last_base == old(self).last_base,
            old(self).pending is Some ==> final(self).pending == old(self).pending,
            final(self).finished == old(self).finished,
            final(self).base_log == old(self).base_log,
            final(self).emitted == old(self).emitted,
            final(self).other_iterators@.len() == old(self).other_iterators@.len(),
            extends(old(self).yielded@, final(self).yielded@),
            is_first_of(old(self).min_heap@, e),
            entry_ok(e, old(self).chromosome_order, old(self).yielded@, old(self).consumed@),
            final(self).consumed@ == old(self).consumed@.update(e.file_index - 1, e.ordinal@ + 1),
            forall|x: HeapEntry<P>|
                final(self).min_heap@.count(x) > 0 ==> #[trigger] e.leaves_before(&x),
            final(self).min_heap@.len() + final(self).budget < old(self).min_heap@.len() + old(self).budget,
    {
        let ghost heads = self.min_heap@;
        let ghost counts = self.consumed@;
        let entry = self.min_heap.pop().unwrap();
        let ghost slot = entry.file_index - 1;
        let ghost advanced = self.consumed@.update(slot, entry.ordinal@ + 1);
        proof {
            assert(heads.count(entry) > 0);
            assert(entry_ok(entry, self.chromosome_order, self.yielded@, self.consumed@));
            assert(not_below(self.consumed@, advanced));
            assert(extends(self.yielded@, self.yielded@));
            lemma_log_stable(self.emitted@, self.yielded@, self.consumed@, self.yielded@, advanced);
            assert forall|x: HeapEntry<P>| #[trigger]
                self.min_heap@.count(x) > 0 implies self.min_heap@.count(x) == 1 && entry_ok(
                x,
                self.chromosome_order,
                self.yielded@,
                advanced,
            ) && x.file_index != entry.file_index by {
                assert(heads.count(x) > 0);
                assert(entry_ok(x, self.chromosome_order, self.yielded@, self.consumed@));
                if x.file_index == entry.file_index {
                    assert(x == entry);
                }
            }
            assert forall|s: int|
                0 <= s < self.yielded@.len() && is_live(
                    self.yielded@,
                    advanced,
                    s,
                ) implies self.min_heap@.count(
                #[trigger] head_of(self.chromosome_order, self.yielded@, advanced, s),
            ) == 1 by {
                assert(s != slot);
                assert(is_live(self.yielded@, counts, s));
                assert(head_of(self.chromosome_order, self.yielded@, advanced, s) == head_of(
                    self.chromosome_order,
                    self.yielded@,
                    counts,
                    s,
                ));
            }
            lemma_live_count_change(
                self.yielded@,
                counts,
                self.yielded@,
                advanced,
                slot,
                self.yielded@.len() as int,
            );
        }
        self.consumed = Ghost(advanced);
        let key = entry.sort_key();
        let ghost popped = self.min_heap@;
        let accepted = self.refill(entry.file_index, Some(key));
        proof {
            assert forall|x: HeapEntry<P>|
                self.min_heap@.count(x) > 0 implies #[trigger] entry.leaves_before(&x) by {
                if popped.count(x) > 0 {
                    assert(heads.count(x) > 0);
                }
            }
        }
        entry
    }

    /// Emits the record of the next base interval, or `None` when the base
    /// stream has ended.
    ///
    /// A value is refused when its stream fails to deliver it, when the
    /// table does not have its chromosome, or when its key is before that
    /// of its stream's previous value. A value of the base stream that is
    /// refused ends the merge with an error at once. A value of another
    /// stream that is refused leaves that stream without a head; the record
    /// in the making is finished without it, and the next call ends the
    /// merge with the error. After an error every call returns `None`.
    pub fn next(&mut self) -> (r: Option<Result<Intersection<P>, MergeError>>)
        requires
            old(self).inv(),
        ensures
            final(self).inv(),
            final(self).order() == old(self).order(),
            final(self).streams().len() == old(self).streams().len(),
            final(self).heads().len() <= final(self).streams().len(),
            extends(old(self).yielded(), final(self).yielded()),
            not_below(old(self).consumed(), final(self).consumed()),
            old(self).failed() ==> r is None && *final(self) == *old(self),
            !old(self).failed() && old(self).pending() is Some ==> {
                &&& r == Some(Err::<Intersection<P>, MergeError>(old(self).pending()->0))
                &&& final(self).failed()
                &&& final(self).base_log() == old(self).base_log()
                &&& final(self).emitted() == old(self).emitted()
            },
            !old(self).failed() && old(self).pending() is None ==> match r {
                None => {
                    &&& !final(self).failed()
                    &&& final(self).base_log() == old(self).base_log()
                    &&& final(self).emitted() == old(self).emitted()
                    &&& final(self).heads() == old(self).heads()
                    &&& final(self).yielded() == old(self).yielded()
                    &&& final(self).consumed() == old(self).consumed()
                },
                Some(Ok(rec)) => {
                    let made = final(self).emitted().last();
                    &&& !final(self).failed()
                    &&& final(self).base_log() == old(self).base_log().push(rec.base)
                    &&& final(self).emitted() == old(self).emitted().push(made)
                    &&& made.base == rec.base
                    &&& made.overlapping == rec.overlapping@
                    &&& made.floor == old(self).consumed()
                    &&& made.ceiling == final(self).consumed()
                    &&& emission_ok(made, final(self).yielded())
                    &&& final(self).last_base() is Some
                    &&& final(self).order().rank_of(rec.base.chromosome_view()) == Some(
                        final(self).last_base()->0.rank,
                    )
                    &&& final(self).last_base()->0.start == rec.base.start_view()
                    &&& final(self).last_base()->0.stop == rec.base.stop_view()
                    &&& old(self).last_base() matches Some(previous) ==> previous.not_after(
                        final(self).last_base()->0,
                    )
                    &&& forall|e: HeapEntry<P>| #[trigger]
                        is_first_of(final(self).heads(), e) ==> placement(
                            e.key(),
                            final(self).last_base()->0,
                        ) == Placement::Ahead
                    &&& forall|s: int, o: int|
                        0 <= s < final(self).streams().len() && made.floor[s] <= o
                            < made.ceiling[s] ==> placement(
                            key_of(final(self).order(), #[trigger] final(self).yielded()[s][o]),
                            final(self).last_base()->0,
                        ) != Placement::Ahead
                },
                Some(Err(e)) => {
                    let last = final(self).base_log().last();
                    &&& final(self).failed()
                    &&& final(self).emitted() == old(self).emitted()
                    &&& final(self).heads() == old(self).heads()
                    &&& final(self).yielded() == old(self).yielded()
                    &&& final(self).consumed() == old(self).consumed()
                    &&& match e.fault {
                        Fault::Stream(_) => final(self).base_log() == old(self).base_log(),
                        Fault::UnknownChromosome(name) => {
                            &&& final(self).base_log() == old(self).base_log().push(last)
                            &&& last.chromosome_view() == name@
                            &&& final(self).order().rank_of(name@) is None
                        },
                        Fault::OutOfOrder { previous, current } => {
                            &&& final(self).base_log() == old(self).base_log().push(last)
                            &&& old(self).last_base() == Some(previous)
                            &&& final(self).order().rank_of(last.chromosome_view()) == Some(
                                current.rank,
                            )
                            &&& current.start == last.start_view()
                            &&& current.stop == last.stop_view()
                            &&& !previous.not_after(current)
                        },
                        Fault::TooManyValues => false,
                    }
                },
            },
    {
        if self.finished {
            return None;
        }
        if self.pending.is_some() {
            let e = self.pending.take().unwrap();
            self.finished = true;
            return Some(Err(e));
        }
        let pulled = self.base_iterator.next_position(None);
        let ghost seen = pulled;
        let verdict = screen(self.chromosome_order, pulled, self.last_base);
        let (base, rank) = match verdict {
            Err(fault) => {
                let e = MergeError { source: self.base_iterator.name(), fault };
                self.finished = true;
                proof {
                    let n = self.emitted@.len() as int;
                    assert(self.base_log@.take(n) =~= self.base_log@);
                    match seen {
                        Some(Ok(b)) => {
                            assert(self.base_log@.push(b).take(n) =~= self.base_log@);
                        },
                        _ => {},
                    }
                }
                self.base_log = Ghost(
                    match seen {
                        Some(Ok(b)) => self.base_log@.push(b),
                        _ => self.base_log@,
                    },
                );
                return Some(Err(e));
            },
            Ok(None) => {
                return None;
            },
            Ok(Some(accepted)) => accepted,
        };
        let base_key = SortKey { rank, start: base.start(), stop: base.stop() };
        let mut overlapping: Vec<(usize, P)> = Vec::new();
        let ghost floor = self.consumed@;
        let ghost mut rec = Emission {
            base,
            overlapping: Seq::empty(),
            ordinals: Seq::empty(),
            floor,
            ceiling: floor,
        };
        let ghost mut taken: Seq<HeapEntry<P>> = Seq::empty();
        let ghost mut bound: Option<HeapEntry<P>> = None;
        proof {
            assert(emission_ok(rec, self.yielded@));
        }
        loop
            invariant
                self.inv(),
                !old(self).finished,
                old(self).pending is None,
                self.chromosome_order == old(self).chromosome_order,
                self.last_base == old(self).last_base,
                !self.finished,
                self.base_log == old(self).base_log,
                self.emitted == old(self).emitted,
                self.other_iterators@.len() == old(self).other_iterators@.len(),
                extends(old(self).yielded@, self.yielded@),
                not_below(old(self).consumed@, self.consumed@),
                floor == old(self).consumed@,
                base_key == (SortKey { rank, start: base.start_view(), stop: base.stop_view() }),
                self.chromosome_order.rank_of(base.chromosome_view()) == Some(rank),
                rec.base == base,
                rec.floor == floor,
                rec.ceiling == self.consumed@,
                rec.overlapping == overlapping@,
                emission_ok(rec, self.yielded@),
                taken.len() == rec.overlapping.len(),
                forall|i: int|
                    0 <= i < taken.len() ==> (#[trigger] taken[i]).position == rec.overlapping[i].1
                        && taken[i].file_index == rec.overlapping[i].0 && taken[i].rank == rank,
                bound is None ==> taken.len() == 0,
                bound matches Some(b) ==> forall|i: int|
                    0 <= i < taken.len() ==> (#[trigger] taken[i]).leaves_before(&b),
                bound matches Some(b) ==> forall|x: HeapEntry<P>|
                    self.min_heap@.count(x) > 0 ==> #[trigger] b.leaves_before(&x),
                forall|s: int, o: int|
                    0 <= s < self.yielded@.len() && floor[s] <= o < self.consumed@[s] ==> placement(
                        key_of(self.chromosome_order, #[trigger] self.yielded@[s][o]),
                        base_key,
                    ) != Placement::Ahead,
            ensures
                forall|e: HeapEntry<P>| #[trigger]
                    is_first_of(self.min_heap@, e) ==> placement(e.key(), base_key)
                        == Placement::Ahead,
            decreases self.min_heap@.len() + self.budget,
        {
            let ghost mut first: Option<HeapEntry<P>> = None;
            let ahead = match self.min_heap.peek() {
                None => true,
                Some(top) => {
                    proof {
                        first = Some(*top);
                    }
                    let key = top.sort_key();
                    match classify(&key, &base_key) {
                        Placement::Ahead => true,
                        _ => false,
                    }
                },
            };
            if ahead {
                proof {
                    assert forall|e: HeapEntry<P>| #[trigger]
                        is_first_of(self.min_heap@, e) implies placement(e.key(), base_key)
                        == Placement::Ahead by {
                        assert(self.min_heap@.count(e) <= self.min_heap@.len());
                        let top = first->0;
                        assert(e.leaves_before(&top));
                        assert(top.leaves_before(&e));
                    }
                }
                break ;
            }
            let ghost heads = self.min_heap@;
            let ghost histories = self.yielded@;
            let ghost counts = self.consumed@;
            let entry = self.take_first();
            proof {
                let top = first->0;
                assert(entry.leaves_before(&top));
                assert(top.leaves_before(&entry));
                assert(entry.key() == key_of(self.chromosome_order, entry.position));
                let slot = entry.file_index - 1;
                assert forall|s: int, o: int|
                    0 <= s < self.yielded@.len() && floor[s] <= o < self.consumed@[s] implies placement(
                    key_of(self.chromosome_order, #[trigger] self.yielded@[s][o]),
                    base_key,
                ) != Placement::Ahead by {
                    assert(counts[s] <= histories[s].len());
                    if s == slot && o == entry.ordinal@ {
                        assert(self.yielded@[s][o] == histories[s][o]);
                    } else {
                        assert(o < counts[s]);
                        assert(self.yielded@[s][o] == histories[s][o]);
                    }
                }
            }
            let key = entry.sort_key();
            let report = reports(&key, &base_key);
            proof {
                if entry.position.chromosome_view() == base.chromosome_view() {
                } else if report {
                    lemma_rank_names(
                        self.chromosome_order,
                        entry.position.chromosome_view(),
                        base.chromosome_view(),
                    );
                }
                assert(report == overlaps(&entry.position, &base));
                if bound is Some {
                    assert(heads.count(entry) > 0);
                    assert(bound->0.leaves_before(&entry));
                }
                if report {
                    assert forall|i: int|
                        0 <= i < rec.overlapping.len() implies #[trigger] report_order(
                        rec.overlapping[i],
                        (entry.file_index, entry.position),
                    ) by {
                        assert(taken[i].leaves_before(&bound->0));
                        assert(taken[i].leaves_before(&entry));
                    }
                }
                rec = lemma_record_step(rec, histories, self.yielded@, entry, report);
                assert forall|i: int| 0 <= i < taken.len() implies (#[trigger] taken[i]).leaves_before(
                    &entry,
                ) by {
                    assert(taken[i].leaves_before(&bound->0));
                }
                if report {
                    taken = taken.push(entry);
                }
                bound = Some(entry);
            }
            if report {
                overlapping.push((entry.file_index, entry.position));
            }
        }
        self.last_base = Some(base_key);
        proof {
            let made = rec;
            let log = self.emitted@.push(made);
            assert forall|r: int| 0 <= r < log.len() implies #[trigger] emission_ok(
                log[r],
                self.yielded@,
            ) by {
                if r < self.emitted@.len() {
                    assert(emission_ok(self.emitted@[r], self.yielded@));
                }
            }
            assert forall|r: int, s: int|
                0 <= r < log.len() - 1 && 0 <= s < self.yielded@.len() implies #[trigger] log[r].ceiling[s]
                <= log[r + 1].floor[s] by {
                if r < self.emitted@.len() - 1 {
                    assert(self.emitted@[r].ceiling[s] <= self.emitted@[r + 1].floor[s]);
                } else {
                    assert(old(self).emitted@.last().ceiling[s] <= old(self).consumed@[s]);
                }
            }
            assert(log_ok(log, self.yielded@, self.consumed@));
            let n = self.emitted@.len() as int;
            let bases = self.base_log@.push(base);
            assert(self.base_log@.take(n) =~= self.base_log@);
            assert(bases.take(n + 1) =~= bases);
            assert forall|i: int| 0 <= i < bases.len() implies self.chromosome_order.rank_of(
                (#[trigger] bases[i]).chromosome_view(),
            ) is Some by {
                if i < n {
                    assert(bases[i] == self.base_log@[i]);
                }
            }
            assert forall|i: int| 0 < i < bases.len() implies key_of(
                self.chromosome_order,
                bases[i - 1],
            ).not_after(#[trigger] key_of(self.chromosome_order, bases[i])) by {
                if i < n {
                    assert(bases[i] == self.base_log@[i]);
                    assert(bases[i - 1] == self.base_log@[i - 1]);
                    assert(key_of(self.chromosome_order, self.base_log@[i - 1]).not_after(
                        key_of(self.chromosome_order, self.base_log@[i]),
                    ));
                } else {
                    assert(bases[i - 1] == self.base_log@.last());
                }
            }
        }
        self.base_log = Ghost(self.base_log@.push(base));
        self.emitted = Ghost(self.emitted@.push(rec));
        Some(Ok(Intersection { base, overlapping }))
    }
}

/// Records are made one after another: what had left the queue when an
/// earlier record was finished had left it when a later one was begun.
proof fn lemma_records_follow<P: Positioned>(
    emitted: Seq<Emission<P>>,
    yielded: Seq<Seq<P>>,
    consumed: Seq<nat>,
    r1: int,
    r2: int,
    s: int,
)
    requires
        log_ok(emitted, yielded, consumed),
        0 <= r1 < r2 < emitted.len(),
        0 <= s < yielded.len(),
    ensures
        emitted[r1].ceiling[s] <= emitted[r2].floor[s],
    decreases r2 - r1,
{
    if r1 + 1 < r2 {
        lemma_records_follow(emitted, yielded, consumed, r1, r2 - 1, s);
        assert(emission_ok(emitted[r2 - 1], yielded));
        assert(emitted[r2 - 1].floor[s] <= emitted[r2 - 1].ceiling[s]);
        assert(emitted[r2 - 1].ceiling[s] <= emitted[r2 - 1 + 1].floor[s]);
    } else {
        assert(emitted[r1].ceiling[s] <= emitted[r1 + 1].floor[s]);
    }
}

impl<'c, I: PositionedIterator<Item = P>, P: Positioned> IntersectionIterator<'c, I, P> {
    /// As long as no error has been reported, there are as many records
    /// as the base stream has yielded values.
    pub proof fn lemma_one_record_per_base(&self)
        requires
            self.inv(),
            !self.failed(),
        ensures
            self.emitted().len() == self.base_log().len(),
    {
    }

    /// After an error, at most the last value of the base stream is
    /// without a record.
    pub proof fn lemma_records_after_failure(&self)
        requires
            self.inv(),
        ensures
            self.emitted().len() <= self.base_log().len() <= self.emitted().len() + 1,
    {
    }

    /// The records come in the order of the base stream: the base of
    /// record `r` is the value that the base stream yielded at its pull
    /// `r`.
    pub proof fn lemma_bases_in_order(&self, r: int)
        requires
            self.inv(),
            0 <= r < self.emitted().len(),
        ensures
            r < self.base_log().len(),
            self.emitted()[r].base == self.base_log()[r],
    {
    }

    /// Every other stream has been in order so far: the table has the
    /// chromosome of each of its values, and no value's key is before that
    /// of an earlier one.
    pub proof fn lemma_streams_in_order(&self, s: int, i: int, j: int)
        requires
            self.inv(),
            0 <= s < self.streams().len(),
            0 <= i <= j < self.yielded()[s].len(),
        ensures
            self.order().rank_of(self.yielded()[s][j].chromosome_view()) is Some,
            key_of(self.order(), self.yielded()[s][i]).not_after(
                key_of(self.order(), self.yielded()[s][j]),
            ),
    {
        assert(in_order(self.chromosome_order, self.yielded@[s]));
        lemma_in_order_far(self.chromosome_order, self.yielded@[s], i, j);
    }

    /// The bases of the records are in order.
    pub proof fn lemma_bases_in_key_order(&self, i: int, j: int)
        requires
            self.inv(),
            0 <= i <= j < self.emitted().len(),
        ensures
            self.order().rank_of(self.emitted()[j].base.chromosome_view()) is Some,
            key_of(self.order(), self.emitted()[i].base).not_after(
                key_of(self.order(), self.emitted()[j].base),
            ),
    {
        let bases = self.base_log@.take(self.emitted@.len() as int);
        lemma_in_order_far(self.chromosome_order, bases, i, j);
        assert(bases[i] == self.emitted@[i].base);
        assert(bases[j] == self.emitted@[j].base);
    }

    /// The queue holds the waiting values and nothing else: every head is
    /// the newest value of its stream, and every stream that has yielded
    /// one more value than have left the queue has its head there.
    pub proof fn lemma_heads_are_the_waiting_values(&self)
        requires
            self.inv(),
        ensures
            heads_ok(self.heads(), self.order(), self.yielded(), self.consumed()),
            heads_are_live(self.heads(), self.order(), self.yielded(), self.consumed()),
    {
    }

    /// An error that is kept was found: the chromosome it names is not in
    /// the table, the keys it names are out of order, the limit it speaks
    /// of is used up.
    pub proof fn lemma_kept_error_is_founded(&self)
        requires
            self.inv(),
            self.pending() is Some,
        ensures
            founded(self.pending()->0.fault, self.order(), self.budget()),
    {
    }

    /// The queue never holds more heads than there are other streams.
    pub proof fn lemma_heap_bound(&self)
        requires
            self.inv(),
        ensures
            self.heads().len() <= self.streams().len(),
    {
    }

    /// The queue holds at most one head of each stream, each of them the
    /// newest value of its stream.
    pub proof fn lemma_one_head_per_stream(&self, a: HeapEntry<P>, b: HeapEntry<P>)
        requires
            self.inv(),
            self.heads().count(a) > 0,
            self.heads().count(b) > 0,
            a.file_index == b.file_index,
        ensures
            a == b,
            self.heads().count(a) == 1,
            1 <= a.file_index <= self.streams().len(),
            self.yielded()[a.file_index - 1].last() == a.position,
    {
        assert(entry_ok(a, self.chromosome_order, self.yielded@, self.consumed@));
        assert(entry_ok(b, self.chromosome_order, self.yielded@, self.consumed@));
    }

    /// Which head leaves the queue next is decided by what the queue
    /// holds: it has one first entry and no other.
    pub proof fn lemma_first_head_is_unique(&self, a: HeapEntry<P>, b: HeapEntry<P>)
        requires
            self.inv(),
            is_first_of(self.heads(), a),
            is_first_of(self.heads(), b),
        ensures
            a == b,
    {
        assert(a.leaves_before(&b));
        assert(b.leaves_before(&a));
        self.lemma_one_head_per_stream(a, b);
    }

    /// Every record is right in the sense of [`emission_ok`], whatever has
    /// happened since it was made.
    pub proof fn lemma_records_stay_right(&self, r: int)
        requires
            self.inv(),
            0 <= r < self.emitted().len(),
        ensures
            emission_ok(self.emitted()[r], self.yielded()),
    {
    }

    /// Every interval in a record overlaps the record's base: both lie on
    /// the same chromosome, and each starts before the other stops.
    pub proof fn lemma_overlap_correct(&self, r: int, j: int)
        requires
            self.inv(),
            0 <= r < self.emitted().len(),
            0 <= j < self.emitted()[r].overlapping.len(),
        ensures
            ({
                let base = self.emitted()[r].base;
                let found = self.emitted()[r].overlapping[j].1;
                &&& found.chromosome_view() == base.chromosome_view()
                &&& found.start_view() < base.stop_view()
                &&& found.stop_view() > base.start_view()
            }),
    {
        assert(emission_ok(self.emitted@[r], self.yielded@));
        assert(report_ok(self.emitted@[r], self.yielded@, j));
    }

    /// Every interval in a record is a value of one of the other streams:
    /// the stream is named by the entry's index, the value by its ordinal.
    pub proof fn lemma_reports_are_yielded(&self, r: int, j: int)
        requires
            self.inv(),
            0 <= r < self.emitted().len(),
            0 <= j < self.emitted()[r].overlapping.len(),
        ensures
            ({
                let source = self.emitted()[r].overlapping[j].0;
                let ordinal = self.emitted()[r].ordinals[j] as int;
                &&& 1 <= source <= self.streams().len()
                &&& ordinal < self.consumed()[source - 1] <= self.yielded()[source - 1].len()
                &&& self.yielded()[source - 1][ordinal] == self.emitted()[r].overlapping[j].1
            }),
    {
        let rec = self.emitted@[r];
        assert(emission_ok(rec, self.yielded@));
        assert(report_ok(rec, self.yielded@, j));
        let s = rec.overlapping[j].0 - 1;
        assert(rec.ceiling[s] <= self.consumed@[s]) by {
            if r < self.emitted@.len() - 1 {
                let last = self.emitted@.len() - 1;
                lemma_records_follow(self.emitted@, self.yielded@, self.consumed@, r, last, s);
                assert(emission_ok(self.emitted@[last], self.yielded@));
                assert(self.emitted@[last].floor[s] <= self.emitted@[last].ceiling[s]);
                assert(self.emitted@.last().ceiling[s] <= self.consumed@[s]);
            } else {
                assert(self.emitted@.last().ceiling[s] <= self.consumed@[s]);
            }
        }
        assert(self.consumed@[s] <= self.yielded@[s].len());
    }

    /// No value of an other stream is reported twice: two different
    /// entries, of one record or of two, are never the same value of the
    /// same stream.
    pub proof fn lemma_reported_once(&self, r1: int, j1: int, r2: int, j2: int)
        requires
            self.inv(),
            0 <= r1 < self.emitted().len(),
            0 <= j1 < self.emitted()[r1].overlapping.len(),
            0 <= r2 < self.emitted().len(),
            0 <= j2 < self.emitted()[r2].overlapping.len(),
            r1 != r2 || j1 != j2,
            self.emitted()[r1].overlapping[j1].0 == self.emitted()[r2].overlapping[j2].0,
        ensures
            self.emitted()[r1].ordinals[j1] != self.emitted()[r2].ordinals[j2],
    {
        let a = self.emitted@[r1];
        let b = self.emitted@[r2];
        assert(emission_ok(a, self.yielded@));
        assert(emission_ok(b, self.yielded@));
        assert(report_ok(a, self.yielded@, j1));
        assert(report_ok(b, self.yielded@, j2));
        let s = a.overlapping[j1].0 - 1;
        if r1 < r2 {
            lemma_records_follow(self.emitted@, self.yielded@, self.consumed@, r1, r2, s);
        } else if r2 < r1 {
            lemma_records_follow(self.emitted@, self.yielded@, self.consumed@, r2, r1, s);
        } else if j1 < j2 {
            assert(a.ordinals[j1] < a.ordinals[j2]);
        } else {
            assert(a.ordinals[j2] < a.ordinals[j1]);
        }
    }

    /// A record leaves out nothing: every value that left the queue while
    /// the record was made and overlaps its base is in it.
    pub proof fn lemma_nothing_left_out(&self, r: int, s: int, o: int)
        requires
            self.inv(),
            0 <= r < self.emitted().len(),
            0 <= s < self.streams().len(),
            self.emitted()[r].floor[s] <= o < self.emitted()[r].ceiling[s],
            overlaps(&self.yielded()[s][o], &self.emitted()[r].base),
        ensures
            reported(self.emitted()[r], s + 1, o),
    {
        assert(emission_ok(self.emitted@[r], self.yielded@));
    }

    /// Where the other streams have yielded nothing, or there are none,
    /// every record is empty.
    pub proof fn lemma_nothing_to_report(&self, r: int)
        requires
            self.inv(),
            0 <= r < self.emitted().len(),
            forall|s: int| 0 <= s < self.streams().len() ==> self.yielded()[s].len() == 0,
        ensures
            self.emitted()[r].overlapping.len() == 0,
    {
        let rec = self.emitted@[r];
        assert(emission_ok(rec, self.yielded@));
        if rec.overlapping.len() > 0 {
            assert(report_ok(rec, self.yielded@, 0));
            let s = rec.overlapping[0].0 - 1;
            assert(rec.ceiling[s] <= self.yielded@[s].len());
            assert(self.yielded()[s].len() == 0);
        }
    }
}

/// Two right records for the same base, over the same values, agree in
/// their first `n` entries.
proof fn lemma_records_agree_to<P: Positioned>(
    a: Emission<P>,
    b: Emission<P>,
    yielded: Seq<Seq<P>>,
    n: int,
)
    requires
        emission_ok(a, yielded),
        emission_ok(b, yielded),
        a.base == b.base,
        a.floor == b.floor,
        a.ceiling == b.ceiling,
        0 <= n <= a.overlapping.len(),
        n <= b.overlapping.len(),
    ensures
        forall|j: int|
            0 <= j < n ==> #[trigger] a.overlapping[j] == b.overlapping[j] && a.ordinals[j]
                == b.ordinals[j],
    decreases n,
{
    if n > 0 {
        lemma_records_agree_to(a, b, yielded, n - 1);
        let i = n - 1;
        assert(report_ok(a, yielded, i));
        assert(report_ok(b, yielded, i));
        let s = a.overlapping[i].0 as int;
        let o = a.ordinals[i] as int;
        assert(overlaps(&yielded[s - 1][o], &b.base));
        assert(reported(b, (s - 1) + 1, o));
        let k = choose|k: int|
            0 <= k < b.overlapping.len() && #[trigger] b.overlapping[k].0 == s && b.ordinals[k]
                == o;
        let t = b.overlapping[i].0 as int;
        let q = b.ordinals[i] as int;
        assert(overlaps(&yielded[t - 1][q], &a.base));
        assert(reported(a, (t - 1) + 1, q));
        let m = choose|m: int|
            0 <= m < a.overlapping.len() && #[trigger] a.overlapping[m].0 == t && a.ordinals[m]
                == q;
        assert(report_ok(b, yielded, k));
        assert(report_ok(a, yielded, m));
        if k < i {
            assert(a.overlapping[k] == b.overlapping[k]);
            assert(a.ordinals[k] < a.ordinals[i]);
        } else if m < i {
            assert(a.overlapping[m] == b.overlapping[m]);
            assert(b.ordinals[m] < b.ordinals[i]);
        } else if k > i {
            assert(report_order(b.overlapping[i], b.overlapping[k]));
            if m == i {
                assert(b.ordinals[i] < b.ordinals[k]);
            } else {
                assert(report_order(a.overlapping[i], a.overlapping[m]));
                assert(a.ordinals[i] < a.ordinals[m]);
                assert(b.ordinals[i] < b.ordinals[k]);
            }
        }
        assert(k == i);
        assert(a.overlapping[i] == b.overlapping[i]);
    }
}

/// A record is decided by its base, by the values that the other streams
/// have yielded and by how many of them had left the queue before and
/// after it was made: two right records that agree in these are the same
/// record.
pub proof fn lemma_record_is_determined<P: Positioned>(
    a: Emission<P>,
    b: Emission<P>,
    yielded: Seq<Seq<P>>,
)
    requires
        emission_ok(a, yielded),
        emission_ok(b, yielded),
        a.base == b.base,
        a.floor == b.floor,
        a.ceiling == b.ceiling,
    ensures
        a == b,
{
    let la = a.overlapping.len() as int;
    let lb = b.overlapping.len() as int;
    let n = if la <= lb {
        la
    } else {
        lb
    };
    lemma_records_agree_to(a, b, yielded, n);
    if la > lb {
        assert(report_ok(a, yielded, lb));
        let s = a.overlapping[lb].0 as int;
        let o = a.ordinals[lb] as int;
        assert(overlaps(&yielded[s - 1][o], &b.base));
        assert(reported(b, (s - 1) + 1, o));
        let k = choose|k: int|
            0 <= k < b.overlapping.len() && #[trigger] b.overlapping[k].0 == s && b.ordinals[k]
                == o;
        assert(a.overlapping[k] == b.overlapping[k]);
        assert(a.ordinals[k] < a.ordinals[lb]);
    }
    if lb > la {
        assert(report_ok(b, yielded, la));
        let s = b.overlapping[la].0 as int;
        let o = b.ordinals[la] as int;
        assert(overlaps(&yielded[s - 1][o], &a.base));
        assert(reported(a, (s - 1) + 1, o));
        let k = choose|k: int|
            0 <= k < a.overlapping.len() && #[trigger] a.overlapping[k].0 == s && a.ordinals[k]
                == o;
        assert(a.overlapping[k] == b.overlapping[k]);
        assert(b.ordinals[k] < b.ordinals[la]);
    }
    assert(a.overlapping =~= b.overlapping);
    assert forall|j: int| 0 <= j < la implies a.ordinals[j] == b.ordinals[j] by {
        assert(a.overlapping[j] == b.overlapping[j]);
    }
    assert(a.ordinals =~= b.ordinals);
}

/// Overlapping keys: the head is a candidate, so it leaves the queue.
pub proof fn lemma_overlap_is_candidate(head: SortKey, base: SortKey)
    requires
        keys_overlap(head, base),
    ensures
        placement(head, base) == Placement::Candidate,
{
}

/// With both chromosomes in a well-formed table, keys overlap exactly
/// when the intervals do.
pub proof fn lemma_keys_tell_overlap<A: Positioned, B: Positioned>(
    order: &ChromOrder,
    a: &A,
    b: &B,
    rank_a: usize,
    rank_b: usize,
)
    requires
        order.wf(),
        order.rank_of(a.chromosome_view()) == Some(rank_a),
        order.rank_of(b.chromosome_view()) == Some(rank_b),
    ensures
        overlaps(a, b) <==> keys_overlap(
            SortKey { rank: rank_a, start: a.start_view(), stop: a.stop_view() },
            SortKey { rank: rank_b, start: b.start_view(), stop: b.stop_view() },
        ),
{
    if rank_a == rank_b {
        lemma_rank_names(order, a.chromosome_view(), b.chromosome_view());
    }
}

} // verus!
