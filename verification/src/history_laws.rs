//! Which entries of a history count for a time, and which times a range holds.

use crate::common::{Address, TraceId};
use crate::mem_view::{
    after, deciding_entry, entry_within, events_between, in_time_order, index_since, latest_until,
    next_after, next_between, since, until, within, HistoryEntry, HistoryModel, TimeBound,
    TimeOrder, TimeRange,
};
use crate::scan::{first_from, last_before, lemma_first_from, lemma_last_before};
use crate::tables::seq_at;
use vstd::prelude::*;

verus! {

/// The range with these bounds holds the position.
pub open spec fn holds_time(start: TimeBound, end: TimeBound, time: TraceId) -> bool {
    let range = TimeRange { start, end };
    range.has(time as int)
}

/// A bound that is excluded is the same as its neighbour included, and without a bound a range goes
/// from the first to the last of all positions. Between two included bounds it holds both of them.
pub proof fn lemma_time_bounds(start: TimeBound, end: TimeBound, bound: TraceId, time: TraceId)
    ensures
        bound < TraceId::MAX ==> (holds_time(TimeBound::Excluded(bound), end, time) <==> holds_time(
            TimeBound::Included((bound + 1) as TraceId),
            end,
            time,
        )),
        !holds_time(TimeBound::Excluded(TraceId::MAX), end, time),
        0 < bound ==> (holds_time(start, TimeBound::Excluded(bound), time) <==> holds_time(
            start,
            TimeBound::Included((bound - 1) as TraceId),
            time,
        )),
        !holds_time(start, TimeBound::Excluded(0), time),
        holds_time(TimeBound::Unbounded, end, time) <==> holds_time(
            TimeBound::Included(0),
            end,
            time,
        ),
        holds_time(start, TimeBound::Unbounded, time) <==> holds_time(
            start,
            TimeBound::Included(TraceId::MAX),
            time,
        ),
        holds_time(TimeBound::Included(bound), TimeBound::Included(bound), time) <==> time == bound,
{
}

/// A range that holds some position holds its first and its last one, and exactly those between
/// them.
pub proof fn lemma_range_ends(range: TimeRange, some: TraceId, time: TraceId)
    requires
        range.has(some as int),
    ensures
        range.has(range.first_time()),
        range.has(range.last_time()),
        range.has(time as int) <==> range.first_time() <= time <= range.last_time(),
{
}

/// The entry that counts at a time is the last one at or before it.
pub proof fn lemma_latest(h: Seq<HistoryEntry>, time: int)
    requires
        in_time_order(h),
    ensures
        match latest_until(h, time) {
            Some(entry) => exists|i: int|
                0 <= i < h.len() && #[trigger] h[i] == entry && entry.trace_ind <= time && forall|
                    j: int,
                | i < j < h.len() ==> time < (#[trigger] h[j]).trace_ind,
            None => forall|i: int| 0 <= i < h.len() ==> time < (#[trigger] h[i]).trace_ind,
        },
{
    let p = until(h, time);
    lemma_last_before(h.len() as int, p);
    if let Some(i) = last_before(h.len() as int, p) {
        assert(p(i));
        assert forall|j: int| i < j < h.len() implies time < (#[trigger] h[j]).trace_ind by {
            assert(!p(j));
        }
        assert(h[i] == latest_until(h, time)->0);
    } else {
        assert forall|i: int| 0 <= i < h.len() implies time < (#[trigger] h[i]).trace_ind by {
            assert(!p(i));
        }
    }
}

/// The next entry after a time is the first one of those that come after it.
pub proof fn lemma_next(h: Seq<HistoryEntry>, time: int)
    requires
        in_time_order(h),
    ensures
        match next_after(h, time) {
            Some(entry) => exists|i: int|
                0 <= i < h.len() && #[trigger] h[i] == entry && time < entry.trace_ind && forall|
                    j: int,
                | 0 <= j < i ==> (#[trigger] h[j]).trace_ind <= time,
            None => forall|i: int| 0 <= i < h.len() ==> (#[trigger] h[i]).trace_ind <= time,
        },
{
    let p = after(h, time);
    lemma_first_from(0, h.len() as int, p);
    if let Some(i) = first_from(0, h.len() as int, p) {
        assert(p(i));
        assert forall|j: int| 0 <= j < i implies (#[trigger] h[j]).trace_ind <= time by {
            assert(!p(j));
        }
        assert(h[i] == next_after(h, time)->0);
    } else {
        assert forall|i: int| 0 <= i < h.len() implies (#[trigger] h[i]).trace_ind <= time by {
            assert(!p(i));
        }
    }
}

/// The first or the last entry in a range lies in it, and no entry before it, or after it, does.
pub proof fn lemma_within(h: Seq<HistoryEntry>, time: TimeRange)
    ensures
        match entry_within(h, time, TimeOrder::First) {
            Some(entry) => exists|i: int|
                0 <= i < h.len() && #[trigger] h[i] == entry && time.has(entry.trace_ind as int)
                    && forall|j: int|
                    0 <= j < i ==> !time.has((#[trigger] h[j]).trace_ind as int),
            None => forall|i: int|
                0 <= i < h.len() ==> !time.has((#[trigger] h[i]).trace_ind as int),
        },
        match entry_within(h, time, TimeOrder::Last) {
            Some(entry) => exists|i: int|
                0 <= i < h.len() && #[trigger] h[i] == entry && time.has(entry.trace_ind as int)
                    && forall|j: int|
                    i < j < h.len() ==> !time.has((#[trigger] h[j]).trace_ind as int),
            None => forall|i: int|
                0 <= i < h.len() ==> !time.has((#[trigger] h[i]).trace_ind as int),
        },
{
    let p = within(h, time);
    lemma_first_from(0, h.len() as int, p);
    lemma_last_before(h.len() as int, p);
    assert forall|i: int| #![trigger h[i]] 0 <= i < h.len() implies (p(i) <==> time.has(
        h[i].trace_ind as int,
    )) by {}
    if let Some(i) = first_from(0, h.len() as int, p) {
        assert(p(i));
        assert(h[i] == entry_within(h, time, TimeOrder::First)->0);
        assert forall|j: int| 0 <= j < i implies !time.has(
            (#[trigger] h[j]).trace_ind as int,
        ) by {
            assert(!p(j));
        }
    }
    if let Some(i) = last_before(h.len() as int, p) {
        assert(p(i));
        assert(h[i] == entry_within(h, time, TimeOrder::Last)->0);
        assert forall|j: int| i < j < h.len() implies !time.has(
            (#[trigger] h[j]).trace_ind as int,
        ) by {
            assert(!p(j));
        }
    }
    if first_from(0, h.len() as int, p) is None || last_before(h.len() as int, p) is None {
        assert forall|i: int| 0 <= i < h.len() implies !time.has(
            (#[trigger] h[i]).trace_ind as int,
        ) by {
            assert(!p(i));
        }
    }
}

/// In a range that holds some position, a byte is decided by the last entry in the range.
pub proof fn lemma_deciding(h: Seq<HistoryEntry>, time: TimeRange, some: TraceId)
    requires
        in_time_order(h),
        time.has(some as int),
    ensures
        deciding_entry(h, time) == entry_within(h, time, TimeOrder::Last),
{
    let p = within(h, time);
    let q = until(h, time.last_time());
    lemma_last_before(h.len() as int, p);
    lemma_last_before(h.len() as int, q);
    if let Some(i) = last_before(h.len() as int, p) {
        assert(p(i));
        lemma_range_ends(time, some, h[i].trace_ind);
        assert(q(i));
        let k = last_before(h.len() as int, q)->0;
        assert(q(k));
        lemma_range_ends(time, some, h[k].trace_ind);
        assert(p(k));
    }
    if let Some(k) = last_before(h.len() as int, q) {
        assert(q(k));
        lemma_range_ends(time, some, h[k].trace_ind);
        if time.has(h[k].trace_ind as int) {
            assert(p(k));
        }
    }
}

/// The entries between two times are all of those at or after the first one and before the second
/// one, in their order.
pub proof fn lemma_between(h: Seq<HistoryEntry>, start: int, end: int)
    requires
        in_time_order(h),
        start <= end,
    ensures
        exists|from: int, to: int|
            0 <= from <= to <= h.len() && events_between(h, start, end) == #[trigger] h.subrange(
                from,
                to,
            ) && forall|i: int|
                0 <= i < h.len() ==> (from <= i < to <==> start <= (#[trigger] h[i]).trace_ind
                    < end),
{
    let from = index_since(h, 0, start);
    let to = index_since(h, from, end);
    lemma_first_from(0, h.len() as int, since(h, start));
    lemma_first_from(from, h.len() as int, since(h, end));
    assert(events_between(h, start, end) == h.subrange(from, to));
    assert forall|i: int| 0 <= i < h.len() implies (from <= i < to <==> start <= (
    #[trigger] h[i]).trace_ind < end) by {
        if i < from {
            assert(!since(h, start)(i));
        } else {
            assert(since(h, start)(from));
            assert(from < i ==> h[from].trace_ind <= h[i].trace_ind);
            if i < to {
                assert(!since(h, end)(i));
            } else {
                assert(since(h, end)(to));
                assert(to < i ==> h[to].trace_ind <= h[i].trace_ind);
            }
        }
    }
}

/// The entry between two times that is looked for is the first one after the first time, where that
/// comes before the second one.
pub proof fn lemma_next_between(h: Seq<HistoryEntry>, start: int, end: int)
    requires
        in_time_order(h),
    ensures
        next_between(h, start, end) == match next_after(h, start) {
            Some(entry) => if entry.trace_ind < end {
                Some(entry)
            } else {
                None
            },
            None => None,
        },
{
    let n = index_since(h, 0, end);
    lemma_first_from(0, h.len() as int, since(h, end));
    lemma_first_from(0, h.len() as int, after(h, start));
    lemma_first_from(0, n, after(h, start));
    if let Some(i) = first_from(0, h.len() as int, after(h, start)) {
        assert(after(h, start)(i));
        if i < n {
            assert(!since(h, end)(i));
        } else {
            assert(since(h, end)(n));
            assert(n < i ==> h[n].trace_ind <= h[i].trace_ind);
        }
    }
    if let Some(k) = first_from(0, n, after(h, start)) {
        assert(after(h, start)(k));
        assert(!since(h, end)(k));
    }
}

/// The writes to an address between two times.
pub open spec fn writes_at(m: HistoryModel, a: int, start: int, end: int) -> Seq<HistoryEntry> {
    events_between(seq_at(m.writes, a as Address), start, end)
}

/// The entry is the last of the writes to an address between two times.
pub open spec fn is_latest_at(
    m: HistoryModel,
    a: int,
    start: int,
    end: int,
    entry: HistoryEntry,
) -> bool {
    writes_at(m, a, start, end).len() > 0 && writes_at(m, a, start, end).last() == entry
}

/// The latest writes to consecutive addresses are listed up to the first address without one: each
/// is the last of the writes to its address between the two times.
pub proof fn lemma_latest_writes(
    m: HistoryModel,
    address: int,
    end_address: int,
    start: int,
    end: int,
)
    requires
        0 <= address <= end_address <= Address::MAX,
    ensures
        ({
            let found = m.latest_writes(address, end_address, start, end);
            &&& found.len() <= end_address - address
            &&& forall|k: int|
                0 <= k < found.len() ==> is_latest_at(
                    m,
                    address + k,
                    start,
                    end,
                    #[trigger] found[k],
                )
            &&& found.len() < end_address - address ==> writes_at(
                m,
                address + found.len(),
                start,
                end,
            ).len() == 0
        }),
    decreases end_address - address,
{
    if address < end_address {
        if let Some(entry) = m.latest_write(address as Address, start, end) {
            lemma_latest_writes(m, address + 1, end_address, start, end);
            let found = m.latest_writes(address, end_address, start, end);
            let rest = m.latest_writes(address + 1, end_address, start, end);
            assert(found == seq![entry] + rest);
            assert(found.len() == rest.len() + 1);
            assert forall|k: int| 0 <= k < found.len() implies is_latest_at(
                m,
                address + k,
                start,
                end,
                #[trigger] found[k],
            ) by {
                if k > 0 {
                    assert(found[k] == rest[k - 1]);
                    assert(address + 1 + (k - 1) == address + k);
                } else {
                    assert(found[0] == entry);
                    assert(address + 0 == address);
                }
            }
            assert(address + 1 + rest.len() == address + found.len());
        } else {
            let found = m.latest_writes(address, end_address, start, end);
            assert(found.len() == 0);
            assert(address + found.len() == address);
            assert(writes_at(m, address, start, end).len() == 0);
        }
    }
}

} // verus!
