//! What a memory history gives back of what was recorded.

use crate::common::{Address, TraceId};
use crate::hoedur::bintrace::{Access, TraceEvent};
use crate::mem_view::{
    byte_of, in_time_order, le_word, recordable, recorded_len, touches, until, with_access,
    HistoryEntry, HistoryModel, TimeRange,
};
use crate::scan::lemma_last_before;
use crate::tables::seq_at;
use vstd::prelude::*;

verus! {

/// Each byte of a write is given back at its address from the time of the write on, until it is
/// written again; it is also the latest byte there.
pub proof fn lemma_byte_read_back(
    m: HistoryModel,
    trace_ind: TraceId,
    access: Access,
    i: int,
    time: TraceId,
)
    requires
        access.access_type is Write,
        recordable(access),
        0 <= i < recorded_len(access),
        trace_ind <= time,
    ensures
        m.with(trace_ind, access).byte_at(access.address + i, time as int) == Some(
            byte_of(access.value, i),
        ),
        m.with(trace_ind, access).latest_byte(access.address + i) == Some(
            byte_of(access.value, i),
        ),
{
    let a = (access.address + i) as Address;
    assert(touches(access, recorded_len(access), a));
    let h = seq_at(m.with(trace_ind, access).writes, a);
    let entry = HistoryEntry { trace_ind, value: byte_of(access.value, i) };
    assert(h == seq_at(m.writes, a).push(entry));
    assert(h.last() == entry);
    assert(until(h, time as int)(h.len() - 1));
}

/// A word that is written is given back from the time of the write on, until one of its bytes is
/// written again.
pub proof fn lemma_word_read_back(
    m: HistoryModel,
    trace_ind: TraceId,
    access: Access,
    time: TraceId,
)
    requires
        access.access_type is Write,
        access.size >= 4,
        recordable(access),
        trace_ind <= time,
    ensures
        ({
            let after = m.with(trace_ind, access);
            let a = access.address;
            le_word(
                after.byte_at(a as int, time as int),
                after.byte_at(a + 1, time as int),
                after.byte_at(a + 2, time as int),
                after.byte_at(a + 3, time as int),
            ) == Some(access.value)
        }),
{
    lemma_byte_read_back(m, trace_ind, access, 0, time);
    lemma_byte_read_back(m, trace_ind, access, 1, time);
    lemma_byte_read_back(m, trace_ind, access, 2, time);
    lemma_byte_read_back(m, trace_ind, access, 3, time);
    lemma_word_of_bytes(access.value);
}

/// A word is made up of its bytes.
pub proof fn lemma_word_of_bytes(value: u32)
    ensures
        le_word(
            Some(byte_of(value, 0)),
            Some(byte_of(value, 1)),
            Some(byte_of(value, 2)),
            Some(byte_of(value, 3)),
        ) == Some(value),
{
}

/// A view from the start through some time shows the byte that is there at that time. When all
/// writes to an address are over, that byte is the latest one there.
pub proof fn lemma_views_agree(m: HistoryModel, a: Address, time: TraceId)
    ensures
        m.byte_in(TimeRange::spec_through(0, time), a as int) == m.byte_at(a as int, time as int),
        (forall|i: int|
            0 <= i < seq_at(m.writes, a).len() ==> (#[trigger] seq_at(m.writes, a)[i]).trace_ind
                <= time) ==> m.byte_at(a as int, time as int) == m.latest_byte(a as int),
{
    let h = seq_at(m.writes, a);
    lemma_last_before(h.len() as int, until(h, time as int));
    if h.len() > 0 && h.last().trace_ind <= time {
        assert(until(h, time as int)(h.len() - 1));
    }
}

/// An access changes nothing at the addresses that it does not touch, and a read changes no byte.
pub proof fn lemma_bytes_kept(
    m: HistoryModel,
    trace_ind: TraceId,
    access: Access,
    a: Address,
    time: int,
)
    requires
        access.access_type is Read || !touches(access, recorded_len(access), a),
    ensures
        m.with(trace_ind, access).byte_at(a as int, time) == m.byte_at(a as int, time),
        m.with(trace_ind, access).latest_byte(a as int) == m.latest_byte(a as int),
{
    assert(seq_at(m.with(trace_ind, access).writes, a) == seq_at(m.writes, a));
}

/// The history is in time order, with nothing later than `n`.
spec fn ordered_before(h: Map<Address, Seq<HistoryEntry>>, n: int) -> bool {
    forall|a: Address|
        h.contains_key(a) ==> in_time_order(#[trigger] h[a]) && forall|i: int|
            0 <= i < h[a].len() ==> (#[trigger] h[a][i]).trace_ind < n
}

proof fn lemma_ordered_grows(
    h: Map<Address, Seq<HistoryEntry>>,
    trace_ind: TraceId,
    access: Access,
)
    requires
        ordered_before(h, trace_ind as int),
    ensures
        ordered_before(with_access(h, trace_ind, access), trace_ind + 1),
        ordered_before(h, trace_ind + 1),
{
    let g = with_access(h, trace_ind, access);
    assert forall|a: Address| g.contains_key(a) implies in_time_order(#[trigger] g[a]) && forall|
        i: int,
    | 0 <= i < g[a].len() ==> (#[trigger] g[a][i]).trace_ind < trace_ind + 1 by {
        let before = seq_at(h, a);
        assert(h.contains_key(a) ==> in_time_order(h[a]));
        assert forall|i: int| 0 <= i < before.len() implies (#[trigger] before[i]).trace_ind
            < trace_ind by {
            assert(h[a][i].trace_ind < trace_ind);
        }
        assert forall|i: int| 0 <= i < g[a].len() implies (#[trigger] g[a][i]).trace_ind < trace_ind
            + 1 by {
            if i < before.len() {
                assert(g[a][i] == before[i]);
            }
        }
        assert forall|i: int, j: int| 0 <= i <= j < g[a].len() implies g[a][i].trace_ind
            <= g[a][j].trace_ind by {
            if i < before.len() {
                assert(g[a][i] == before[i]);
            }
            if j < before.len() {
                assert(g[a][j] == before[j]);
            }
        }
    }
    assert forall|a: Address| h.contains_key(a) implies in_time_order(#[trigger] h[a]) && forall|
        i: int,
    | 0 <= i < h[a].len() ==> (#[trigger] h[a][i]).trace_ind < trace_ind + 1 by {
        assert forall|i: int| 0 <= i < h[a].len() implies (#[trigger] h[a][i]).trace_ind < trace_ind
            + 1 by {
            assert(h[a][i].trace_ind < trace_ind);
        }
    }
}

proof fn lemma_loaded(events: Seq<TraceEvent>)
    requires
        events.len() <= TraceId::MAX as int + 1,
    ensures
        ordered_before(
            HistoryModel::empty().with_events(events).writes,
            events.len() as int,
        ),
        ordered_before(HistoryModel::empty().with_events(events).reads, events.len() as int),
    decreases events.len(),
{
    if events.len() > 0 {
        lemma_loaded(events.drop_last());
        let before = HistoryModel::empty().with_events(events.drop_last());
        let ind = (events.len() - 1) as TraceId;
        lemma_ordered_grows(before.writes, ind, events.last().access());
        lemma_ordered_grows(before.reads, ind, events.last().access());
    }
}

/// The history of a loaded trace stands in time order at every address.
pub proof fn lemma_loaded_ordered(events: Seq<TraceEvent>)
    requires
        events.len() <= TraceId::MAX as int + 1,
    ensures
        HistoryModel::empty().with_events(events).ordered(),
{
    lemma_loaded(events);
}

} // verus!
