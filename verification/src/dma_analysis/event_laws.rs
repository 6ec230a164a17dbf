//! What the analysis of a trace says of the events of the trace.

use super::access_state::{access_state, access_state_from};
use super::trace_info::{in_address_space, ram_history, supported_trace, TraceModel};
use super::types::AccessState;
use crate::common::{Address, RamAddress, TraceId};
use crate::hoedur::bintrace::{AccessType, TraceEvent};
use crate::mem_view::{byte_of, entry_within, within, HistoryEntry, TimeOrder, TimeRange};
use crate::scan::lemma_first_from;
use crate::tables::seq_at;
use vstd::prelude::*;

verus! {

/// The event at `i` is a memory access of the given direction, and the byte at `a` is one of those
/// that it reads or writes; of a larger access than one of a word, only the first four bytes count.
pub open spec fn accesses(
    events: Seq<TraceEvent>,
    i: int,
    access_type: AccessType,
    a: int,
) -> bool {
    let access = events[i].access();
    &&& 0 <= i < events.len()
    &&& access.target is Ram
    &&& access.access_type == access_type
    &&& access.address <= a < access.address + access.size
    &&& a < access.address + 4
}

/// Every memory access to a byte is in the history of that byte, with the byte that was read or
/// written, and the history holds nothing else.
pub proof fn lemma_history_events(events: Seq<TraceEvent>, access_type: AccessType, a: Address)
    requires
        supported_trace(events),
    ensures
        ({
            let h = seq_at(ram_history(events).of_type(access_type), a);
            &&& forall|i: int, j: int|
                0 <= i < j < h.len() ==> (#[trigger] h[i]).trace_ind < (#[trigger] h[j]).trace_ind
            &&& forall|j: int|
                0 <= j < h.len() ==> {
                    let i = (#[trigger] h[j]).trace_ind as int;
                    &&& accesses(events, i, access_type, a as int)
                    &&& h[j].value == byte_of(
                        events[i].access().value,
                        a - events[i].access().address,
                    )
                }
            &&& forall|i: int| #[trigger]
                accesses(events, i, access_type, a as int) ==> exists|j: int|
                    0 <= j < h.len() && (#[trigger] h[j]).trace_ind == i
        }),
    decreases events.len(),
{
    if events.len() > 0 {
        let earlier = events.drop_last();
        let n = earlier.len() as int;
        assert forall|i: int| 0 <= i < earlier.len() implies in_address_space(
            (#[trigger] earlier[i]).access(),
        ) by {
            assert(earlier[i] == events[i]);
        }
        lemma_history_events(earlier, access_type, a);
        let access = events.last().access();
        assert(events[n] == events.last());
        let before = ram_history(earlier);
        let after = ram_history(events);
        let g = seq_at(before.of_type(access_type), a);
        let h = seq_at(after.of_type(access_type), a);
        let entry = HistoryEntry {
            trace_ind: n as TraceId,
            value: byte_of(access.value, a - access.address),
        };
        if accesses(events, n, access_type, a as int) {
            assert(h == g.push(entry));
        } else {
            assert(h == g);
        }
        assert forall|j: int| 0 <= j < h.len() implies {
            let i = (#[trigger] h[j]).trace_ind as int;
            &&& accesses(events, i, access_type, a as int)
            &&& h[j].value == byte_of(events[i].access().value, a - events[i].access().address)
        } by {
            if j < g.len() {
                assert(h[j] == g[j]);
                assert(accesses(earlier, g[j].trace_ind as int, access_type, a as int));
                assert(earlier[g[j].trace_ind as int] == events[g[j].trace_ind as int]);
            }
        }
        assert forall|i: int, j: int| 0 <= i < j < h.len() implies (#[trigger] h[i]).trace_ind < (
        #[trigger] h[j]).trace_ind by {
            assert(h[i] == g[i]);
            assert(accesses(earlier, g[i].trace_ind as int, access_type, a as int));
            if j < g.len() {
                assert(h[j] == g[j]);
            }
        }
        assert forall|i: int| #[trigger]
            accesses(events, i, access_type, a as int) implies exists|j: int|
            0 <= j < h.len() && (#[trigger] h[j]).trace_ind == i by {
            if i < n {
                assert(earlier[i] == events[i]);
                assert(accesses(earlier, i, access_type, a as int));
                let j = choose|j: int| 0 <= j < g.len() && (#[trigger] g[j]).trace_ind == i;
                assert(h[j].trace_ind == i);
            } else {
                assert(h[h.len() - 1] == entry);
            }
        }
    }
}

/// The event at `i` is the first access of the given direction to the byte at `a` in the range.
pub open spec fn first_access(
    events: Seq<TraceEvent>,
    time: TimeRange,
    access_type: AccessType,
    a: int,
    i: int,
) -> bool {
    &&& accesses(events, i, access_type, a)
    &&& time.has(i)
    &&& forall|j: int| #[trigger]
        accesses(events, j, access_type, a) && time.has(j) ==> i <= j
}

/// There is no access of the given direction to the byte at `a` in the range.
pub open spec fn no_access(
    events: Seq<TraceEvent>,
    time: TimeRange,
    access_type: AccessType,
    a: int,
) -> bool {
    forall|j: int| #[trigger] accesses(events, j, access_type, a) ==> !time.has(j)
}

/// The first entry of a history in a range is the first access in that range.
proof fn lemma_first_entry(t: TraceModel, time: TimeRange, access_type: AccessType, a: Address)
    requires
        t.wf(),
    ensures
        match entry_within(seq_at(t.mem.of_type(access_type), a), time, TimeOrder::First) {
            Some(entry) => first_access(
                t.events,
                time,
                access_type,
                a as int,
                entry.trace_ind as int,
            ),
            None => no_access(t.events, time, access_type, a as int),
        },
{
    lemma_history_events(t.events, access_type, a);
    let h = seq_at(t.mem.of_type(access_type), a);
    let p = within(h, time);
    lemma_first_from(0, h.len() as int, p);
    assert forall|i: int| #[trigger] accesses(t.events, i, access_type, a as int) && time.has(
        i,
    ) implies exists|j: int| 0 <= j < h.len() && (#[trigger] h[j]).trace_ind == i && p(j) by {
        let j = choose|j: int| 0 <= j < h.len() && (#[trigger] h[j]).trace_ind == i;
        assert(p(j));
    }
}

/// There is no access at all, in the range, to the `n` bytes from `address` on.
pub open spec fn untouched(events: Seq<TraceEvent>, time: TimeRange, address: int, n: int) -> bool {
    forall|k: int|
        0 <= k < n ==> no_access(events, time, AccessType::Read, #[trigger] (address + k))
            && no_access(events, time, AccessType::Write, address + k)
}

/// The event at `i` is the first access of the given direction to the byte at `address + o` in the
/// range, and `o` is less than twice the size of that access.
pub open spec fn tells_first(
    events: Seq<TraceEvent>,
    time: TimeRange,
    access_type: AccessType,
    address: int,
    o: int,
    i: int,
) -> bool {
    &&& first_access(events, time, access_type, address + o, i)
    &&& o < 2 * events[i].access().size
}

/// The first access of the given direction to the byte at `address + o` is no more than half as
/// large as `o`.
pub open spec fn is_too_far(
    events: Seq<TraceEvent>,
    time: TimeRange,
    access_type: AccessType,
    address: int,
    o: int,
) -> bool {
    exists|i: int| #[trigger]
        first_access(events, time, access_type, address + o, i) && o >= 2
            * events[i].access().size
}

/// What the access state of a buffer says of the trace, if `o` is the offset of the first byte of
/// the buffer that was accessed in the range.
pub open spec fn tells_of(
    events: Seq<TraceEvent>,
    time: TimeRange,
    address: int,
    o: int,
    state: AccessState,
) -> bool {
    match state {
        AccessState::ReadBeforeWrite { read_time, write_time, offset } => {
            &&& offset == o
            &&& tells_first(events, time, AccessType::Read, address, o, read_time as int)
            &&& match write_time {
                Some(w) => read_time < w && tells_first(
                    events,
                    time,
                    AccessType::Write,
                    address,
                    o,
                    w as int,
                ),
                None => no_access(events, time, AccessType::Write, address + o),
            }
        },
        AccessState::WriteBeforeRead { write_time, read_time } => {
            &&& tells_first(events, time, AccessType::Write, address, o, write_time as int)
            &&& match read_time {
                Some(r) => write_time < r && tells_first(
                    events,
                    time,
                    AccessType::Read,
                    address,
                    o,
                    r as int,
                ),
                None => no_access(events, time, AccessType::Read, address + o),
            }
        },
        AccessState::NoAccesses => is_too_far(events, time, AccessType::Read, address, o)
            || is_too_far(events, time, AccessType::Write, address, o),
    }
}

/// The access state is that of the first byte, of those from `offset` on, that was accessed.
proof fn lemma_access_state_from(t: TraceModel, address: RamAddress, time: TimeRange, offset: int)
    requires
        t.wf(),
        0 <= offset <= 4,
        untouched(t.events, time, address as int, offset),
    ensures
        match access_state_from(t, address, time, offset) {
            Some(state) => {
                ||| state is NoAccesses && untouched(t.events, time, address as int, 4)
                ||| exists|o: int|
                    0 <= o < 4 && untouched(t.events, time, address as int, o)
                        && #[trigger] tells_of(t.events, time, address as int, o, state)
            },
            None => address + 3 > Address::MAX,
        },
    decreases 4 - offset,
{
    if offset < 4 && address + offset <= Address::MAX {
        let a = (address + offset) as Address;
        lemma_first_entry(t, time, AccessType::Read, a);
        lemma_first_entry(t, time, AccessType::Write, a);
        let read = entry_within(seq_at(t.mem.reads, a), time, TimeOrder::First);
        let write = entry_within(seq_at(t.mem.writes, a), time, TimeOrder::First);
        if read is None && write is None {
            assert(untouched(t.events, time, address as int, offset + 1));
            lemma_access_state_from(t, address, time, offset + 1);
        } else {
            let state = access_state_from(t, address, time, offset)->0;
            assert(tells_of(t.events, time, address as int, offset, state));
        }
    }
}

/// Which access to a buffer comes first decides its access state. Let `o` be the offset of the
/// first byte of the buffer that was accessed in the range, among its first four. The state is
/// `ReadBeforeWrite` only if the first read of that byte comes before any write of it, and
/// `WriteBeforeRead` only if the first write comes before any read; both tell the positions of
/// those two accesses in the trace. Where none of the four bytes was accessed, or an access to the
/// byte is too small for its offset, there is no access to tell of. The state is missing only where
/// the four bytes are not all in the address space.
pub proof fn lemma_access_state_events(t: TraceModel, address: RamAddress, time: TimeRange)
    requires
        t.wf(),
    ensures
        match access_state(t, address, time) {
            Some(state) => {
                ||| state is NoAccesses && untouched(t.events, time, address as int, 4)
                ||| exists|o: int|
                    0 <= o < 4 && untouched(t.events, time, address as int, o)
                        && #[trigger] tells_of(t.events, time, address as int, o, state)
            },
            None => address + 3 > Address::MAX,
        },
{
    lemma_access_state_from(t, address, time, 0);
}

/// A buffer that is read before it is written: the read time is the position of a read of the byte
/// at the offset, in the range, and no write of that byte in the range stands at or before it. A
/// buffer that is written before it is read: the write time is the position of a write in the
/// range of one of its first four bytes, and no read of that byte in the range stands at or before
/// it.
pub proof fn lemma_first_access_decides(t: TraceModel, address: RamAddress, time: TimeRange)
    requires
        t.wf(),
    ensures
        access_state(t, address, time) matches Some(
            AccessState::ReadBeforeWrite { read_time, write_time, offset },
        ) ==> {
            &&& time.has(read_time as int)
            &&& accesses(t.events, read_time as int, AccessType::Read, address + offset)
            &&& forall|i: int| #[trigger]
                accesses(t.events, i, AccessType::Write, address + offset) && time.has(i)
                    ==> read_time < i
            &&& write_time is None <==> forall|i: int| #[trigger]
                accesses(t.events, i, AccessType::Write, address + offset) ==> !time.has(i)
        },
        access_state(t, address, time) matches Some(
            AccessState::WriteBeforeRead { write_time, read_time },
        ) ==> time.has(write_time as int) && exists|o: int|
            0 <= o < 4 && #[trigger] accesses(
                t.events,
                write_time as int,
                AccessType::Write,
                address + o,
            ) && (forall|i: int| #[trigger]
                accesses(t.events, i, AccessType::Read, address + o) && time.has(i)
                    ==> write_time < i) && (read_time is None <==> forall|i: int| #[trigger]
                accesses(t.events, i, AccessType::Read, address + o) ==> !time.has(i)),
{
    lemma_access_state_events(t, address, time);
    if let Some(state) = access_state(t, address, time) {
        if state is ReadBeforeWrite || state is WriteBeforeRead {
            let o = choose|o: int|
                0 <= o < 4 && untouched(t.events, time, address as int, o) && #[trigger] tells_of(
                    t.events,
                    time,
                    address as int,
                    o,
                    state,
                );
            assert(tells_of(t.events, time, address as int, o, state));
        }
    }
}

} // verus!
