//! How the memory behind a pointer was accessed.


use super::trace_info::{entry_from, lemma_ram_history, TraceInfo, TraceModel};
use super::types::AccessState;
use crate::common::{Address, RamAddress};
use crate::hoedur::bintrace::{AccessType, TraceEvent};
use crate::mem_view::{entry_within, within, HistoryEntry, TimeOrder, TimeRange};
use crate::scan::lemma_first_from;
use crate::tables::seq_at;
use vstd::prelude::*;

verus! {

/// The number of bytes of a buffer that are looked at for an access.
pub const MAX_ACCESS_OFFSET: u32 = 4;

/// The access of the entry reaches from its offset back to the start of the buffer, or nearly so:
/// the offset is less than twice the size of the access.
pub open spec fn is_near(events: Seq<TraceEvent>, entry: Option<HistoryEntry>, offset: int) -> bool {
    entry matches Some(entry) ==> offset < 2 * events[entry.trace_ind as int].access().size
}

/// The access state that the first read and the first write at an offset show.
pub open spec fn access_state_at(
    events: Seq<TraceEvent>,
    read: Option<HistoryEntry>,
    write: Option<HistoryEntry>,
    offset: int,
) -> AccessState {
    if !is_near(events, read, offset) || !is_near(events, write, offset) {
        AccessState::NoAccesses
    } else {
        match (read, write) {
            (Some(read), None) => AccessState::ReadBeforeWrite {
                read_time: read.trace_ind,
                write_time: None,
                offset: offset as Address,
            },
            (Some(read), Some(write)) => if read.trace_ind < write.trace_ind {
                AccessState::ReadBeforeWrite {
                    read_time: read.trace_ind,
                    write_time: Some(write.trace_ind),
                    offset: offset as Address,
                }
            } else {
                AccessState::WriteBeforeRead {
                    write_time: write.trace_ind,
                    read_time: Some(read.trace_ind),
                }
            },
            (None, Some(write)) => AccessState::WriteBeforeRead {
                write_time: write.trace_ind,
                read_time: None,
            },
            (None, None) => AccessState::NoAccesses,
        }
    }
}

/// The access state that the first accessed byte from `offset` on shows. None where the bytes to be
/// looked at are not all in the address space.
pub open spec fn access_state_from(
    t: TraceModel,
    address: RamAddress,
    time: TimeRange,
    offset: int,
) -> Option<AccessState>
    decreases MAX_ACCESS_OFFSET - offset,
{
    let a = (address + offset) as Address;
    let read = entry_within(seq_at(t.mem.reads, a), time, TimeOrder::First);
    let write = entry_within(seq_at(t.mem.writes, a), time, TimeOrder::First);
    if offset >= MAX_ACCESS_OFFSET {
        Some(AccessState::NoAccesses)
    } else if address + offset > Address::MAX {
        None
    } else if read is None && write is None {
        access_state_from(t, address, time, offset + 1)
    } else {
        Some(access_state_at(t.events, read, write, offset))
    }
}

/// How the memory at `address` was accessed in the range `time`.
pub open spec fn access_state(t: TraceModel, address: RamAddress, time: TimeRange) -> Option<
    AccessState,
> {
    access_state_from(t, address, time, 0)
}

/// The first entry of a history in a range is an access of the trace in that range.
pub proof fn lemma_first_within(
    t: TraceModel,
    access_type: AccessType,
    a: Address,
    time: TimeRange,
)
    requires
        t.wf(),
    ensures
        entry_within(seq_at(t.mem.of_type(access_type), a), time, TimeOrder::First) matches Some(
            entry,
        ) ==> entry_from(entry, a, t.events, access_type) && time.has(entry.trace_ind as int),
{
    lemma_ram_history(t.events);
    let h = seq_at(t.mem.of_type(access_type), a);
    lemma_first_from(0, h.len() as int, within(h, time));
}

/// Finds out how the memory at `address` was accessed in the range `time`.
pub fn get_access_state(tinfo: &TraceInfo, address: u32, time: &TimeRange) -> (res: Option<
    AccessState,
>)
    requires
        tinfo.wf(),
    ensures
        res == access_state(tinfo@, address, *time),
{
    let mut offset: Address = 0;
    while offset < MAX_ACCESS_OFFSET
        invariant
            offset <= MAX_ACCESS_OFFSET,
            tinfo.wf(),
            access_state(tinfo@, address, *time) == access_state_from(
                tinfo@,
                address,
                *time,
                offset as int,
            ),
        decreases MAX_ACCESS_OFFSET - offset,
    {
        if offset > Address::MAX - address {
            return None;
        }
        let a = address + offset;
        proof {
            lemma_first_within(tinfo@, AccessType::Read, a, *time);
            lemma_first_within(tinfo@, AccessType::Write, a, *time);
        }
        let next_read = tinfo.mem.next_read(a, time);
        let next_write = tinfo.mem.next_write(a, time);
        if let Some(read) = next_read {
            let TraceEvent::Access(read_access) = tinfo.trace.events[read.trace_ind as usize];
            if offset >= 2 * read_access.size as Address {
                return Some(AccessState::NoAccesses);
            }
        }
        if let Some(write) = next_write {
            let TraceEvent::Access(write_access) = tinfo.trace.events[write.trace_ind as usize];
            if offset >= 2 * write_access.size as Address {
                return Some(AccessState::NoAccesses);
            }
        }
        match (next_read, next_write) {
            (Some(read), None) => {
                return Some(
                    AccessState::ReadBeforeWrite {
                        read_time: read.trace_ind,
                        write_time: None,
                        offset,
                    },
                );
            },
            (Some(read), Some(write)) => {
                if read.trace_ind < write.trace_ind {
                    return Some(
                        AccessState::ReadBeforeWrite {
                            read_time: read.trace_ind,
                            write_time: Some(write.trace_ind),
                            offset,
                        },
                    );
                } else {
                    return Some(
                        AccessState::WriteBeforeRead {
                            write_time: write.trace_ind,
                            read_time: Some(read.trace_ind),
                        },
                    );
                }
            },
            (None, Some(write)) => {
                return Some(
                    AccessState::WriteBeforeRead { write_time: write.trace_ind, read_time: None },
                );
            },
            (None, None) => {},
        }
        offset += 1;
    }
    Some(AccessState::NoAccesses)
}

} // verus!
