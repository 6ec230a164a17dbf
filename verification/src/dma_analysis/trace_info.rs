//! A trace with the histories that the analysis looks things up in.

use super::types::AccessHistEntry;
use crate::common::{Address, MmioAddress, TraceId};
use crate::hoedur::bintrace::{Access, AccessTarget, AccessType, Trace, TraceEvent};
use crate::mem_map::{MapModel, MemoryMap};
use crate::mem_view::{
    recordable, recorded_len, touches, with_access, HistoryEntry, HistoryModel, MemoryHistory,
};
use crate::tables::{push_at, seq_at, seq_views};
use fxhash::FxHashMap;
use vstd::prelude::*;

verus! {

broadcast use vstd::std_specs::hash::group_hash_axioms;

/// A trace, its memory map, the history of its memory accesses, and its register writes by
/// register.
#[derive(Debug)]
pub struct TraceInfo {
    pub trace: Trace,
    pub mem: MemoryHistory,
    pub mem_map: MemoryMap,
    pub mmio_writes_by_addr: FxHashMap<MmioAddress, Vec<AccessHistEntry>>,
}

/// What the analysis reads of a trace.
pub struct TraceModel {
    pub events: Seq<TraceEvent>,
    pub mem: HistoryModel,
    pub map: MapModel,
}

/// The history of the memory accesses among `events`.
pub open spec fn ram_history(events: Seq<TraceEvent>) -> HistoryModel
    decreases events.len(),
{
    if events.len() == 0 {
        HistoryModel::empty()
    } else {
        let before = ram_history(events.drop_last());
        let access = events.last().access();
        if access.target is Ram {
            before.with((events.len() - 1) as TraceId, access)
        } else {
            before
        }
    }
}

/// The register writes among `events`, by register, in the order of the trace.
pub open spec fn mmio_writes(events: Seq<TraceEvent>) -> Map<MmioAddress, Seq<AccessHistEntry>>
    decreases events.len(),
{
    if events.len() == 0 {
        Map::empty()
    } else {
        let before = mmio_writes(events.drop_last());
        let access = events.last().access();
        if access.target is Mmio && access.access_type is Write {
            before.insert(
                access.address,
                seq_at(before, access.address).push(
                    AccessHistEntry { trace_ind: (events.len() - 1) as TraceId, access },
                ),
            )
        } else {
            before
        }
    }
}

/// The bytes of a memory access that enter the history have an address.
pub open spec fn in_address_space(access: Access) -> bool {
    access.target is Ram ==> recordable(access)
}

/// Every trace position has a number with one to spare, and every memory access lies in the address
/// space.
pub open spec fn supported_trace(events: Seq<TraceEvent>) -> bool {
    &&& events.len() <= TraceId::MAX
    &&& forall|i: int| 0 <= i < events.len() ==> in_address_space((#[trigger] events[i]).access())
}

impl View for TraceInfo {
    type V = TraceModel;

    open spec fn view(&self) -> TraceModel {
        TraceModel { events: self.trace.events@, mem: self.mem@, map: self.mem_map@ }
    }
}

impl TraceModel {
    /// The model of a trace on a target.
    pub open spec fn of(events: Seq<TraceEvent>, map: MapModel) -> TraceModel {
        TraceModel { events, mem: ram_history(events), map }
    }

    /// The history is that of the events.
    pub open spec fn wf(self) -> bool {
        &&& supported_trace(self.events)
        &&& self.mem == ram_history(self.events)
    }
}

impl TraceInfo {
    /// The histories are those of the trace.
    pub open spec fn wf(&self) -> bool {
        &&& self@.wf()
        &&& seq_views(self.mmio_writes_by_addr@) == mmio_writes(self.trace.events@)
    }

    /// Collects the histories of a trace.
    pub fn new(trace: Trace, mem_map: MemoryMap) -> (res: Self)
        requires
            forall|i: int|
                0 <= i < trace.events@.len() && (#[trigger] trace.events@[i]).access().target is Ram
                    ==> recordable(trace.events@[i].access()),
        ensures
            res@ == TraceModel::of(trace.events@, mem_map@),
            res.trace == trace,
            res.mem_map == mem_map,
            seq_views(res.mmio_writes_by_addr@) == mmio_writes(trace.events@),
    {
        let mut res = TraceInfo {
            trace,
            mem: MemoryHistory::default(),
            mem_map,
            mmio_writes_by_addr: FxHashMap::default(),
        };
        assert(seq_views(res.mmio_writes_by_addr@) =~= Map::empty());
        res.gen_trace_metadata();
        res
    }

    fn gen_trace_metadata(&mut self)
        requires
            forall|i: int|
                0 <= i < old(self).trace.events@.len() && (#[trigger] old(
                    self,
                ).trace.events@[i]).access().target is Ram ==> recordable(
                    old(self).trace.events@[i].access(),
                ),
            old(self).mem@ == HistoryModel::empty(),
            seq_views(old(self).mmio_writes_by_addr@) == Map::<
                MmioAddress,
                Seq<AccessHistEntry>,
            >::empty(),
        ensures
            final(self).trace == old(self).trace,
            final(self).mem_map == old(self).mem_map,
            final(self).mem@ == ram_history(old(self).trace.events@),
            seq_views(final(self).mmio_writes_by_addr@) == mmio_writes(old(self).trace.events@),
    {
        let ghost events = self.trace.events@;
        let mut i: usize = 0;
        assert(events.take(0) =~= Seq::empty());
        while i < self.trace.events.len()
            invariant
                self.trace == old(self).trace,
                self.mem_map == old(self).mem_map,
                events == self.trace.events@,
                i <= events.len(),
                forall|i: int|
                    0 <= i < events.len() && (#[trigger] events[i]).access().target is Ram
                        ==> recordable(events[i].access()),
                self.mem@ == ram_history(events.take(i as int)),
                seq_views(self.mmio_writes_by_addr@) == mmio_writes(events.take(i as int)),
            decreases events.len() - i,
        {
            assert(events.take(i + 1).drop_last() =~= events.take(i as int));
            assert(events.take(i + 1).last() == events[i as int]);
            match self.trace.events[i] {
                TraceEvent::Access(access) => match access.target {
                    AccessTarget::Ram => {
                        self.mem.add_access(i as TraceId, &access);
                    },
                    AccessTarget::Mmio => match access.access_type {
                        AccessType::Read => {},
                        AccessType::Write => {
                            push_at(
                                &mut self.mmio_writes_by_addr,
                                access.address,
                                AccessHistEntry { trace_ind: i as TraceId, access },
                            );
                        },
                    },
                },
            }
            i += 1;
        }
        assert(events.take(i as int) =~= events);
    }
}

/// A history of memory accesses of one direction among `events`: the entries of an address stand
/// in the order of the trace, and each of them is an access of that direction that touches the
/// address.
pub open spec fn history_of(
    h: Map<Address, Seq<HistoryEntry>>,
    events: Seq<TraceEvent>,
    access_type: AccessType,
) -> bool {
    forall|a: Address|
        h.contains_key(a) ==> {
            &&& (#[trigger] h[a]).len() > 0
            &&& forall|i: int, j: int|
                0 <= i < j < h[a].len() ==> h[a][i].trace_ind < h[a][j].trace_ind
            &&& forall|i: int|
                0 <= i < h[a].len() ==> entry_from(#[trigger] h[a][i], a, events, access_type)
        }
}

/// The entry of `a` is an access of the given direction among `events`.
pub open spec fn entry_from(
    entry: HistoryEntry,
    a: Address,
    events: Seq<TraceEvent>,
    access_type: AccessType,
) -> bool {
    let access = events[entry.trace_ind as int].access();
    &&& entry.trace_ind < events.len()
    &&& access.target is Ram
    &&& access.access_type == access_type
    &&& touches(access, recorded_len(access), a)
}

/// The history of a trace holds accesses of the trace, in its order.
pub proof fn lemma_ram_history(events: Seq<TraceEvent>)
    requires
        events.len() <= TraceId::MAX,
    ensures
        history_of(ram_history(events).writes, events, AccessType::Write),
        history_of(ram_history(events).reads, events, AccessType::Read),
        ram_history(events).ordered(),
    decreases events.len(),
{
    if events.len() > 0 {
        let earlier = events.drop_last();
        let before = ram_history(earlier);
        let access = events.last().access();
        lemma_ram_history(earlier);
        lemma_history_grows(before.writes, earlier, events.last(), AccessType::Write);
        lemma_history_grows(before.reads, earlier, events.last(), AccessType::Read);
        assert(earlier.push(events.last()) =~= events);
    }
    let h = ram_history(events);
    assert forall|a: Address| h.writes.contains_key(a) implies crate::mem_view::in_time_order(
        #[trigger] h.writes[a],
    ) by {}
    assert forall|a: Address| h.reads.contains_key(a) implies crate::mem_view::in_time_order(
        #[trigger] h.reads[a],
    ) by {}
}

proof fn lemma_history_grows(
    h: Map<Address, Seq<HistoryEntry>>,
    events: Seq<TraceEvent>,
    event: TraceEvent,
    access_type: AccessType,
)
    requires
        events.len() < TraceId::MAX,
        history_of(h, events, access_type),
    ensures
        history_of(h, events.push(event), access_type),
        event.access().target is Ram && event.access().access_type == access_type ==> history_of(
            with_access(h, events.len() as TraceId, event.access()),
            events.push(event),
            access_type,
        ),
{
    let more = events.push(event);
    let access = event.access();
    assert forall|a: Address| h.contains_key(a) implies {
        &&& (#[trigger] h[a]).len() > 0
        &&& forall|i: int, j: int| 0 <= i < j < h[a].len() ==> h[a][i].trace_ind < h[a][j].trace_ind
        &&& forall|i: int|
            0 <= i < h[a].len() ==> entry_from(#[trigger] h[a][i], a, more, access_type)
    } by {
        assert forall|i: int| 0 <= i < h[a].len() implies entry_from(
            #[trigger] h[a][i],
            a,
            more,
            access_type,
        ) by {
            assert(entry_from(h[a][i], a, events, access_type));
        }
    }
    if access.target is Ram && access.access_type == access_type {
        let g = with_access(h, events.len() as TraceId, access);
        assert forall|a: Address| g.contains_key(a) implies {
            &&& (#[trigger] g[a]).len() > 0
            &&& forall|i: int, j: int|
                0 <= i < j < g[a].len() ==> g[a][i].trace_ind < g[a][j].trace_ind
            &&& forall|i: int|
                0 <= i < g[a].len() ==> entry_from(#[trigger] g[a][i], a, more, access_type)
        } by {
            assert forall|i: int| 0 <= i < g[a].len() implies entry_from(
                #[trigger] g[a][i],
                a,
                more,
                access_type,
            ) by {
                if i < seq_at(h, a).len() {
                    assert(entry_from(h[a][i], a, events, access_type));
                }
            }
            assert forall|i: int, j: int| 0 <= i < j < g[a].len() implies g[a][i].trace_ind
                < g[a][j].trace_ind by {
                assert(entry_from(g[a][i], a, more, access_type));
                if i < seq_at(h, a).len() {
                    assert(entry_from(h[a][i], a, events, access_type));
                }
            }
        }
    }
}

/// The writes to a register stand in the order of the trace, and each of them is a write of the
/// trace to that register.
pub proof fn lemma_mmio_writes(events: Seq<TraceEvent>)
    requires
        events.len() <= TraceId::MAX,
    ensures
        forall|r: MmioAddress| #[trigger] mmio_writes(events).contains_key(r) ==> register_writes_ok(
            mmio_writes(events)[r],
            r,
            events,
        ),
    decreases events.len(),
{
    if events.len() > 0 {
        let earlier = events.drop_last();
        lemma_mmio_writes(earlier);
        let before = mmio_writes(earlier);
        let after = mmio_writes(events);
        assert forall|r: MmioAddress| #[trigger] after.contains_key(r) implies register_writes_ok(
            after[r],
            r,
            events,
        ) by {
            assert(before.contains_key(r) ==> register_writes_ok(before[r], r, earlier));
            assert forall|i: int| 0 <= i < after[r].len() implies register_write(
                #[trigger] after[r][i],
                r,
                events,
            ) by {
                if i < seq_at(before, r).len() {
                    assert(register_write(before[r][i], r, earlier));
                }
            }
            assert forall|i: int, j: int| 0 <= i < j < after[r].len() implies after[r][i].trace_ind
                < after[r][j].trace_ind by {
                if i < seq_at(before, r).len() {
                    assert(register_write(before[r][i], r, earlier));
                }
                if j < seq_at(before, r).len() {
                    assert(register_write(before[r][j], r, earlier));
                }
            }
        }
    }
}

/// The entry is a write to register `r` among `events`.
pub open spec fn register_write(
    entry: AccessHistEntry,
    r: MmioAddress,
    events: Seq<TraceEvent>,
) -> bool {
    &&& entry.trace_ind < events.len()
    &&& entry.access == events[entry.trace_ind as int].access()
    &&& entry.access.target is Mmio
    &&& entry.access.access_type is Write
    &&& entry.access.address == r
}

/// The entries are writes to register `r` among `events`, in the order of the trace.
pub open spec fn register_writes_ok(
    entries: Seq<AccessHistEntry>,
    r: MmioAddress,
    events: Seq<TraceEvent>,
) -> bool {
    &&& entries.len() > 0
    &&& forall|i: int| 0 <= i < entries.len() ==> register_write(#[trigger] entries[i], r, events)
    &&& forall|i: int, j: int|
        0 <= i < j < entries.len() ==> entries[i].trace_ind < entries[j].trace_ind
}

} // verus!
