//! What the classes of registers say of the events of the trace.

use super::registers::{
    counterexamples_in_order, first_misaligned, first_no_pointer, holds_pointers,
    lemma_counterexamples, memory_pointer_writes, misaligned_pointers, misaligned_writes,
    no_pointers, not_null, points_to_memory, points_to_register, register_in_reach,
    register_pointer_holders, registers_in_reach, shown_by, shows,
};
use super::trace_info::mmio_writes;
use super::types::{AccessHistEntry, PointerCounterExample};
use crate::common::{Address, MmioAddress, TraceId};
use crate::hoedur::bintrace::TraceEvent;
use crate::mem_map::MapModel;
use crate::scan::lemma_first_from;
use crate::tables::{enumerates, seq_at};
use vstd::prelude::*;

verus! {

/// The event at `i` is a write to the register at `r`.
pub open spec fn writes_register(events: Seq<TraceEvent>, i: int, r: MmioAddress) -> bool {
    let access = events[i].access();
    &&& 0 <= i < events.len()
    &&& access.target is Mmio
    &&& access.access_type is Write
    &&& access.address == r
}

/// The event at `i` as an entry of a history.
pub open spec fn entry_of_event(events: Seq<TraceEvent>, i: int) -> AccessHistEntry {
    AccessHistEntry { trace_ind: i as TraceId, access: events[i].access() }
}

/// The entries are exactly the events that satisfy `p`, in the order of the trace.
pub open spec fn lists_events(
    entries: Seq<AccessHistEntry>,
    events: Seq<TraceEvent>,
    p: spec_fn(int) -> bool,
) -> bool {
    &&& forall|i: int, j: int|
        0 <= i < j < entries.len() ==> (#[trigger] entries[i]).trace_ind < (
        #[trigger] entries[j]).trace_ind
    &&& forall|j: int|
        0 <= j < entries.len() ==> {
            let i = (#[trigger] entries[j]).trace_ind as int;
            p(i) && entries[j] == entry_of_event(events, i)
        }
    &&& forall|i: int| #[trigger]
        p(i) ==> exists|j: int| 0 <= j < entries.len() && (#[trigger] entries[j]).trace_ind == i
}

/// The history of a register holds exactly the writes to it, in the order of the trace, and there
/// is one for every register that is written.
pub proof fn lemma_register_history(events: Seq<TraceEvent>, r: MmioAddress)
    requires
        events.len() <= TraceId::MAX,
    ensures
        lists_events(
            seq_at(mmio_writes(events), r),
            events,
            |i: int| writes_register(events, i, r),
        ),
        mmio_writes(events).contains_key(r) <==> exists|i: int| #[trigger]
            writes_register(events, i, r),
    decreases events.len(),
{
    let p = |i: int| writes_register(events, i, r);
    let h = seq_at(mmio_writes(events), r);
    if events.len() > 0 {
        let earlier = events.drop_last();
        let n = earlier.len() as int;
        lemma_register_history(earlier, r);
        let q = |i: int| writes_register(earlier, i, r);
        let g = seq_at(mmio_writes(earlier), r);
        assert(events[n] == events.last());
        assert forall|i: int| i < n implies (#[trigger] writes_register(events, i, r)
            <==> writes_register(earlier, i, r)) by {
            if 0 <= i {
                assert(earlier[i] == events[i]);
            }
        }
        if p(n) {
            assert(h == g.push(entry_of_event(events, n)));
            assert(writes_register(events, n, r));
        } else {
            assert(h == g);
        }
        assert forall|j: int| 0 <= j < h.len() implies {
            let i = (#[trigger] h[j]).trace_ind as int;
            p(i) && h[j] == entry_of_event(events, i)
        } by {
            if j < g.len() {
                assert(h[j] == g[j]);
                assert(q(g[j].trace_ind as int));
                assert(earlier[g[j].trace_ind as int] == events[g[j].trace_ind as int]);
            }
        }
        assert forall|i: int, j: int| 0 <= i < j < h.len() implies (#[trigger] h[i]).trace_ind < (
        #[trigger] h[j]).trace_ind by {
            assert(h[i] == g[i]);
            assert(q(g[i].trace_ind as int));
            if j < g.len() {
                assert(h[j] == g[j]);
            }
        }
        assert forall|i: int| #[trigger] p(i) implies exists|j: int|
            0 <= j < h.len() && (#[trigger] h[j]).trace_ind == i by {
            if i < n {
                assert(q(i));
                let j = choose|j: int| 0 <= j < g.len() && (#[trigger] g[j]).trace_ind == i;
                assert(h[j] == g[j]);
            } else {
                assert(h[h.len() - 1].trace_ind == n);
            }
        }
        if exists|i: int| #[trigger] writes_register(events, i, r) {
            let i = choose|i: int| #[trigger] writes_register(events, i, r);
            if i < n {
                assert(writes_register(earlier, i, r));
            }
        }
        if mmio_writes(events).contains_key(r) && !p(n) {
            let i = choose|i: int| #[trigger] writes_register(earlier, i, r);
            assert(writes_register(events, i, r));
        }
    }
}

/// The writes of other values than zero, in their order.
proof fn lemma_filtered(
    writes: Seq<AccessHistEntry>,
    events: Seq<TraceEvent>,
    p: spec_fn(int) -> bool,
)
    requires
        lists_events(writes, events, p),
    ensures
        lists_events(
            writes.filter(not_null()),
            events,
            |i: int| p(i) && events[i].access().value != 0,
        ),
    decreases writes.len(),
{
    reveal(Seq::filter);
    let kept = |i: int| p(i) && events[i].access().value != 0;
    let f = writes.filter(not_null());
    if writes.len() > 0 {
        let rest = writes.drop_last();
        let last = writes.last();
        assert(writes[writes.len() - 1] == last);
        let q = |i: int| p(i) && i < last.trace_ind;
        assert forall|i: int| #[trigger] q(i) implies exists|j: int|
            0 <= j < rest.len() && (#[trigger] rest[j]).trace_ind == i by {
            let j = choose|j: int| 0 <= j < writes.len() && (#[trigger] writes[j]).trace_ind == i;
            assert(rest[j] == writes[j]);
        }
        assert forall|j: int| 0 <= j < rest.len() implies {
            let i = (#[trigger] rest[j]).trace_ind as int;
            q(i) && rest[j] == entry_of_event(events, i)
        } by {
            assert(rest[j] == writes[j]);
        }
        assert(lists_events(rest, events, q));
        lemma_filtered(rest, events, q);
        let g = rest.filter(not_null());
        let kept_before = |i: int| q(i) && events[i].access().value != 0;
        assert forall|i: int| #[trigger] p(i) implies q(i) || i == last.trace_ind by {
            let j = choose|j: int| 0 <= j < writes.len() && (#[trigger] writes[j]).trace_ind == i;
            if j < rest.len() {
                assert(writes[j].trace_ind < writes[writes.len() - 1].trace_ind);
            }
        }
        assert(p(last.trace_ind as int));
        assert forall|j: int| 0 <= j < f.len() implies {
            let i = (#[trigger] f[j]).trace_ind as int;
            kept(i) && f[j] == entry_of_event(events, i)
        } by {
            if j < g.len() {
                assert(f[j] == g[j]);
                assert(kept_before(g[j].trace_ind as int));
            }
        }
        assert forall|i: int, j: int| 0 <= i < j < f.len() implies (#[trigger] f[i]).trace_ind < (
        #[trigger] f[j]).trace_ind by {
            assert(f[i] == g[i]);
            assert(kept_before(g[i].trace_ind as int));
            if j < g.len() {
                assert(f[j] == g[j]);
            }
        }
        assert forall|i: int| #[trigger] kept(i) implies exists|j: int|
            0 <= j < f.len() && (#[trigger] f[j]).trace_ind == i by {
            assert(p(i));
            if q(i) {
                assert(kept_before(i));
                let j = choose|j: int| 0 <= j < g.len() && (#[trigger] g[j]).trace_ind == i;
                assert(f[j] == g[j]);
            } else {
                assert(f[f.len() - 1].trace_ind == i);
            }
        }
    } else {
        assert forall|i: int| #[trigger] kept(i) implies false by {
            assert(p(i));
        }
    }
}

/// The event at `i` writes a whole pointer to the register at `r`: the null pointer, or one to a
/// register or to memory.
pub open spec fn writes_pointer_to(
    map: MapModel,
    events: Seq<TraceEvent>,
    i: int,
    r: MmioAddress,
) -> bool {
    let access = events[i].access();
    &&& writes_register(events, i, r)
    &&& access.size == 4
    &&& access.value == 0 || map.is_mmio(access.value) || map.is_ram(access.value)
}

/// The value is that of a pointer to memory.
pub open spec fn leads_to_memory(map: MapModel, value: Address) -> bool {
    value != 0 && !map.is_mmio(value) && map.is_ram(value)
}

/// Every write to the register at `r`, which lies at an aligned address, writes a pointer.
pub open spec fn only_pointers(map: MapModel, events: Seq<TraceEvent>, r: MmioAddress) -> bool {
    &&& r % 4 == 0
    &&& forall|i: int| #[trigger]
        writes_register(events, i, r) ==> writes_pointer_to(map, events, i, r)
}

/// The registers that are looked at for pointers to memory are those that are written with pointers
/// only, a pointer to memory among them, and what is looked at are all writes to them of other
/// values than zero, in the order of the trace.
pub proof fn lemma_pointer_registers(map: MapModel, events: Seq<TraceEvent>, r: MmioAddress)
    requires
        events.len() <= TraceId::MAX,
    ensures
        ({
            let looked_at = memory_pointer_writes(map, mmio_writes(events));
            &&& looked_at.contains_key(r) <==> only_pointers(map, events, r) && exists|i: int|
                #[trigger] writes_register(events, i, r) && leads_to_memory(
                    map,
                    events[i].access().value,
                )
            &&& looked_at.contains_key(r) ==> lists_events(
                looked_at[r],
                events,
                |i: int| writes_register(events, i, r) && events[i].access().value != 0,
            )
        }),
{
    let p = |i: int| writes_register(events, i, r);
    lemma_register_history(events, r);
    let writes = mmio_writes(events);
    let h = seq_at(writes, r);
    lemma_holds_pointers(map, events, r);
    if writes.contains_key(r) {
        lemma_filtered(h, events, p);
        let kept = |i: int| p(i) && events[i].access().value != 0;
        let named = |i: int| writes_register(events, i, r) && events[i].access().value != 0;
        assert(kept =~= named);
    }
    let looked_at = memory_pointer_writes(map, writes);
    if looked_at.contains_key(r) {
        let j = choose|j: int|
            0 <= j < h.len() && points_to_memory(map, (#[trigger] h[j]).access);
        assert(p(h[j].trace_ind as int));
        assert(writes_register(events, h[j].trace_ind as int, r));
    }
    if exists|i: int| #[trigger]
        writes_register(events, i, r) && leads_to_memory(map, events[i].access().value) {
        let i = choose|i: int| #[trigger]
            writes_register(events, i, r) && leads_to_memory(map, events[i].access().value);
        assert(p(i));
        let j = choose|j: int| 0 <= j < h.len() && (#[trigger] h[j]).trace_ind == i;
        assert(points_to_memory(map, h[j].access));
    }
}

/// A register holds pointers where it is written, and with pointers only.
proof fn lemma_holds_pointers(map: MapModel, events: Seq<TraceEvent>, r: MmioAddress)
    requires
        events.len() <= TraceId::MAX,
    ensures
        holds_pointers(map, mmio_writes(events), r) <==> only_pointers(map, events, r) && exists|
            i: int,
        | #[trigger] writes_register(events, i, r),
{
    let p = |i: int| writes_register(events, i, r);
    lemma_register_history(events, r);
    let h = seq_at(mmio_writes(events), r);
    let no = no_pointers(map, h);
    lemma_first_from(0, h.len() as int, no);
    if holds_pointers(map, mmio_writes(events), r) {
        assert forall|i: int| #[trigger] writes_register(events, i, r) implies writes_pointer_to(
            map,
            events,
            i,
            r,
        ) by {
            assert(p(i));
            let j = choose|j: int| 0 <= j < h.len() && (#[trigger] h[j]).trace_ind == i;
            assert(!no(j));
        }
    }
    if only_pointers(map, events, r) && first_no_pointer(map, h) is Some {
        let j = first_no_pointer(map, h)->0;
        assert(no(j));
        assert(p(h[j].trace_ind as int));
        assert(writes_register(events, h[j].trace_ind as int, r));
    }
}

/// The registers with pointers to registers are those that are written with pointers only, a
/// pointer to a register among them.
pub proof fn lemma_register_pointers(map: MapModel, events: Seq<TraceEvent>, r: MmioAddress)
    requires
        events.len() <= TraceId::MAX,
    ensures
        register_pointer_holders(map, mmio_writes(events)).contains(r) <==> only_pointers(
            map,
            events,
            r,
        ) && exists|i: int| #[trigger]
            writes_register(events, i, r) && events[i].access().value != 0 && map.is_mmio(
                events[i].access().value,
            ),
{
    let p = |i: int| writes_register(events, i, r);
    lemma_register_history(events, r);
    lemma_holds_pointers(map, events, r);
    let h = seq_at(mmio_writes(events), r);
    if register_pointer_holders(map, mmio_writes(events)).contains(r) {
        let j = choose|j: int|
            0 <= j < h.len() && points_to_register(map, (#[trigger] h[j]).access);
        assert(p(h[j].trace_ind as int));
        assert(writes_register(events, h[j].trace_ind as int, r));
    }
    if exists|i: int| #[trigger]
        writes_register(events, i, r) && events[i].access().value != 0 && map.is_mmio(
            events[i].access().value,
        ) {
        let i = choose|i: int| #[trigger]
            writes_register(events, i, r) && events[i].access().value != 0 && map.is_mmio(
                events[i].access().value,
            );
        assert(p(i));
        let j = choose|j: int| 0 <= j < h.len() && (#[trigger] h[j]).trace_ind == i;
        assert(points_to_register(map, h[j].access));
    }
}

/// The event at `i` writes a misaligned pointer to memory to the register at `r`, and every earlier
/// write to it, and this one too, is one of a whole pointer.
pub open spec fn misaligned_at(
    map: MapModel,
    events: Seq<TraceEvent>,
    i: int,
    r: MmioAddress,
) -> bool {
    let value = events[i].access().value;
    &&& writes_register(events, i, r)
    &&& leads_to_memory(map, value)
    &&& value % 4 != 0
    &&& forall|j: int| #[trigger]
        writes_register(events, j, r) && j <= i ==> writes_pointer_to(map, events, j, r)
}

/// The misaligned pointer that is kept for a register is the first one that is written to it,
/// before anything that is no pointer.
pub proof fn lemma_misaligned_events(map: MapModel, events: Seq<TraceEvent>, r: MmioAddress)
    requires
        events.len() <= TraceId::MAX,
    ensures
        ({
            let kept = misaligned_writes(map, mmio_writes(events));
            &&& kept.contains_key(r) <==> r % 4 == 0 && exists|i: int| #[trigger]
                misaligned_at(map, events, i, r)
            &&& kept.contains_key(r) ==> exists|i: int| #[trigger]
                misaligned_at(map, events, i, r) && kept[r] == events[i].access() && forall|j: int|
                    #[trigger] misaligned_at(map, events, j, r) ==> i <= j
        }),
{
    let p = |i: int| writes_register(events, i, r);
    lemma_register_history(events, r);
    let h = seq_at(mmio_writes(events), r);
    let no = no_pointers(map, h);
    let mis = misaligned_pointers(map, h);
    lemma_first_from(0, h.len() as int, no);
    let end = match first_no_pointer(map, h) {
        Some(i) => i,
        None => h.len() as int,
    };
    lemma_first_from(0, end, mis);
    let kept = misaligned_writes(map, mmio_writes(events));
    if mmio_writes(events).contains_key(r) && first_misaligned(map, h) is Some {
        let k = first_misaligned(map, h)->0;
        let i = h[k].trace_ind as int;
        assert(mis(k));
        assert(p(i));
        assert forall|j: int| #[trigger] writes_register(events, j, r) && j
            <= i implies writes_pointer_to(map, events, j, r) by {
            assert(p(j));
            let m = choose|m: int| 0 <= m < h.len() && (#[trigger] h[m]).trace_ind == j;
            assert(m <= k);
            assert(!no(m));
        }
        assert(misaligned_at(map, events, i, r));
        assert forall|j: int| #[trigger] misaligned_at(map, events, j, r) implies i <= j by {
            assert(p(j));
            let m = choose|m: int| 0 <= m < h.len() && (#[trigger] h[m]).trace_ind == j;
            assert(mis(m));
        }
    }
    if exists|i: int| #[trigger] misaligned_at(map, events, i, r) {
        let i = choose|i: int| #[trigger] misaligned_at(map, events, i, r);
        assert(p(i));
        let k = choose|k: int| 0 <= k < h.len() && (#[trigger] h[k]).trace_ind == i;
        assert(mis(k));
        if end <= k {
            assert(no(end));
            assert(p(h[end].trace_ind as int));
            assert(writes_register(events, h[end].trace_ind as int, r));
        }
    }
}

/// The event at `i` shows that the register at `k` does not hold pointers: it writes it, with
/// something that is no pointer or not as a whole; or it is a write to an address that is not
/// aligned, whose first or last byte lies in that register.
pub open spec fn rules_out(
    map: MapModel,
    events: Seq<TraceEvent>,
    i: int,
    k: MmioAddress,
) -> bool {
    let access = events[i].access();
    let last = access.address + access.size - 1;
    &&& writes_register(events, i, access.address)
    &&& if access.address % 4 == 0 {
        access.address == k && !writes_pointer_to(map, events, i, k)
    } else {
        k == access.address - access.address % 4 || k == last - last % 4
    }
}

/// The reason that the event at `i` gives.
pub open spec fn reason(events: Seq<TraceEvent>, i: int) -> PointerCounterExample {
    let access = events[i].access();
    if access.address % 4 != 0 || access.size != 4 {
        PointerCounterExample::UnalignedWrite { address: access.address, size: access.size }
    } else {
        PointerCounterExample::NonPointerWrite(access.value)
    }
}

/// What the writes to one register show, in terms of these writes.
proof fn lemma_shown_events(
    map: MapModel,
    events: Seq<TraceEvent>,
    r: MmioAddress,
    k: MmioAddress,
    why: PointerCounterExample,
)
    requires
        events.len() <= TraceId::MAX,
        registers_in_reach(mmio_writes(events)),
        mmio_writes(events).contains_key(r),
        shows(map, mmio_writes(events), r, k, why),
    ensures
        exists|i: int| #[trigger] rules_out(map, events, i, k) && why == reason(events, i),
{
    let p = |i: int| writes_register(events, i, r);
    lemma_register_history(events, r);
    let h = mmio_writes(events)[r];
    let shown = shown_by(map, r, h);
    let n = choose|n: int| 0 <= n < shown.len() && shown[n] == (k, why);
    let no = no_pointers(map, h);
    lemma_first_from(0, h.len() as int, no);
    let j = if r % 4 != 0 {
        if n == 0 {
            0
        } else {
            n - 1
        }
    } else {
        first_no_pointer(map, h)->0
    };
    let i0 = choose|i: int| #[trigger] writes_register(events, i, r);
    assert(p(i0));
    let i = h[j].trace_ind as int;
    assert(p(i));
    if r % 4 == 0 {
        assert(no(j));
    } else {
        assert(register_in_reach(r, h));
    }
    assert(rules_out(map, events, i, k));
}

/// A write that rules a register out shows that.
proof fn lemma_rules_out_shown(map: MapModel, events: Seq<TraceEvent>, i: int, k: MmioAddress)
    requires
        events.len() <= TraceId::MAX,
        registers_in_reach(mmio_writes(events)),
        rules_out(map, events, i, k),
    ensures
        mmio_writes(events).contains_key(events[i].access().address),
        exists|why: PointerCounterExample| #[trigger]
            shows(map, mmio_writes(events), events[i].access().address, k, why),
{
    let r = events[i].access().address;
    let p = |i: int| writes_register(events, i, r);
    lemma_register_history(events, r);
    let h = mmio_writes(events)[r];
    let shown = shown_by(map, r, h);
    assert(p(i));
    let j = choose|j: int| 0 <= j < h.len() && (#[trigger] h[j]).trace_ind == i;
    assert(h[j] == entry_of_event(events, i));
    let no = no_pointers(map, h);
    lemma_first_from(0, h.len() as int, no);
    let n: int = if r % 4 == 0 {
        0
    } else if k == r - r % 4 {
        0
    } else {
        j + 1
    };
    if r % 4 == 0 {
        assert(no(j));
    } else {
        assert(register_in_reach(r, h));
    }
    assert(shown[n].0 == k);
    assert(shown.contains(shown[n]));
    assert(shows(map, mmio_writes(events), r, k, shown[n].1));
}

/// A register is found not to hold pointers exactly where a write rules it out: one to it that is
/// not of a whole pointer, or one to an address that is not aligned and whose first or last byte
/// lies in it. The reason that is kept is that of such a write.
pub proof fn lemma_counterexample_events(
    map: MapModel,
    events: Seq<TraceEvent>,
    order: Seq<MmioAddress>,
    k: MmioAddress,
)
    requires
        events.len() <= TraceId::MAX,
        registers_in_reach(mmio_writes(events)),
        enumerates(order, mmio_writes(events).dom()),
    ensures
        ({
            let found = counterexamples_in_order(map, mmio_writes(events), order);
            &&& found.contains_key(k) <==> exists|i: int| #[trigger] rules_out(map, events, i, k)
            &&& found.contains_key(k) ==> exists|i: int| #[trigger]
                rules_out(map, events, i, k) && found[k] == reason(events, i)
        }),
{
    let writes = mmio_writes(events);
    let found = counterexamples_in_order(map, writes, order);
    lemma_counterexamples(map, writes, order, k);
    assert forall|r: MmioAddress| #[trigger] order.contains(r) <==> writes.contains_key(r) by {
        assert(order.to_set().contains(r) <==> writes.dom().contains(r));
    }
    if found.contains_key(k) {
        let r = choose|r: MmioAddress|
            order.contains(r) && #[trigger] shows(map, writes, r, k, found[k]);
        lemma_shown_events(map, events, r, k, found[k]);
    }
    if exists|i: int| #[trigger] rules_out(map, events, i, k) {
        let i = choose|i: int| #[trigger] rules_out(map, events, i, k);
        lemma_rules_out_shown(map, events, i, k);
        let why = choose|why: PointerCounterExample| #[trigger]
            shows(map, writes, events[i].access().address, k, why);
        assert(order.contains(events[i].access().address));
    }
}

} // verus!
