//! Which registers hold pointers.

use super::trace_info::{lemma_mmio_writes, mmio_writes, register_writes_ok, TraceInfo};
use super::types::{
    align_mmio_addr, aligned_register, is_pointer_aligned, pointer_aligned, AccessHistEntry,
    PointerCounterExample, NULL, POINTER_SIZE,
};
use crate::common::{Address, MmioAddress};
use crate::hoedur::bintrace::Access;
use crate::mem_map::{MapModel, MemoryMap};
use crate::scan::{first_from, lemma_first_from};
use crate::tables::{
    enumerates, lemma_take_to_set, map_contains, map_get, map_insert, map_keys, seq_views,
    set_insert,
};
use fxhash::{FxHashMap, FxHashSet};
use vstd::prelude::*;

verus! {

broadcast use vstd::std_specs::hash::group_hash_axioms;

/// The written value is a pointer to a register.
pub open spec fn points_to_register(map: MapModel, access: Access) -> bool {
    access.value != NULL && map.is_mmio(access.value)
}

/// The written value is a pointer to memory.
pub open spec fn points_to_memory(map: MapModel, access: Access) -> bool {
    access.value != NULL && !map.is_mmio(access.value) && map.is_ram(access.value)
}

/// The write is not one of a pointer, nor of the null pointer.
pub open spec fn writes_no_pointer(map: MapModel, access: Access) -> bool {
    access.size != POINTER_SIZE || (access.value != NULL && !map.is_mmio(access.value)
        && !map.is_ram(access.value))
}

/// The entries that are not writes of a pointer.
pub open spec fn no_pointers(map: MapModel, writes: Seq<AccessHistEntry>) -> spec_fn(int) -> bool {
    |i: int| writes_no_pointer(map, writes[i].access)
}

/// The entries that write a pointer to memory that is not aligned.
pub open spec fn misaligned_pointers(map: MapModel, writes: Seq<AccessHistEntry>) -> spec_fn(
    int,
) -> bool {
    |i: int|
        points_to_memory(map, writes[i].access) && !pointer_aligned(writes[i].access.value)
}

/// The first write to a register that is not one of a pointer.
pub open spec fn first_no_pointer(map: MapModel, writes: Seq<AccessHistEntry>) -> Option<int> {
    first_from(0, writes.len() as int, no_pointers(map, writes))
}

/// The first write of a misaligned pointer to memory, before anything that is no pointer.
pub open spec fn first_misaligned(map: MapModel, writes: Seq<AccessHistEntry>) -> Option<int> {
    let end = match first_no_pointer(map, writes) {
        Some(i) => i,
        None => writes.len() as int,
    };
    first_from(0, end, misaligned_pointers(map, writes))
}

/// Some write is one of a pointer to a register.
pub open spec fn holds_register_pointer(map: MapModel, writes: Seq<AccessHistEntry>) -> bool {
    exists|i: int| 0 <= i < writes.len() && points_to_register(map, (#[trigger] writes[i]).access)
}

/// Some write is one of a pointer to memory.
pub open spec fn holds_memory_pointer(map: MapModel, writes: Seq<AccessHistEntry>) -> bool {
    exists|i: int| 0 <= i < writes.len() && points_to_memory(map, (#[trigger] writes[i]).access)
}

/// The write as one that is not of a whole register.
pub open spec fn unaligned_write(access: Access) -> PointerCounterExample {
    PointerCounterExample::UnalignedWrite { address: access.address, size: access.size }
}

/// Why a write is not one of a pointer.
pub open spec fn counterexample_of(access: Access) -> PointerCounterExample {
    if access.size != POINTER_SIZE {
        unaligned_write(access)
    } else {
        PointerCounterExample::NonPointerWrite(access.value)
    }
}

/// The register that the last byte of a write lies in.
pub open spec fn overlapped_register(r: MmioAddress, size: u8) -> MmioAddress {
    aligned_register((r + size - 1) as MmioAddress)
}

/// What writes to an unaligned address show: that the register around it and those that they
/// overlap into do not hold pointers.
pub open spec fn shown_by_unaligned(r: MmioAddress, writes: Seq<AccessHistEntry>) -> Seq<
    (MmioAddress, PointerCounterExample),
> {
    seq![(aligned_register(r), unaligned_write(writes[0].access))] + writes.map_values(
        |e: AccessHistEntry| (overlapped_register(r, e.access.size), unaligned_write(e.access)),
    )
}

/// What the writes to `r` show of registers that do not hold pointers.
pub open spec fn shown_by(map: MapModel, r: MmioAddress, writes: Seq<AccessHistEntry>) -> Seq<
    (MmioAddress, PointerCounterExample),
> {
    if aligned_register(r) != r {
        shown_by_unaligned(r, writes)
    } else {
        match first_no_pointer(map, writes) {
            Some(i) => seq![(r, counterexample_of(writes[i].access))],
            None => Seq::empty(),
        }
    }
}

/// The table with what is shown, where it does not yet hold something for the register.
pub open spec fn with_shown(
    m: Map<MmioAddress, PointerCounterExample>,
    shown: Seq<(MmioAddress, PointerCounterExample)>,
) -> Map<MmioAddress, PointerCounterExample>
    decreases shown.len(),
{
    if shown.len() == 0 {
        m
    } else {
        let before = with_shown(m, shown.drop_last());
        if before.contains_key(shown.last().0) {
            before
        } else {
            before.insert(shown.last().0, shown.last().1)
        }
    }
}

/// The registers that do not hold pointers, each with the first reason that is met when the
/// registers are looked at in the given order.
pub open spec fn counterexamples_in_order(
    map: MapModel,
    writes: Map<MmioAddress, Seq<AccessHistEntry>>,
    order: Seq<MmioAddress>,
) -> Map<MmioAddress, PointerCounterExample>
    decreases order.len(),
{
    if order.len() == 0 {
        Map::empty()
    } else {
        with_shown(
            counterexamples_in_order(map, writes, order.drop_last()),
            shown_by(map, order.last(), writes[order.last()]),
        )
    }
}

/// The writes to `r` show that `k` does not hold pointers, and why.
pub open spec fn shows(
    map: MapModel,
    writes: Map<MmioAddress, Seq<AccessHistEntry>>,
    r: MmioAddress,
    k: MmioAddress,
    why: PointerCounterExample,
) -> bool {
    shown_by(map, r, writes[r]).contains((k, why))
}

/// What is shown of a register is kept, or was known before.
proof fn lemma_with_shown(
    m: Map<MmioAddress, PointerCounterExample>,
    shown: Seq<(MmioAddress, PointerCounterExample)>,
    k: MmioAddress,
)
    ensures
        with_shown(m, shown).contains_key(k) <==> (m.contains_key(k) || exists|
            why: PointerCounterExample,
        | #[trigger] shown.contains((k, why))),
        m.contains_key(k) ==> with_shown(m, shown)[k] == m[k],
        !m.contains_key(k) && with_shown(m, shown).contains_key(k) ==> shown.contains(
            (k, with_shown(m, shown)[k]),
        ),
    decreases shown.len(),
{
    if shown.len() > 0 {
        let rest = shown.drop_last();
        lemma_with_shown(m, rest, k);
        assert forall|why: PointerCounterExample| #[trigger] rest.contains(
            (k, why),
        ) implies shown.contains((k, why)) by {
            let i = choose|i: int| 0 <= i < rest.len() && rest[i] == (k, why);
            assert(shown[i] == (k, why));
        }
        assert forall|why: PointerCounterExample| #[trigger] shown.contains((k, why)) implies (
        rest.contains((k, why)) || shown.last() == (k, why)) by {
            let i = choose|i: int| 0 <= i < shown.len() && shown[i] == (k, why);
            if i < rest.len() {
                assert(rest[i] == (k, why));
            }
        }
        assert(shown[shown.len() - 1] == shown.last());
        if shown.last().0 == k {
            assert(shown.contains((k, shown.last().1)));
        }
    }
}

/// A register is found not to hold pointers if and only if the writes to some register show it,
/// and the reason that is kept for it is one that is shown, in whichever order the registers are
/// looked at.
pub proof fn lemma_counterexamples(
    map: MapModel,
    writes: Map<MmioAddress, Seq<AccessHistEntry>>,
    order: Seq<MmioAddress>,
    k: MmioAddress,
)
    ensures
        counterexamples_in_order(map, writes, order).contains_key(k) <==> exists|
            r: MmioAddress,
            why: PointerCounterExample,
        |
            order.contains(r) && #[trigger] shows(map, writes, r, k, why),
        counterexamples_in_order(map, writes, order).contains_key(k) ==> exists|r: MmioAddress|
            order.contains(r) && #[trigger] shows(
                map,
                writes,
                r,
                k,
                counterexamples_in_order(map, writes, order)[k],
            ),
    decreases order.len(),
{
    if order.len() > 0 {
        let earlier = order.drop_last();
        let last = order.last();
        lemma_counterexamples(map, writes, earlier, k);
        let before = counterexamples_in_order(map, writes, earlier);
        let after = counterexamples_in_order(map, writes, order);
        let shown = shown_by(map, last, writes[last]);
        lemma_with_shown(before, shown, k);
        assert(order.contains(last));
        assert forall|r: MmioAddress| earlier.contains(r) implies order.contains(r) by {
            let i = choose|i: int| 0 <= i < earlier.len() && earlier[i] == r;
            assert(order[i] == r);
        }
        assert forall|r: MmioAddress| order.contains(r) implies earlier.contains(r) || r == last by {
            let i = choose|i: int| 0 <= i < order.len() && order[i] == r;
            if i < earlier.len() {
                assert(earlier[i] == r);
            }
        }
        if before.contains_key(k) {
            let r = choose|r: MmioAddress|
                earlier.contains(r) && #[trigger] shows(map, writes, r, k, before[k]);
            assert(order.contains(r) && shows(map, writes, r, k, after[k]));
        } else if after.contains_key(k) {
            assert(order.contains(last) && shows(map, writes, last, k, after[k]));
        }
        assert forall|r: MmioAddress, why: PointerCounterExample|
            order.contains(r) && #[trigger] shows(map, writes, r, k, why) implies after.contains_key(
            k,
        ) by {
            if !earlier.contains(r) {
                assert(shown.contains((k, why)));
            }
        }
    }
}

/// The misaligned pointers to memory that are written to registers.
pub open spec fn misaligned_writes(
    map: MapModel,
    writes: Map<MmioAddress, Seq<AccessHistEntry>>,
) -> Map<MmioAddress, Access> {
    Map::new(
        |r: MmioAddress|
            writes.contains_key(r) && aligned_register(r) == r && first_misaligned(
                map,
                writes[r],
            ) is Some,
        |r: MmioAddress| writes[r][first_misaligned(map, writes[r])->0].access,
    )
}

/// Every write to the register is one of a pointer.
pub open spec fn holds_pointers(
    map: MapModel,
    writes: Map<MmioAddress, Seq<AccessHistEntry>>,
    r: MmioAddress,
) -> bool {
    &&& writes.contains_key(r)
    &&& aligned_register(r) == r
    &&& first_no_pointer(map, writes[r]) is None
}

/// The registers that hold pointers, and pointers to registers among them.
pub open spec fn register_pointer_holders(
    map: MapModel,
    writes: Map<MmioAddress, Seq<AccessHistEntry>>,
) -> Set<MmioAddress> {
    writes.dom().filter(
        |r: MmioAddress| holds_pointers(map, writes, r) && holds_register_pointer(map, writes[r]),
    )
}

/// The write is not one of the null pointer.
pub open spec fn not_null() -> spec_fn(AccessHistEntry) -> bool {
    |e: AccessHistEntry| e.access.value != NULL
}

/// The registers that hold pointers, and pointers to memory among them, each with the writes of
/// other pointers than the null pointer.
pub open spec fn memory_pointer_writes(
    map: MapModel,
    writes: Map<MmioAddress, Seq<AccessHistEntry>>,
) -> Map<MmioAddress, Seq<AccessHistEntry>> {
    Map::new(
        |r: MmioAddress| holds_pointers(map, writes, r) && holds_memory_pointer(map, writes[r]),
        |r: MmioAddress| writes[r].filter(not_null()),
    )
}

/// The writes to an unaligned address end inside the address space.
pub open spec fn register_in_reach(r: MmioAddress, writes: Seq<AccessHistEntry>) -> bool {
    aligned_register(r) != r ==> forall|i: int|
        0 <= i < writes.len() ==> r + (#[trigger] writes[i]).access.size <= Address::MAX
}

/// All writes to unaligned addresses end inside the address space.
pub open spec fn registers_in_reach(writes: Map<MmioAddress, Seq<AccessHistEntry>>) -> bool {
    forall|r: MmioAddress| #[trigger] writes.contains_key(r) ==> register_in_reach(r, writes[r])
}

/// What the writes to the registers show.
#[derive(Debug)]
pub struct RegisterClasses {
    pub mmio_non_pointers: FxHashMap<MmioAddress, PointerCounterExample>,
    pub misaligned_mmio_ram_addr_writes: FxHashMap<MmioAddress, Access>,
    pub mmio_regs_with_mmio_ptr_writes: FxHashSet<MmioAddress>,
    pub mmio_written_ram_addrs: FxHashMap<MmioAddress, Vec<AccessHistEntry>>,
}

impl RegisterClasses {
    /// The classes are those of the registers in `order`.
    pub open spec fn describes(
        &self,
        map: MapModel,
        writes: Map<MmioAddress, Seq<AccessHistEntry>>,
        order: Seq<MmioAddress>,
    ) -> bool {
        let seen = writes.restrict(order.to_set());
        &&& self.mmio_non_pointers@ == counterexamples_in_order(map, writes, order)
        &&& self.misaligned_mmio_ram_addr_writes@ == misaligned_writes(map, seen)
        &&& self.mmio_regs_with_mmio_ptr_writes@ == register_pointer_holders(map, seen)
        &&& seq_views(self.mmio_written_ram_addrs@) == memory_pointer_writes(map, seen)
    }
}

/// Adds a reason, where there is none yet.
fn add_shown(
    m: &mut FxHashMap<MmioAddress, PointerCounterExample>,
    k: MmioAddress,
    why: PointerCounterExample,
)
    ensures
        final(m)@ == (if old(m)@.contains_key(k) {
            old(m)@
        } else {
            old(m)@.insert(k, why)
        }),
{
    if !map_contains(m, &k) {
        map_insert(m, k, why);
    }
}

/// Adds what the writes to an unaligned address show. False where one of them ends beyond the
/// address space.
fn add_unaligned(
    m: &mut FxHashMap<MmioAddress, PointerCounterExample>,
    r: MmioAddress,
    writes: &Vec<AccessHistEntry>,
) -> (res: bool)
    requires
        aligned_register(r) != r,
        writes@.len() > 0,
    ensures
        res == register_in_reach(r, writes@),
        res ==> final(m)@ == with_shown(old(m)@, shown_by_unaligned(r, writes@)),
{
    let ghost shown = shown_by_unaligned(r, writes@);
    let first = writes[0].access;
    assert(shown.take(1).drop_last() =~= Seq::empty());
    assert(shown.take(1).last() == shown[0]);
    assert(with_shown(m@, shown.take(1).drop_last()) == m@);
    add_shown(
        m,
        align_mmio_addr(r),
        PointerCounterExample::UnalignedWrite { address: first.address, size: first.size },
    );
    let mut i: usize = 0;
    while i < writes.len()
        invariant
            aligned_register(r) != r,
            shown == shown_by_unaligned(r, writes@),
            shown.len() == writes@.len() + 1,
            i <= writes@.len(),
            forall|j: int| 0 <= j < i ==> r + (#[trigger] writes@[j]).access.size <= Address::MAX,
            m@ == with_shown(old(m)@, shown.take(i + 1)),
        decreases writes.len() - i,
    {
        let access = writes[i].access;
        if access.size as u32 > Address::MAX - r {
            return false;
        }
        assert(shown[i + 1] == (overlapped_register(r, access.size), unaligned_write(access)));
        assert(shown.take(i + 2).drop_last() =~= shown.take(i + 1));
        assert(shown.take(i + 2).last() == shown[i + 1]);
        add_shown(
            m,
            align_mmio_addr((r + access.size as u32) - 1),
            PointerCounterExample::UnalignedWrite { address: access.address, size: access.size },
        );
        i += 1;
    }
    assert(shown.take(i + 1) =~= shown);
    true
}

/// The writes of other pointers than the null pointer.
fn without_null(writes: &Vec<AccessHistEntry>) -> (res: Vec<AccessHistEntry>)
    ensures
        res@ == writes@.filter(not_null()),
{
    let mut res: Vec<AccessHistEntry> = Vec::new();
    let mut i: usize = 0;
    assert(writes@.take(0).filter(not_null()) =~= Seq::empty()) by {
        reveal(Seq::filter);
    }
    while i < writes.len()
        invariant
            i <= writes@.len(),
            res@ == writes@.take(i as int).filter(not_null()),
        decreases writes.len() - i,
    {
        let entry = writes[i];
        proof {
            reveal(Seq::filter);
            assert(writes@.take(i + 1).drop_last() =~= writes@.take(i as int));
            assert(writes@.take(i + 1).last() == entry);
        }
        if entry.access.value != NULL {
            res.push(entry);
        }
        i += 1;
    }
    assert(writes@.take(i as int) =~= writes@);
    res
}

/// What the writes to an aligned register show.
struct RegisterScan {
    no_pointer: Option<Access>,
    misaligned: Option<Access>,
    found_ram_ptr: bool,
    found_mmio_ptr: bool,
}

/// The access of an entry that may be absent.
spec fn access_at(writes: Seq<AccessHistEntry>, i: Option<int>) -> Option<Access> {
    match i {
        Some(i) => Some(writes[i].access),
        None => None,
    }
}

/// Looks at the writes to an aligned register, up to the first one that is not one of a pointer.
fn scan_register(mem_map: &MemoryMap, writes: &Vec<AccessHistEntry>) -> (res: RegisterScan)
    ensures
        res.no_pointer == access_at(writes@, first_no_pointer(mem_map@, writes@)),
        res.misaligned == access_at(writes@, first_misaligned(mem_map@, writes@)),
        first_no_pointer(mem_map@, writes@) is None ==> {
            &&& res.found_ram_ptr == holds_memory_pointer(mem_map@, writes@)
            &&& res.found_mmio_ptr == holds_register_pointer(mem_map@, writes@)
        },
{
    let ghost map = mem_map@;
    let ghost ws = writes@;
    let ghost end = match first_no_pointer(map, ws) {
        Some(i) => i,
        None => ws.len() as int,
    };
    let mut misaligned: Option<Access> = None;
    let mut found_ram_ptr = false;
    let mut found_mmio_ptr = false;
    let mut i: usize = 0;
    proof {
        lemma_first_from(0, ws.len() as int, no_pointers(map, ws));
        lemma_first_from(0, end, misaligned_pointers(map, ws));
    }
    while i < writes.len()
        invariant
            map == mem_map@,
            ws == writes@,
            i <= end <= ws.len(),
            end == (match first_no_pointer(map, ws) {
                Some(i) => i,
                None => ws.len() as int,
            }),
            first_no_pointer(map, ws) == first_from(i as int, ws.len() as int, no_pointers(map, ws)),
            misaligned is None ==> first_misaligned(map, ws) == first_from(
                i as int,
                end,
                misaligned_pointers(map, ws),
            ),
            misaligned is Some ==> misaligned == access_at(ws, first_misaligned(map, ws)),
            found_ram_ptr == (exists|j: int|
                0 <= j < i && points_to_memory(map, (#[trigger] ws[j]).access)),
            found_mmio_ptr == (exists|j: int|
                0 <= j < i && points_to_register(map, (#[trigger] ws[j]).access)),
        decreases ws.len() - i,
    {
        let access = writes[i].access;
        proof {
            lemma_first_from(i as int, ws.len() as int, no_pointers(map, ws));
            assert(no_pointers(map, ws)(i as int) == writes_no_pointer(map, access));
            assert(misaligned_pointers(map, ws)(i as int) == (points_to_memory(map, access)
                && !pointer_aligned(access.value)));
            assert(ws[i as int].access == access);
        }
        if access.size as usize != POINTER_SIZE {
            assert(end == i);
            return RegisterScan {
                no_pointer: Some(access),
                misaligned,
                found_ram_ptr,
                found_mmio_ptr,
            };
        }
        if access.value == NULL {
        } else if mem_map.is_mmio(access.value) {
            found_mmio_ptr = true;
        } else if mem_map.is_ram(access.value) {
            found_ram_ptr = true;
            if !is_pointer_aligned(access.value) && misaligned.is_none() {
                misaligned = Some(access);
            }
        } else {
            assert(end == i);
            return RegisterScan {
                no_pointer: Some(access),
                misaligned,
                found_ram_ptr,
                found_mmio_ptr,
            };
        }
        i += 1;
    }
    RegisterScan { no_pointer: None, misaligned, found_ram_ptr, found_mmio_ptr }
}

/// Classifies one register. False where one of its writes ends beyond the address space.
fn classify_register(
    tinfo: &TraceInfo,
    r: MmioAddress,
    writes: &Vec<AccessHistEntry>,
    classes: &mut RegisterClasses,
) -> (res: bool)
    requires
        writes@.len() > 0,
    ensures
        res == register_in_reach(r, writes@),
        res ==> {
            let map = tinfo@.map;
            let aligned = aligned_register(r) == r;
            let pointers = aligned && first_no_pointer(map, writes@) is None;
            &&& final(classes).mmio_non_pointers@ == with_shown(
                old(classes).mmio_non_pointers@,
                shown_by(map, r, writes@),
            )
            &&& final(classes).misaligned_mmio_ram_addr_writes@ == (if aligned && first_misaligned(
                map,
                writes@,
            ) is Some {
                old(classes).misaligned_mmio_ram_addr_writes@.insert(
                    r,
                    writes@[first_misaligned(map, writes@)->0].access,
                )
            } else {
                old(classes).misaligned_mmio_ram_addr_writes@
            })
            &&& final(classes).mmio_regs_with_mmio_ptr_writes@ == (if pointers
                && holds_register_pointer(map, writes@) {
                old(classes).mmio_regs_with_mmio_ptr_writes@.insert(r)
            } else {
                old(classes).mmio_regs_with_mmio_ptr_writes@
            })
            &&& seq_views(final(classes).mmio_written_ram_addrs@) == (if pointers
                && holds_memory_pointer(map, writes@) {
                seq_views(old(classes).mmio_written_ram_addrs@).insert(
                    r,
                    writes@.filter(not_null()),
                )
            } else {
                seq_views(old(classes).mmio_written_ram_addrs@)
            })
        },
{
    if align_mmio_addr(r) != r {
        return add_unaligned(&mut classes.mmio_non_pointers, r, writes);
    }
    let ghost shown = shown_by(tinfo@.map, r, writes@);
    let scan = scan_register(&tinfo.mem_map, writes);
    if let Some(access) = scan.misaligned {
        map_insert(&mut classes.misaligned_mmio_ram_addr_writes, r, access);
    }
    if let Some(access) = scan.no_pointer {
        let why = if access.size as usize != POINTER_SIZE {
            PointerCounterExample::UnalignedWrite { address: access.address, size: access.size }
        } else {
            PointerCounterExample::NonPointerWrite(access.value)
        };
        assert(shown =~= seq![(r, why)]);
        assert(shown.drop_last() =~= Seq::empty());
        assert(with_shown(classes.mmio_non_pointers@, shown.drop_last())
            == classes.mmio_non_pointers@);
        add_shown(&mut classes.mmio_non_pointers, r, why);
        return true;
    }
    if scan.found_mmio_ptr {
        set_insert(&mut classes.mmio_regs_with_mmio_ptr_writes, r);
    }
    if scan.found_ram_ptr {
        let ghost before = classes.mmio_written_ram_addrs@;
        let pointer_writes = without_null(writes);
        map_insert(&mut classes.mmio_written_ram_addrs, r, pointer_writes);
        assert(seq_views(classes.mmio_written_ram_addrs@) =~= seq_views(before).insert(
            r,
            pointer_writes@,
        ));
    }
    true
}

/// Classifies the registers in the given order. None where a write to one of them that is not
/// aligned ends beyond the address space.
pub fn classify_registers_in_order(tinfo: &TraceInfo, order: &Vec<MmioAddress>) -> (res: Option<
    RegisterClasses,
>)
    requires
        tinfo.wf(),
        order@.no_duplicates(),
        order@.to_set().subset_of(tinfo.mmio_writes_by_addr@.dom()),
    ensures
        res is Some <==> forall|i: int|
            0 <= i < order@.len() ==> register_in_reach(
                #[trigger] order@[i],
                mmio_writes(tinfo@.events)[order@[i]],
            ),
        res matches Some(classes) ==> classes.describes(
            tinfo@.map,
            mmio_writes(tinfo@.events),
            order@,
        ),
{
    let ghost map = tinfo@.map;
    let ghost writes = mmio_writes(tinfo@.events);
    let mut classes = RegisterClasses {
        mmio_non_pointers: FxHashMap::default(),
        misaligned_mmio_ram_addr_writes: FxHashMap::default(),
        mmio_regs_with_mmio_ptr_writes: FxHashSet::default(),
        mmio_written_ram_addrs: FxHashMap::default(),
    };
    let mut i: usize = 0;
    proof {
        lemma_mmio_writes(tinfo@.events);
        let none = order@.take(0);
        assert(none =~= Seq::empty());
        assert(none.to_set() =~= Set::empty());
        let seen = writes.restrict(none.to_set());
        assert(misaligned_writes(map, seen) =~= Map::empty());
        assert(register_pointer_holders(map, seen) =~= Set::empty());
        assert(memory_pointer_writes(map, seen) =~= Map::empty());
        assert(seq_views(classes.mmio_written_ram_addrs@) =~= Map::empty());
    }
    while i < order.len()
        invariant
            map == tinfo@.map,
            writes == mmio_writes(tinfo@.events),
            tinfo.wf(),
            order@.no_duplicates(),
            order@.to_set().subset_of(tinfo.mmio_writes_by_addr@.dom()),
            forall|r: MmioAddress| #[trigger]
                writes.contains_key(r) ==> register_writes_ok(writes[r], r, tinfo@.events),
            i <= order@.len(),
            forall|j: int|
                0 <= j < i ==> register_in_reach(#[trigger] order@[j], writes[order@[j]]),
            classes.describes(map, writes, order@.take(i as int)),
        decreases order.len() - i,
    {
        let r = order[i];
        proof {
            assert(order@.to_set().contains(r));
            assert(seq_views(tinfo.mmio_writes_by_addr@).contains_key(r));
            assert(writes.contains_key(r));
        }
        let accesses = map_get(&tinfo.mmio_writes_by_addr, &r).unwrap();
        assert(accesses@ == writes[r]);
        if !classify_register(tinfo, r, accesses, &mut classes) {
            assert(!register_in_reach(order@[i as int], writes[order@[i as int]]));
            return None;
        }
        proof {
            lemma_classes_grow(map, writes, order@, i as int);
        }
        i += 1;
    }
    assert(order@.take(i as int) =~= order@);
    Some(classes)
}

/// The classes with one more register.
proof fn lemma_classes_grow(
    map: MapModel,
    writes: Map<MmioAddress, Seq<AccessHistEntry>>,
    order: Seq<MmioAddress>,
    i: int,
)
    requires
        0 <= i < order.len(),
        order.no_duplicates(),
        writes.contains_key(order[i]),
    ensures
        ({
            let r = order[i];
            let seen = writes.restrict(order.take(i).to_set());
            let more = writes.restrict(order.take(i + 1).to_set());
            let aligned = aligned_register(r) == r;
            let pointers = aligned && first_no_pointer(map, writes[r]) is None;
            &&& counterexamples_in_order(map, writes, order.take(i + 1)) == with_shown(
                counterexamples_in_order(map, writes, order.take(i)),
                shown_by(map, r, writes[r]),
            )
            &&& misaligned_writes(map, more) == (if aligned && first_misaligned(
                map,
                writes[r],
            ) is Some {
                misaligned_writes(map, seen).insert(
                    r,
                    writes[r][first_misaligned(map, writes[r])->0].access,
                )
            } else {
                misaligned_writes(map, seen)
            })
            &&& register_pointer_holders(map, more) == (if pointers && holds_register_pointer(
                map,
                writes[r],
            ) {
                register_pointer_holders(map, seen).insert(r)
            } else {
                register_pointer_holders(map, seen)
            })
            &&& memory_pointer_writes(map, more) == (if pointers && holds_memory_pointer(
                map,
                writes[r],
            ) {
                memory_pointer_writes(map, seen).insert(r, writes[r].filter(not_null()))
            } else {
                memory_pointer_writes(map, seen)
            })
        }),
{
    let r = order[i];
    let seen = writes.restrict(order.take(i).to_set());
    let more = writes.restrict(order.take(i + 1).to_set());
    lemma_take_to_set(order, i);
    assert(order.take(i + 1).drop_last() =~= order.take(i));
    assert(!order.take(i).contains(r));
    let aligned = aligned_register(r) == r;
    let pointers = aligned && first_no_pointer(map, writes[r]) is None;
    assert(misaligned_writes(map, more) =~= if aligned && first_misaligned(map, writes[r]) is Some {
        misaligned_writes(map, seen).insert(
            r,
            writes[r][first_misaligned(map, writes[r])->0].access,
        )
    } else {
        misaligned_writes(map, seen)
    });
    assert(register_pointer_holders(map, more) =~= if pointers && holds_register_pointer(
        map,
        writes[r],
    ) {
        register_pointer_holders(map, seen).insert(r)
    } else {
        register_pointer_holders(map, seen)
    });
    assert(memory_pointer_writes(map, more) =~= if pointers && holds_memory_pointer(
        map,
        writes[r],
    ) {
        memory_pointer_writes(map, seen).insert(r, writes[r].filter(not_null()))
    } else {
        memory_pointer_writes(map, seen)
    });
}

/// Classifies all registers, in an order that is left open. None where a write to one of them that
/// is not aligned ends beyond the address space.
pub fn classify_registers(tinfo: &TraceInfo) -> (res: Option<RegisterClasses>)
    requires
        tinfo.wf(),
    ensures
        res is Some <==> registers_in_reach(mmio_writes(tinfo@.events)),
        res matches Some(classes) ==> exists|order: Seq<MmioAddress>| #[trigger]
            enumerates(order, mmio_writes(tinfo@.events).dom()) && classes.describes(
                tinfo@.map,
                mmio_writes(tinfo@.events),
                order,
            ),
{
    let order = map_keys(&tinfo.mmio_writes_by_addr);
    proof {
        let writes = mmio_writes(tinfo@.events);
        assert(seq_views(tinfo.mmio_writes_by_addr@).dom() =~= tinfo.mmio_writes_by_addr@.dom());
        assert(enumerates(order@, writes.dom()));
        assert forall|r: MmioAddress| #[trigger] writes.contains_key(r) implies order@.contains(r) by {
            assert(order@.to_set().contains(r));
        }
        assert forall|i: int| 0 <= i < order@.len() implies writes.contains_key(
            #[trigger] order@[i],
        ) by {
            assert(order@.to_set().contains(order@[i]));
        }
    }
    classify_registers_in_order(tinfo, &order)
}

} // verus!
