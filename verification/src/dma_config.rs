//! The configuration of the DMA descriptors of a target.

use crate::common::{Address, MmioAddress, RamAddress};
use crate::dma_analysis::merge::{FieldModel, FieldTypeGuess, PointerModel, PointerType};
use crate::dma_analysis::types::{SizeRange, POINTER_SIZE};
use crate::scan::{first_from, lemma_first_from};
use crate::summary::layout::DescriptorLayoutCandidate;
use crate::tables::{
    enumerates, lemma_take_to_set, map_get, map_insert, map_keys, set_elements, set_extend,
    set_includes,
};
use fxhash::{FxHashMap, FxHashSet};
use vstd::prelude::*;

verus! {

broadcast use vstd::std_specs::hash::group_hash_axioms;

/// An address, or the name of one.
#[derive(Debug, PartialEq, Eq)]
pub enum SymbolizedValue {
    Address(Address),
    Symbol(String),
}

/// A pointer of a descriptor, or to one.
#[derive(Debug)]
pub struct DmaDescriptorPointer {
    pub is_buf_end_ptr: bool,
    pub known_values: Vec<SymbolizedValue>,
    pub to: Box<DmaDescriptorField>,
}

/// A field of a descriptor.
#[derive(Debug)]
pub struct DmaDescriptorFieldEntry {
    pub offset: usize,
    pub descriptor: DmaDescriptorField,
}

/// A register that points to a descriptor or a buffer.
#[derive(Debug)]
pub struct DmaDescriptorHead {
    pub addr: Address,
    pub descriptor: DmaDescriptorPointer,
}

/// A reference to a type by its name.
#[derive(Debug)]
pub struct TypeDef {
    pub name: String,
}

/// A status field of a descriptor.
#[derive(Debug)]
pub struct Status {
    pub size: usize,
    pub mask: usize,
}

/// A descriptor.
#[derive(Debug)]
pub struct DmaDescriptor {
    pub fields: Vec<DmaDescriptorFieldEntry>,
    pub typedef: Option<String>,
}

/// A buffer that a device writes to, with the sizes that are known at some addresses. No address
/// has two entries.
#[derive(Debug)]
pub struct Buffer {
    pub known_sizes: Vec<(SymbolizedValue, SizeRange)>,
}

/// What a field of a descriptor holds, or what a pointer points to.
#[derive(Debug)]
pub enum DmaDescriptorField {
    Pointer(DmaDescriptorPointer),
    Descriptor(DmaDescriptor),
    Buffer(Buffer),
    Status(Status),
    TypeDef(TypeDef),
}

/// The registers that point to descriptors or buffers, and the sizes of buffers that are known. No
/// address has two sizes.
#[derive(Debug)]
pub struct DmaConfig {
    pub descriptor_heads: Vec<DmaDescriptorHead>,
    pub known_sizes: Vec<(SymbolizedValue, SizeRange)>,
}

impl SymbolizedValue {
    /// The two are the same address or the same name.
    pub open spec fn is_same(self, other: SymbolizedValue) -> bool {
        match (self, other) {
            (SymbolizedValue::Address(a), SymbolizedValue::Address(b)) => a == b,
            (SymbolizedValue::Symbol(a), SymbolizedValue::Symbol(b)) => a@ == b@,
            _ => false,
        }
    }
}

/// No address and no name has two entries.
pub open spec fn distinct_values(entries: Seq<(SymbolizedValue, SizeRange)>) -> bool {
    forall|i: int, j: int|
        0 <= i < j < entries.len() ==> !(#[trigger] entries[i]).0.is_same(
            (#[trigger] entries[j]).0,
        )
}

impl Buffer {
    /// No address and no name has two sizes.
    pub open spec fn wf(self) -> bool {
        distinct_values(self.known_sizes@)
    }
}

impl DmaDescriptorField {
    /// All buffers in the field are well-formed.
    pub open spec fn wf(self) -> bool
        decreases self,
    {
        match self {
            DmaDescriptorField::Pointer(pointer) => pointer.to.wf(),
            DmaDescriptorField::Descriptor(descriptor) => forall|i: int|
                0 <= i < descriptor.fields@.len() ==> (
                #[trigger] descriptor.fields@[i]).descriptor.wf(),
            DmaDescriptorField::Buffer(buffer) => buffer.wf(),
            DmaDescriptorField::Status(_) => true,
            DmaDescriptorField::TypeDef(_) => true,
        }
    }
}

impl DmaDescriptorPointer {
    /// All buffers that the pointer leads to are well-formed.
    pub open spec fn wf(self) -> bool {
        self.to.wf()
    }
}

impl DmaConfig {
    /// No address and no name has two sizes, here and in all buffers.
    pub open spec fn wf(self) -> bool {
        &&& distinct_values(self.known_sizes@)
        &&& forall|i: int|
            0 <= i < self.descriptor_heads@.len() ==> (
            #[trigger] self.descriptor_heads@[i]).descriptor.wf()
    }
}

impl Default for Buffer {
    fn default() -> (res: Self)
        ensures
            res.known_sizes@.len() == 0,
            res.wf(),
    {
        Buffer { known_sizes: Vec::new() }
    }
}

impl Default for DmaConfig {
    fn default() -> (res: Self)
        ensures
            res.descriptor_heads@.len() == 0,
            res.known_sizes@.len() == 0,
            res.wf(),
    {
        DmaConfig { descriptor_heads: Vec::new(), known_sizes: Vec::new() }
    }
}

/// The values list every address of `s` once, in an order that is left open.
pub open spec fn lists_addresses(values: Seq<SymbolizedValue>, s: Set<RamAddress>) -> bool {
    exists|order: Seq<RamAddress>| #[trigger]
        enumerates(order, s) && values == order.map_values(
            |a: RamAddress| SymbolizedValue::Address(a),
        )
}

/// The entries list the size at every address of `m` once, in an order that is left open.
pub open spec fn lists_sizes(
    entries: Seq<(SymbolizedValue, SizeRange)>,
    m: Map<RamAddress, SizeRange>,
) -> bool {
    exists|order: Seq<RamAddress>| #[trigger]
        enumerates(order, m.dom()) && entries == order.map_values(
            |a: RamAddress| (SymbolizedValue::Address(a), m[a]),
        )
}

/// The pointer is one to a plain buffer at one of the addresses.
pub open spec fn points_to_buffer(ptr: DmaDescriptorPointer, addresses: Set<RamAddress>) -> bool {
    &&& !ptr.is_buf_end_ptr
    &&& lists_addresses(ptr.known_values@, addresses)
    &&& *ptr.to matches DmaDescriptorField::Buffer(buffer) && buffer.known_sizes@.len() == 0
}

/// Lists the addresses.
fn addresses_of(addresses: &Vec<RamAddress>) -> (res: Vec<SymbolizedValue>)
    ensures
        res@ == addresses@.map_values(|a: RamAddress| SymbolizedValue::Address(a)),
{
    let mut res: Vec<SymbolizedValue> = Vec::new();
    let mut i: usize = 0;
    while i < addresses.len()
        invariant
            i <= addresses@.len(),
            res@.len() == i,
            forall|j: int| 0 <= j < i ==> #[trigger] res@[j] == SymbolizedValue::Address(addresses@[j]),
        decreases addresses.len() - i,
    {
        res.push(SymbolizedValue::Address(addresses[i]));
        i += 1;
    }
    assert(res@ =~= addresses@.map_values(|a: RamAddress| SymbolizedValue::Address(a)));
    res
}

/// Lists the addresses of a set.
fn list_addresses(addresses: &FxHashSet<RamAddress>) -> (res: Vec<SymbolizedValue>)
    ensures
        lists_addresses(res@, addresses@),
{
    let elements = set_elements(addresses);
    addresses_of(&elements)
}

/// The pointer may be one to the end of a buffer, and never to the start of one.
pub open spec fn ends_buffers(pre_sizes: Map<RamAddress, u64>) -> bool {
    !pre_sizes.dom().is_empty() && forall|a: RamAddress| #[trigger]
        pre_sizes.contains_key(a) ==> pre_sizes[a] != 0
}

/// The start of the buffer of the given size that ends at `end`, its last byte. Sizes are taken as
/// 32-bit numbers.
pub open spec fn buffer_start(end: RamAddress, size: u64) -> int {
    end + 1 - size % 0x1_0000_0000
}

/// The start of every buffer is an address.
pub open spec fn buffers_in_reach(pre_sizes: Map<RamAddress, u64>) -> bool {
    forall|a: RamAddress| #[trigger]
        pre_sizes.contains_key(a) ==> a < Address::MAX && 0 <= buffer_start(a, pre_sizes[a])
}

/// The buffer that ends at `a` starts at `start`.
pub open spec fn starts_at(
    pre_sizes: Map<RamAddress, u64>,
    a: RamAddress,
    start: RamAddress,
) -> bool {
    pre_sizes.contains_key(a) && buffer_start(a, pre_sizes[a]) == start
}

/// The greatest size of the buffers that start at an address, for all such addresses.
pub open spec fn are_start_sizes(
    pre_sizes: Map<RamAddress, u64>,
    sizes: Map<RamAddress, u64>,
) -> bool {
    &&& forall|a: RamAddress, start: RamAddress| #[trigger]
        starts_at(pre_sizes, a, start) ==> sizes.contains_key(start) && pre_sizes[a] <= sizes[start]
    &&& forall|start: RamAddress| #[trigger]
        sizes.contains_key(start) ==> exists|a: RamAddress| #[trigger]
            starts_at(pre_sizes, a, start) && pre_sizes[a] == sizes[start]
}

/// The sizes as ranges.
pub open spec fn exact_sizes(sizes: Map<RamAddress, u64>) -> Map<RamAddress, SizeRange> {
    sizes.map_values(|size: u64| SizeRange { min: size, max: size })
}

/// The pointer is one to the end of a buffer; the sizes of the buffers are known by their starts.
pub open spec fn points_to_buffer_end(
    ptr: DmaDescriptorPointer,
    pre_sizes: Map<RamAddress, u64>,
) -> bool {
    &&& ptr.is_buf_end_ptr
    &&& ptr.known_values@.len() == 0
    &&& *ptr.to matches DmaDescriptorField::Buffer(buffer) && exists|sizes: Map<RamAddress, u64>|
        #[trigger]
        are_start_sizes(pre_sizes, sizes) && lists_sizes(buffer.known_sizes@, exact_sizes(sizes))
}

/// The entry is that of the field at `index`, a pointer to a buffer.
pub open spec fn buffer_entry(
    entry: DmaDescriptorFieldEntry,
    p: PointerModel,
    index: int,
) -> bool {
    &&& entry.offset == index * POINTER_SIZE
    &&& entry.descriptor matches DmaDescriptorField::Pointer(ptr) && if ends_buffers(
        p.potential_pre_buf_sizes,
    ) {
        points_to_buffer_end(ptr, p.potential_pre_buf_sizes)
    } else {
        points_to_buffer(ptr, p.known_values)
    }
}

/// The entry of the field at `index` can be made: its offset is a number, and the start of every
/// buffer an address.
pub open spec fn buffer_entry_ok(p: PointerModel, index: int) -> bool {
    &&& index * POINTER_SIZE <= usize::MAX
    &&& ends_buffers(p.potential_pre_buf_sizes) ==> buffers_in_reach(p.potential_pre_buf_sizes)
}

/// The descriptors that are known once the links of a descriptor are looked at.
pub open spec fn known_at_link(p: PointerModel, known: Set<RamAddress>) -> Set<RamAddress> {
    known.union(p.known_values)
}

/// The link of the descriptor behind `p`, where the layout has one.
pub open spec fn link_of(p: PointerModel, layout: DescriptorLayoutCandidate) -> Option<FieldModel> {
    match layout.link_ptr_index {
        Some(link) if link < p.to.len() => Some(p.to[link as int]),
        _ => None,
    }
}

/// The link leads to a descriptor that is not known yet.
pub open spec fn follows_link(
    p: PointerModel,
    layout: DescriptorLayoutCandidate,
    known: Set<RamAddress>,
) -> bool {
    link_of(p, layout) matches Some(FieldModel::Pointer { pointer }) && pointer.to.len() > 0
        && !pointer.known_values.subset_of(known_at_link(p, known))
}

/// The descriptors that are known after the one behind `p` and those that it links to were looked
/// at.
pub open spec fn known_after(
    p: PointerModel,
    layout: DescriptorLayoutCandidate,
    known: Set<RamAddress>,
) -> Set<RamAddress>
    decreases p,
{
    match layout.link_ptr_index {
        Some(link) if link < p.to.len() => match p.to[link as int] {
            FieldModel::Pointer { pointer } => if follows_link(p, layout, known) {
                known_after(pointer, layout, known_at_link(p, known))
            } else {
                known_at_link(p, known)
            },
            _ => known,
        },
        _ => known,
    }
}

/// The descriptor behind `p` and those that it links to have the layout, and their entries can be
/// made.
pub open spec fn describable(
    p: PointerModel,
    layout: DescriptorLayoutCandidate,
    known: Set<RamAddress>,
) -> bool
    decreases p,
{
    let dst = layout.dst_ptr_index as int;
    &&& dst < p.to.len()
    &&& p.to[dst] matches FieldModel::Pointer { pointer } && buffer_entry_ok(pointer, dst)
    &&& match layout.link_ptr_index {
        Some(link) if link < p.to.len() => match p.to[link as int] {
            FieldModel::Zero => true,
            FieldModel::HighEntropy { .. } => false,
            FieldModel::Pointer { pointer } => follows_link(p, layout, known) ==> {
                &&& link * POINTER_SIZE <= usize::MAX
                &&& describable(pointer, layout, known_at_link(p, known))
            },
        },
        _ => true,
    }
}

/// The pointer describes the descriptor behind `p` and those that it links to, apart from those
/// that are known already.
pub open spec fn describes(
    ptr: DmaDescriptorPointer,
    p: PointerModel,
    layout: DescriptorLayoutCandidate,
    known: Set<RamAddress>,
) -> bool
    decreases p,
{
    &&& !ptr.is_buf_end_ptr
    &&& lists_addresses(ptr.known_values@, p.known_values)
    &&& *ptr.to matches DmaDescriptorField::Descriptor(descriptor) && {
        let fields = descriptor.fields@;
        let dst = layout.dst_ptr_index as int;
        &&& descriptor.typedef is None
        &&& fields.len() == (if follows_link(p, layout, known) {
            2int
        } else {
            1
        })
        &&& dst < p.to.len()
        &&& p.to[dst] matches FieldModel::Pointer { pointer } && buffer_entry(
            fields[0],
            pointer,
            dst,
        )
        &&& match layout.link_ptr_index {
            Some(link) if link < p.to.len() => match p.to[link as int] {
                FieldModel::Pointer { pointer } => follows_link(p, layout, known) ==> {
                    &&& fields[1].offset == link * POINTER_SIZE
                    &&& fields[1].descriptor matches DmaDescriptorField::Pointer(next)
                        && describes(next, pointer, layout, known_at_link(p, known))
                },
                _ => true,
            },
            _ => true,
        }
    }
}

/// Collects the sizes of the buffers that end at the given addresses by their starts.
fn sizes_by_start(pre_sizes: &FxHashMap<RamAddress, u64>) -> (res: Option<
    FxHashMap<RamAddress, u64>,
>)
    ensures
        res is Some <==> buffers_in_reach(pre_sizes@),
        res matches Some(sizes) ==> are_start_sizes(pre_sizes@, sizes@),
{
    let keys = map_keys(pre_sizes);
    let mut res: FxHashMap<RamAddress, u64> = FxHashMap::default();
    let mut i: usize = 0;
    assert(keys@.take(0).to_set() =~= Set::empty());
    while i < keys.len()
        invariant
            enumerates(keys@, pre_sizes@.dom()),
            i <= keys@.len(),
            forall|j: int|
                0 <= j < i ==> (#[trigger] keys@[j]) < Address::MAX && 0 <= buffer_start(
                    keys@[j],
                    pre_sizes@[keys@[j]],
                ),
            are_start_sizes(pre_sizes@.restrict(keys@.take(i as int).to_set()), res@),
        decreases keys.len() - i,
    {
        let end = keys[i];
        proof {
            assert(keys@.to_set().contains(end));
            lemma_take_to_set(keys@, i as int);
            assert(!keys@.take(i as int).contains(end));
        }
        let size = *map_get(pre_sizes, &end).unwrap();
        let len = (size % 0x1_0000_0000) as u32;
        if end == Address::MAX || len > end + 1 {
            assert(pre_sizes@.contains_key(end));
            return None;
        }
        let start = end + 1 - len;
        let ghost seen = pre_sizes@.restrict(keys@.take(i as int).to_set());
        let ghost more = pre_sizes@.restrict(keys@.take(i + 1).to_set());
        let ghost before = res@;
        let greater = match map_get(&res, &start) {
            Some(cur_size) => *cur_size < size,
            None => true,
        };
        if greater {
            map_insert(&mut res, start, size);
        }
        proof {
            assert(more =~= seen.insert(end, size));
            assert(starts_at(more, end, start));
            assert forall|a: RamAddress, s: RamAddress| #[trigger]
                starts_at(more, a, s) implies res@.contains_key(s) && more[a] <= res@[s] by {
                if a != end {
                    assert(starts_at(seen, a, s));
                }
            }
            assert forall|s: RamAddress| #[trigger] res@.contains_key(s) implies exists|
                a: RamAddress,
            | #[trigger] starts_at(more, a, s) && more[a] == res@[s] by {
                if s == start && greater {
                    assert(starts_at(more, end, s) && more[end] == res@[s]);
                } else {
                    assert(before.contains_key(s));
                    let a = choose|a: RamAddress| #[trigger]
                        starts_at(seen, a, s) && seen[a] == before[s];
                    assert(starts_at(more, a, s) && more[a] == res@[s]);
                }
            }
        }
        i += 1;
    }
    proof {
        assert(keys@.take(i as int) =~= keys@);
        assert(pre_sizes@.restrict(pre_sizes@.dom()) =~= pre_sizes@);
        assert forall|a: RamAddress| #[trigger] pre_sizes@.contains_key(a) implies a < Address::MAX
            && 0 <= buffer_start(a, pre_sizes@[a]) by {
            assert(keys@.to_set().contains(a));
            let j = choose|j: int| 0 <= j < keys@.len() && keys@[j] == a;
            assert(keys@[j] < Address::MAX);
        }
    }
    Some(res)
}

/// Lists the sizes as ranges.
fn list_exact_sizes(sizes: &FxHashMap<RamAddress, u64>) -> (res: Vec<(SymbolizedValue, SizeRange)>)
    ensures
        lists_sizes(res@, exact_sizes(sizes@)),
{
    let keys = map_keys(sizes);
    let ghost ranges = exact_sizes(sizes@);
    let mut res: Vec<(SymbolizedValue, SizeRange)> = Vec::new();
    let mut i: usize = 0;
    while i < keys.len()
        invariant
            enumerates(keys@, sizes@.dom()),
            ranges == exact_sizes(sizes@),
            i <= keys@.len(),
            res@.len() == i,
            forall|j: int|
                0 <= j < i ==> #[trigger] res@[j] == (
                    SymbolizedValue::Address(keys@[j]),
                    ranges[keys@[j]],
                ),
        decreases keys.len() - i,
    {
        assert(keys@.to_set().contains(keys@[i as int]));
        let size = *map_get(sizes, &keys[i]).unwrap();
        res.push((SymbolizedValue::Address(keys[i]), SizeRange { min: size, max: size }));
        i += 1;
    }
    proof {
        assert(ranges.dom() =~= sizes@.dom());
        assert(enumerates(keys@, ranges.dom()));
        assert(res@ =~= keys@.map_values(
            |a: RamAddress| (SymbolizedValue::Address(a), ranges[a]),
        ));
    }
    res
}

/// Whether the pointer may be one to the end of a buffer, and never to the start of one.
fn is_buffer_end(pre_sizes: &FxHashMap<RamAddress, u64>) -> (res: bool)
    ensures
        res == ends_buffers(pre_sizes@),
{
    let keys = map_keys(pre_sizes);
    if keys.len() == 0 {
        assert(keys@.to_set() =~= Set::empty());
        return false;
    }
    let mut i: usize = 0;
    while i < keys.len()
        invariant
            enumerates(keys@, pre_sizes@.dom()),
            i <= keys@.len(),
            forall|j: int| 0 <= j < i ==> pre_sizes@[#[trigger] keys@[j]] != 0,
        decreases keys.len() - i,
    {
        assert(keys@.to_set().contains(keys@[i as int]));
        if *map_get(pre_sizes, &keys[i]).unwrap() == 0 {
            assert(pre_sizes@.contains_key(keys@[i as int]));
            return false;
        }
        i += 1;
    }
    proof {
        assert(keys@.to_set().contains(keys@[0]));
        assert forall|a: RamAddress| #[trigger] pre_sizes@.contains_key(a) implies pre_sizes@[a]
            != 0 by {
            assert(keys@.to_set().contains(a));
            let j = choose|j: int| 0 <= j < keys@.len() && keys@[j] == a;
            assert(pre_sizes@[keys@[j]] != 0);
        }
    }
    true
}

/// A pointer to a plain buffer at one of the addresses.
fn pointer_to_buffer(known_values: Vec<SymbolizedValue>) -> (res: DmaDescriptorPointer)
    ensures
        !res.is_buf_end_ptr,
        res.known_values == known_values,
        *res.to matches DmaDescriptorField::Buffer(buffer) && buffer.known_sizes@.len() == 0,
{
    DmaDescriptorPointer {
        is_buf_end_ptr: false,
        known_values,
        to: Box::new(DmaDescriptorField::Buffer(Buffer::default())),
    }
}

impl DmaDescriptorPointer {
    /// A pointer to a buffer at one of the addresses with a known size.
    pub fn from_known_sizes(known_sizes: &FxHashMap<RamAddress, SizeRange>) -> (res: Self)
        ensures
            points_to_buffer(res, known_sizes@.dom()),
            res.wf(),
    {
        let keys = map_keys(known_sizes);
        pointer_to_buffer(addresses_of(&keys))
    }

    /// The entry of a field that points to a buffer, or to the end of one. None where its offset is
    /// not a number or the start of a buffer not an address.
    fn create_pointer_to_buffer(pointer: &PointerType, field_index: usize) -> (res: Option<
        DmaDescriptorFieldEntry,
    >)
        ensures
            res is Some <==> buffer_entry_ok(pointer@, field_index as int),
            res matches Some(entry) ==> buffer_entry(entry, pointer@, field_index as int),
    {
        if field_index > usize::MAX / POINTER_SIZE {
            return None;
        }
        let offset = field_index * POINTER_SIZE;
        let pre_sizes = &pointer.potential_pre_buf_sizes;
        if is_buffer_end(pre_sizes) {
            match sizes_by_start(pre_sizes) {
                Some(sizes) => {
                    let known_sizes = list_exact_sizes(&sizes);
                    let ptr = DmaDescriptorPointer {
                        is_buf_end_ptr: true,
                        known_values: Vec::new(),
                        to: Box::new(DmaDescriptorField::Buffer(Buffer { known_sizes })),
                    };
                    assert(points_to_buffer_end(ptr, pre_sizes@)) by {
                        assert(are_start_sizes(pre_sizes@, sizes@));
                    }
                    Some(
                        DmaDescriptorFieldEntry {
                            offset,
                            descriptor: DmaDescriptorField::Pointer(ptr),
                        },
                    )
                },
                None => None,
            }
        } else {
            let ptr = pointer_to_buffer(list_addresses(&pointer.known_values));
            Some(
                DmaDescriptorFieldEntry { offset, descriptor: DmaDescriptorField::Pointer(ptr) },
            )
        }
    }

    /// Describes the descriptor behind a pointer and those that it links to, apart from those that
    /// are known already. None where one of them has not the layout, or its entries cannot be made.
    pub fn from_dma_descriptor(
        pointer_type: &PointerType,
        layout: &DescriptorLayoutCandidate,
        known_descr_addrs: &mut FxHashSet<RamAddress>,
    ) -> (res: Option<Self>)
        ensures
            res is Some <==> describable(pointer_type@, *layout, old(known_descr_addrs)@),
            res matches Some(ptr) ==> {
                &&& describes(ptr, pointer_type@, *layout, old(known_descr_addrs)@)
                &&& ptr.wf()
                &&& final(known_descr_addrs)@ == known_after(
                    pointer_type@,
                    *layout,
                    old(known_descr_addrs)@,
                )
            },
        decreases pointer_type,
    {
        let ghost p = pointer_type@;
        let ghost known = known_descr_addrs@;
        let mut fields: Vec<DmaDescriptorFieldEntry> = Vec::new();
        let dst = layout.dst_ptr_index;
        if dst >= pointer_type.to.len() {
            return None;
        }
        assert(p.to[dst as int] == pointer_type.to@[dst as int]@);
        match &pointer_type.to[dst] {
            FieldTypeGuess::Pointer { pointer } => {
                match Self::create_pointer_to_buffer(pointer, dst) {
                    Some(entry) => {
                        fields.push(entry);
                    },
                    None => {
                        return None;
                    },
                }
            },
            _ => {
                return None;
            },
        }
        if let Some(link) = layout.link_ptr_index {
            if link < pointer_type.to.len() {
                assert(p.to[link as int] == pointer_type.to@[link as int]@);
                match &pointer_type.to[link] {
                    FieldTypeGuess::Zero => {},
                    FieldTypeGuess::HighEntropy { .. } => {
                        return None;
                    },
                    FieldTypeGuess::Pointer { pointer: next } => {
                        set_extend(known_descr_addrs, &pointer_type.known_values);
                        if next.to.len() != 0 && !set_includes(
                            known_descr_addrs,
                            &next.known_values,
                        ) {
                            if link > usize::MAX / POINTER_SIZE {
                                return None;
                            }
                            match Self::from_dma_descriptor(next, layout, known_descr_addrs) {
                                Some(ptr) => {
                                    fields.push(
                                        DmaDescriptorFieldEntry {
                                            offset: POINTER_SIZE * link,
                                            descriptor: DmaDescriptorField::Pointer(ptr),
                                        },
                                    );
                                },
                                None => {
                                    return None;
                                },
                            }
                        }
                    },
                }
            }
        }
        let res = DmaDescriptorPointer {
            is_buf_end_ptr: false,
            known_values: list_addresses(&pointer_type.known_values),
            to: Box::new(DmaDescriptorField::Descriptor(DmaDescriptor { fields, typedef: None })),
        };
        proof {
            lemma_describes_wf(res, p, *layout, known);
        }
        Some(res)
    }
}

/// The descriptors behind the entries of a table of pointers have their layouts, and their entries
/// can be made.
pub open spec fn table_describable(
    p: PointerModel,
    layouts: Map<usize, DescriptorLayoutCandidate>,
) -> bool {
    forall|i: usize| #[trigger]
        layouts.contains_key(i) ==> {
            &&& i * POINTER_SIZE <= usize::MAX
            &&& i < p.to.len()
            &&& p.to[i as int] matches FieldModel::Pointer { pointer } && describable(
                pointer,
                layouts[i],
                Set::empty(),
            )
        }
}

/// The entry describes the descriptor behind the entry `i` of a table of pointers.
pub open spec fn describes_entry(
    entry: DmaDescriptorFieldEntry,
    p: PointerModel,
    layouts: Map<usize, DescriptorLayoutCandidate>,
    i: usize,
) -> bool {
    &&& entry.offset == i * POINTER_SIZE
    &&& entry.descriptor matches DmaDescriptorField::Pointer(ptr) && describes(
        ptr,
        p.to[i as int]->pointer,
        layouts[i],
        Set::empty(),
    )
}

/// The fields describe the descriptors behind the entries of a table of pointers, in an order that
/// is left open.
pub open spec fn describe_entries(
    fields: Seq<DmaDescriptorFieldEntry>,
    p: PointerModel,
    layouts: Map<usize, DescriptorLayoutCandidate>,
) -> bool {
    exists|order: Seq<usize>| #[trigger]
        enumerates(order, layouts.dom()) && fields.len() == order.len() && forall|i: int|
            0 <= i < fields.len() ==> describes_entry(#[trigger] fields[i], p, layouts, order[i])
}

/// The pointer describes a table of pointers to descriptors.
pub open spec fn describes_table(
    ptr: DmaDescriptorPointer,
    p: PointerModel,
    layouts: Map<usize, DescriptorLayoutCandidate>,
) -> bool {
    &&& !ptr.is_buf_end_ptr
    &&& lists_addresses(ptr.known_values@, p.known_values)
    &&& *ptr.to matches DmaDescriptorField::Descriptor(descriptor) && descriptor.typedef is None
        && describe_entries(descriptor.fields@, p, layouts)
}

impl DmaDescriptorPointer {
    /// Describes a table of pointers to descriptors. None where one of them has not its layout, or
    /// its entries cannot be made.
    pub fn from_pointer_table(
        pointer_type: &PointerType,
        layout_per_offset: &FxHashMap<usize, DescriptorLayoutCandidate>,
    ) -> (res: Option<Self>)
        ensures
            res is Some <==> table_describable(pointer_type@, layout_per_offset@),
            res matches Some(ptr) ==> describes_table(ptr, pointer_type@, layout_per_offset@)
                && ptr.wf(),
    {
        let ghost p = pointer_type@;
        let ghost layouts = layout_per_offset@;
        let mut fields: Vec<DmaDescriptorFieldEntry> = Vec::new();
        let keys = map_keys(layout_per_offset);
        let mut i: usize = 0;
        while i < keys.len()
            invariant
                p == pointer_type@,
                layouts == layout_per_offset@,
                enumerates(keys@, layouts.dom()),
                i <= keys@.len(),
                fields@.len() == i,
                forall|j: int|
                    0 <= j < i ==> describes_entry(#[trigger] fields@[j], p, layouts, keys@[j]),
                forall|j: int|
                    0 <= j < i ==> {
                        let k = #[trigger] keys@[j];
                        &&& k * POINTER_SIZE <= usize::MAX
                        &&& k < p.to.len()
                        &&& p.to[k as int] matches FieldModel::Pointer { pointer } && describable(
                            pointer,
                            layouts[k],
                            Set::empty(),
                        )
                    },
            decreases keys.len() - i,
        {
            let key = keys[i];
            assert(keys@.to_set().contains(key));
            assert(layouts.contains_key(key));
            let layout = map_get(layout_per_offset, &key).unwrap();
            if key >= pointer_type.to.len() || key > usize::MAX / POINTER_SIZE {
                return None;
            }
            assert(p.to[key as int] == pointer_type.to@[key as int]@);
            match &pointer_type.to[key] {
                FieldTypeGuess::Pointer { pointer } => {
                    let mut known_descr_addrs: FxHashSet<RamAddress> = FxHashSet::default();
                    assert(known_descr_addrs@ =~= Set::empty());
                    match Self::from_dma_descriptor(pointer, layout, &mut known_descr_addrs) {
                        Some(ptr) => {
                            fields.push(
                                DmaDescriptorFieldEntry {
                                    offset: key * POINTER_SIZE,
                                    descriptor: DmaDescriptorField::Pointer(ptr),
                                },
                            );
                        },
                        None => {
                            return None;
                        },
                    }
                },
                _ => {
                    return None;
                },
            }
            i += 1;
        }
        proof {
            assert forall|k: usize| #[trigger] layouts.contains_key(k) implies {
                &&& k * POINTER_SIZE <= usize::MAX
                &&& k < p.to.len()
                &&& p.to[k as int] matches FieldModel::Pointer { pointer } && describable(
                    pointer,
                    layouts[k],
                    Set::empty(),
                )
            } by {
                assert(keys@.to_set().contains(k));
                let j = choose|j: int| 0 <= j < keys@.len() && keys@[j] == k;
                assert(keys@[j] < p.to.len());
            }
        }
        let res = DmaDescriptorPointer {
            is_buf_end_ptr: false,
            known_values: list_addresses(&pointer_type.known_values),
            to: Box::new(DmaDescriptorField::Descriptor(DmaDescriptor { fields, typedef: None })),
        };
        proof {
            lemma_describes_table_wf(res, p, layouts);
        }
        Some(res)
    }
}

/// The entries for the address `a`.
pub open spec fn entries_for(entries: Seq<(SymbolizedValue, SizeRange)>, a: Address) -> spec_fn(
    int,
) -> bool {
    |i: int| entries[i].0 matches SymbolizedValue::Address(b) && b == a
}

/// The place of the entry for the address `a`.
pub open spec fn place_of(entries: Seq<(SymbolizedValue, SizeRange)>, a: Address) -> Option<int> {
    first_from(0, entries.len() as int, entries_for(entries, a))
}

/// The size that is known at the address `a`.
pub open spec fn size_at(entries: Seq<(SymbolizedValue, SizeRange)>, a: Address) -> Option<
    SizeRange,
> {
    match place_of(entries, a) {
        Some(i) => Some(entries[i].1),
        None => None,
    }
}

/// The entries with the size at the address `a`, in place of the one that was known there.
pub open spec fn with_size(
    entries: Seq<(SymbolizedValue, SizeRange)>,
    a: Address,
    size: SizeRange,
) -> Seq<(SymbolizedValue, SizeRange)> {
    match place_of(entries, a) {
        Some(i) => entries.update(i, (SymbolizedValue::Address(a), size)),
        None => entries.push((SymbolizedValue::Address(a), size)),
    }
}

/// The entries with the sizes at the addresses in `order`.
pub open spec fn with_sizes(
    entries: Seq<(SymbolizedValue, SizeRange)>,
    order: Seq<RamAddress>,
    sizes: Map<RamAddress, SizeRange>,
) -> Seq<(SymbolizedValue, SizeRange)>
    decreases order.len(),
{
    if order.len() == 0 {
        entries
    } else {
        with_size(
            with_sizes(entries, order.drop_last(), sizes),
            order.last(),
            sizes[order.last()],
        )
    }
}

/// The size that was added last at an address is the one that is known there, and the sizes at
/// other addresses stay as they were.
pub proof fn lemma_with_size(
    entries: Seq<(SymbolizedValue, SizeRange)>,
    a: Address,
    size: SizeRange,
    b: Address,
)
    ensures
        size_at(with_size(entries, a, size), b) == (if a == b {
            Some(size)
        } else {
            size_at(entries, b)
        }),
{
    let after = with_size(entries, a, size);
    lemma_first_from(0, entries.len() as int, entries_for(entries, a));
    lemma_first_from(0, entries.len() as int, entries_for(entries, b));
    lemma_first_from(0, after.len() as int, entries_for(after, b));
    let now = entries_for(after, b);
    let before = entries_for(entries, b);
    assert forall|i: int| 0 <= i < entries.len() implies #[trigger] now(i) == before(i) by {
        if place_of(entries, a) == Some(i) {
            assert(entries_for(entries, a)(i));
        }
    }
    if place_of(entries, a) is None {
        assert(now(entries.len() as int) == (a == b));
    }
    match (place_of(entries, b), place_of(after, b)) {
        (Some(i), Some(j)) => {
            assert(now(i) && now(j));
            if j < i {
                assert(before(j));
            }
        },
        (Some(i), None) => {
            assert(now(i));
        },
        (None, Some(j)) => {
            if j < entries.len() {
                assert(before(j));
            }
        },
        (None, None) => {},
    }
}

/// Where no address has two sizes, none has two after one more was added.
pub proof fn lemma_with_size_distinct(
    entries: Seq<(SymbolizedValue, SizeRange)>,
    a: Address,
    size: SizeRange,
)
    requires
        distinct_values(entries),
    ensures
        distinct_values(with_size(entries, a, size)),
{
    let after = with_size(entries, a, size);
    let p = entries_for(entries, a);
    lemma_first_from(0, entries.len() as int, p);
    assert forall|i: int, j: int| 0 <= i < j < after.len() implies !(
    #[trigger] after[i]).0.is_same((#[trigger] after[j]).0) by {
        if i < entries.len() {
            assert(p(i) == (entries[i].0 matches SymbolizedValue::Address(b) && b == a));
        }
        if j < entries.len() {
            assert(p(j) == (entries[j].0 matches SymbolizedValue::Address(b) && b == a));
            assert(!entries[i].0.is_same(entries[j].0));
        }
    }
}

/// A list of sizes has no address twice.
pub proof fn lemma_lists_sizes_distinct(
    entries: Seq<(SymbolizedValue, SizeRange)>,
    sizes: Map<RamAddress, SizeRange>,
)
    requires
        lists_sizes(entries, sizes),
    ensures
        distinct_values(entries),
{
    let order = choose|order: Seq<RamAddress>| #[trigger]
        enumerates(order, sizes.dom()) && entries == order.map_values(
            |a: RamAddress| (SymbolizedValue::Address(a), sizes[a]),
        );
    assert forall|i: int, j: int| 0 <= i < j < entries.len() implies !(
    #[trigger] entries[i]).0.is_same((#[trigger] entries[j]).0) by {
        assert(order[i] != order[j]);
    }
}

/// What describes descriptors has well-formed buffers.
pub proof fn lemma_describes_wf(
    ptr: DmaDescriptorPointer,
    p: PointerModel,
    layout: DescriptorLayoutCandidate,
    known: Set<RamAddress>,
)
    requires
        describes(ptr, p, layout, known),
    ensures
        ptr.wf(),
    decreases p,
{
    let dst = layout.dst_ptr_index as int;
    let fields = ptr.to->Descriptor_0.fields@;
    lemma_buffer_entry_wf(fields[0], p.to[dst]->pointer, dst);
    if follows_link(p, layout, known) {
        let link = layout.link_ptr_index->0 as int;
        lemma_describes_wf(
            fields[1].descriptor->Pointer_0,
            p.to[link]->pointer,
            layout,
            known_at_link(p, known),
        );
        assert(fields[1].descriptor.wf());
    }
    assert forall|i: int| 0 <= i < fields.len() implies (#[trigger] fields[i]).descriptor.wf() by {
        assert(i == 0 || i == 1);
    }
}

/// The entry of a field that points to a buffer has a well-formed one.
proof fn lemma_buffer_entry_wf(entry: DmaDescriptorFieldEntry, p: PointerModel, index: int)
    requires
        buffer_entry(entry, p, index),
    ensures
        entry.descriptor.wf(),
{
    let ptr = entry.descriptor->Pointer_0;
    let buffer = ptr.to->Buffer_0;
    if ends_buffers(p.potential_pre_buf_sizes) {
        let sizes = choose|sizes: Map<RamAddress, u64>| #[trigger]
            are_start_sizes(p.potential_pre_buf_sizes, sizes) && lists_sizes(
                buffer.known_sizes@,
                exact_sizes(sizes),
            );
        lemma_lists_sizes_distinct(buffer.known_sizes@, exact_sizes(sizes));
    }
    assert(ptr.to.wf());
}

/// What describes a table of pointers to descriptors has well-formed buffers.
pub proof fn lemma_describes_table_wf(
    ptr: DmaDescriptorPointer,
    p: PointerModel,
    layouts: Map<usize, DescriptorLayoutCandidate>,
)
    requires
        describes_table(ptr, p, layouts),
    ensures
        ptr.wf(),
{
    let fields = ptr.to->Descriptor_0.fields@;
    let order = choose|order: Seq<usize>| #[trigger]
        enumerates(order, layouts.dom()) && fields.len() == order.len() && forall|i: int|
            0 <= i < fields.len() ==> describes_entry(#[trigger] fields[i], p, layouts, order[i]);
    assert forall|i: int| 0 <= i < fields.len() implies (#[trigger] fields[i]).descriptor.wf() by {
        assert(describes_entry(fields[i], p, layouts, order[i]));
        let entry = fields[i].descriptor->Pointer_0;
        lemma_describes_wf(
            entry,
            p.to[order[i] as int]->pointer,
            layouts[order[i]],
            Set::empty(),
        );
    }
}

/// Sizes that are added to none are listed in the order in which they are added.
pub proof fn lemma_first_sizes(order: Seq<RamAddress>, sizes: Map<RamAddress, SizeRange>)
    requires
        order.no_duplicates(),
    ensures
        with_sizes(Seq::empty(), order, sizes) == order.map_values(
            |a: RamAddress| (SymbolizedValue::Address(a), sizes[a]),
        ),
    decreases order.len(),
{
    let listed = order.map_values(|a: RamAddress| (SymbolizedValue::Address(a), sizes[a]));
    if order.len() > 0 {
        let rest = order.drop_last();
        lemma_first_sizes(rest, sizes);
        let before = with_sizes(Seq::empty(), rest, sizes);
        let a = order.last();
        lemma_first_from(0, before.len() as int, entries_for(before, a));
        if let Some(i) = place_of(before, a) {
            assert(before[i].0 == SymbolizedValue::Address(rest[i]));
            assert(rest[i] == order[i]);
            assert(false);
        }
        assert(with_sizes(Seq::empty(), order, sizes) =~= listed);
    } else {
        assert(with_sizes(Seq::empty(), order, sizes) =~= listed);
    }
}

impl DmaConfig {
    /// Adds a register that points to a descriptor or a buffer.
    pub fn add_descriptor(&mut self, mmio_addr: MmioAddress, pointer: DmaDescriptorPointer)
        ensures
            final(self).descriptor_heads@ == old(self).descriptor_heads@.push(
                DmaDescriptorHead { addr: mmio_addr, descriptor: pointer },
            ),
            final(self).known_sizes == old(self).known_sizes,
            old(self).wf() && pointer.wf() ==> final(self).wf(),
    {
        self.descriptor_heads.push(DmaDescriptorHead { addr: mmio_addr, descriptor: pointer });
    }

    /// Adds the size of the buffer at an address, in place of the one that was known there.
    pub fn add_known_buf_size(&mut self, buf_addr: RamAddress, size: SizeRange)
        ensures
            final(self).known_sizes@ == with_size(old(self).known_sizes@, buf_addr, size),
            final(self).descriptor_heads == old(self).descriptor_heads,
            old(self).wf() ==> final(self).wf(),
    {
        proof {
            if self.wf() {
                lemma_with_size_distinct(self.known_sizes@, buf_addr, size);
            }
        }
        let ghost entries = self.known_sizes@;
        let mut i: usize = 0;
        while i < self.known_sizes.len()
            invariant
                entries == self.known_sizes@,
                entries == old(self).known_sizes@,
                self.descriptor_heads == old(self).descriptor_heads,
                i <= entries.len(),
                place_of(entries, buf_addr) == first_from(
                    i as int,
                    entries.len() as int,
                    entries_for(entries, buf_addr),
                ),
            decreases entries.len() - i,
        {
            let found = match &self.known_sizes[i].0 {
                SymbolizedValue::Address(a) => *a == buf_addr,
                SymbolizedValue::Symbol(_) => false,
            };
            if found {
                self.known_sizes.set(i, (SymbolizedValue::Address(buf_addr), size));
                return;
            }
            i += 1;
        }
        self.known_sizes.push((SymbolizedValue::Address(buf_addr), size));
    }

    /// Adds the sizes of buffers, in an order that is left open.
    pub fn add_known_buf_sizes(&mut self, sizes: FxHashMap<RamAddress, SizeRange>)
        ensures
            exists|order: Seq<RamAddress>| #[trigger]
                enumerates(order, sizes@.dom()) && final(self).known_sizes@ == with_sizes(
                    old(self).known_sizes@,
                    order,
                    sizes@,
                ),
            final(self).descriptor_heads == old(self).descriptor_heads,
            old(self).wf() ==> final(self).wf(),
    {
        let keys = map_keys(&sizes);
        let mut i: usize = 0;
        assert(keys@.take(0) =~= Seq::empty());
        while i < keys.len()
            invariant
                enumerates(keys@, sizes@.dom()),
                i <= keys@.len(),
                self.known_sizes@ == with_sizes(
                    old(self).known_sizes@,
                    keys@.take(i as int),
                    sizes@,
                ),
                self.descriptor_heads == old(self).descriptor_heads,
                old(self).wf() ==> self.wf(),
            decreases keys.len() - i,
        {
            assert(keys@.to_set().contains(keys@[i as int]));
            assert(keys@.take(i + 1).drop_last() =~= keys@.take(i as int));
            let size = *map_get(&sizes, &keys[i]).unwrap();
            self.add_known_buf_size(keys[i], size);
            i += 1;
        }
        assert(keys@.take(i as int) =~= keys@);
    }
}

} // verus!
