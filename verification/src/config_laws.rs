//! What a configuration says of the memory that it describes.

use crate::common::{Address, RamAddress};
use crate::dma_analysis::merge::{FieldModel, PointerModel};
use crate::dma_analysis::type_info::field_address;
use crate::dma_analysis::types::SizeRange;
use crate::dma_config::{
    are_start_sizes, buffer_entry, describes, describes_entry, describes_table, ends_buffers,
    exact_sizes, known_after, lists_addresses, lists_sizes, points_to_buffer_end, starts_at,
    DmaDescriptorField, DmaDescriptorFieldEntry, DmaDescriptorPointer, SymbolizedValue,
};
use crate::summary::layout::DescriptorLayoutCandidate;
use crate::tables::enumerates;
use vstd::prelude::*;

verus! {

/// The entry is that of the field with the index `i`: at whichever address the structure lies, the
/// offset of the entry leads to the address at which that field was read.
pub open spec fn locates(entry: DmaDescriptorFieldEntry, i: int) -> bool {
    forall|base: RamAddress|
        base + 4 * i <= Address::MAX ==> base + entry.offset == #[trigger] field_address(base, i)
}

/// The listed values are exactly the addresses of the set.
pub proof fn lemma_listed_addresses(values: Seq<SymbolizedValue>, s: Set<RamAddress>)
    requires
        lists_addresses(values, s),
    ensures
        forall|a: RamAddress|
            s.contains(a) <==> #[trigger] values.contains(SymbolizedValue::Address(a)),
        forall|i: int| 0 <= i < values.len() ==> (#[trigger] values[i]) is Address,
{
    let order = choose|order: Seq<RamAddress>| #[trigger]
        enumerates(order, s) && values == order.map_values(
            |a: RamAddress| SymbolizedValue::Address(a),
        );
    assert forall|a: RamAddress| s.contains(a) <==> #[trigger] values.contains(
        SymbolizedValue::Address(a),
    ) by {
        assert(order.to_set().contains(a) <==> s.contains(a));
        if s.contains(a) {
            let i = choose|i: int| 0 <= i < order.len() && order[i] == a;
            assert(values[i] == SymbolizedValue::Address(a));
        }
        if values.contains(SymbolizedValue::Address(a)) {
            let i = choose|i: int|
                0 <= i < values.len() && values[i] == SymbolizedValue::Address(a);
            assert(order[i] == a);
        }
    }
}

/// The offset of the entry is that of a field with a layout.
pub open spec fn is_field_of(
    entry: DmaDescriptorFieldEntry,
    layouts: Map<usize, DescriptorLayoutCandidate>,
) -> bool {
    exists|i: usize| #[trigger] layouts.contains_key(i) && entry.offset == 4 * i
}

/// One of the entries lies where the field with the index `i` was read, and describes what the
/// pointer in that field leads to.
pub open spec fn has_field(
    fields: Seq<DmaDescriptorFieldEntry>,
    p: PointerModel,
    layouts: Map<usize, DescriptorLayoutCandidate>,
    i: usize,
) -> bool {
    exists|j: int|
        0 <= j < fields.len() && (#[trigger] fields[j]).offset == 4 * i && locates(
            fields[j],
            i as int,
        ) && (fields[j].descriptor matches DmaDescriptorField::Pointer(to) && describes(
            to,
            p.to[i as int]->pointer,
            layouts[i],
            Set::empty(),
        ))
}

/// The description of a table of pointers names every address of the table, and has one entry for
/// each of its fields with a layout and no other: the entry for the field with the index `i` has the
/// offset `4 * i`, so that it lies where the analysis read that field, and describes what the
/// pointer in that field leads to.
pub proof fn lemma_table_offsets(
    ptr: DmaDescriptorPointer,
    p: PointerModel,
    layouts: Map<usize, DescriptorLayoutCandidate>,
)
    requires
        describes_table(ptr, p, layouts),
    ensures
        !ptr.is_buf_end_ptr,
        forall|a: RamAddress|
            p.known_values.contains(a) <==> #[trigger] ptr.known_values@.contains(
                SymbolizedValue::Address(a),
            ),
        *ptr.to matches DmaDescriptorField::Descriptor(descriptor) && {
            let fields = descriptor.fields@;
            &&& forall|j: int|
                0 <= j < fields.len() ==> is_field_of(#[trigger] fields[j], layouts)
            &&& forall|i: usize| #[trigger]
                layouts.contains_key(i) ==> has_field(fields, p, layouts, i)
            &&& forall|j: int, k: int|
                0 <= j < k < fields.len() ==> (#[trigger] fields[j]).offset != (
                #[trigger] fields[k]).offset
        },
{
    lemma_listed_addresses(ptr.known_values@, p.known_values);
    if let DmaDescriptorField::Descriptor(descriptor) = *ptr.to {
        let fields = descriptor.fields@;
        let order = choose|order: Seq<usize>| #[trigger]
            enumerates(order, layouts.dom()) && fields.len() == order.len() && forall|i: int|
                0 <= i < fields.len() ==> describes_entry(
                    #[trigger] fields[i],
                    p,
                    layouts,
                    order[i],
                );
        assert forall|j: int| 0 <= j < fields.len() implies is_field_of(
            #[trigger] fields[j],
            layouts,
        ) by {
            assert(describes_entry(fields[j], p, layouts, order[j]));
            assert(order.to_set().contains(order[j]));
            assert(layouts.contains_key(order[j]));
        }
        assert forall|i: usize| #[trigger] layouts.contains_key(i) implies has_field(
            fields,
            p,
            layouts,
            i,
        ) by {
            assert(order.to_set().contains(i));
            let j = choose|j: int| 0 <= j < order.len() && order[j] == i;
            assert(describes_entry(fields[j], p, layouts, order[j]));
            assert(fields[j].offset == 4 * i);
            assert(locates(fields[j], i as int));
        }
        assert forall|j: int, k: int| 0 <= j < k < fields.len() implies (
        #[trigger] fields[j]).offset != (#[trigger] fields[k]).offset by {
            assert(describes_entry(fields[j], p, layouts, order[j]));
            assert(describes_entry(fields[k], p, layouts, order[k]));
        }
    }
}

/// The buffer that ends at `a`, its last byte, is listed by its start, with at least its size.
pub open spec fn has_start(
    sizes: Seq<(SymbolizedValue, SizeRange)>,
    ends: Map<RamAddress, u64>,
    a: RamAddress,
) -> bool {
    exists|j: int|
        0 <= j < sizes.len() && (#[trigger] sizes[j]).0 == SymbolizedValue::Address(
            (a + 1 - ends[a]) as Address,
        ) && sizes[j].1.min >= ends[a] && sizes[j].1.max == sizes[j].1.min
}

/// The entry is the start and the size of a buffer that ends at one of the addresses.
pub open spec fn is_start_of(
    entry: (SymbolizedValue, SizeRange),
    ends: Map<RamAddress, u64>,
) -> bool {
    exists|a: RamAddress| #[trigger]
        ends.contains_key(a) && entry.1.min == ends[a] && entry.1.max == ends[a] && (ends[a]
            <= Address::MAX ==> entry.0 == SymbolizedValue::Address(
            (a + 1 - ends[a]) as Address,
        ))
}

/// The entry of a pointer to a buffer lies where the analysis read the field with that index. Where
/// every value of the pointer may be the end of a buffer, the buffers are known by the addresses
/// where they start: each size that was found at the address `a`, its last byte, makes `a + 1` the
/// end of the buffer, and of two buffers with one start the larger one counts. Otherwise the values
/// of the pointer are the starts of the buffers.
pub proof fn lemma_buffer_entry(entry: DmaDescriptorFieldEntry, p: PointerModel, index: int)
    requires
        buffer_entry(entry, p, index),
    ensures
        entry.offset == 4 * index,
        locates(entry, index),
        entry.descriptor matches DmaDescriptorField::Pointer(ptr) && (
        *ptr.to matches DmaDescriptorField::Buffer(buffer) && {
            let ends = p.potential_pre_buf_sizes;
            let sizes = buffer.known_sizes@;
            &&& ptr.is_buf_end_ptr <==> (exists|a: RamAddress| #[trigger] ends.contains_key(a))
                && forall|a: RamAddress| #[trigger] ends.contains_key(a) ==> ends[a] > 0
            &&& !ptr.is_buf_end_ptr ==> sizes.len() == 0 && forall|a: RamAddress|
                p.known_values.contains(a) <==> #[trigger] ptr.known_values@.contains(
                    SymbolizedValue::Address(a),
                )
            &&& ptr.is_buf_end_ptr ==> ptr.known_values@.len() == 0
            &&& ptr.is_buf_end_ptr ==> forall|a: RamAddress| #[trigger]
                ends.contains_key(a) && ends[a] <= a + 1 && a < Address::MAX ==> has_start(
                    sizes,
                    ends,
                    a,
                )
            &&& ptr.is_buf_end_ptr ==> forall|j: int|
                0 <= j < sizes.len() ==> is_start_of(#[trigger] sizes[j], ends)
        }),
{
    let ends = p.potential_pre_buf_sizes;
    if let DmaDescriptorField::Pointer(ptr) = entry.descriptor {
        if let DmaDescriptorField::Buffer(buffer) = *ptr.to {
            let sizes = buffer.known_sizes@;
            assert(ends_buffers(ends) <==> (exists|a: RamAddress| #[trigger]
                ends.contains_key(a)) && forall|a: RamAddress| #[trigger]
                ends.contains_key(a) ==> ends[a] > 0) by {
                if !ends.dom().is_empty() {
                    let a = ends.dom().choose();
                    assert(ends.contains_key(a));
                }
            }
            if ptr.is_buf_end_ptr {
                assert(points_to_buffer_end(ptr, ends));
                let starts = choose|starts: Map<RamAddress, u64>| #[trigger]
                    are_start_sizes(ends, starts) && lists_sizes(sizes, exact_sizes(starts));
                lemma_end_sizes(sizes, ends, starts);
            } else {
                lemma_listed_addresses(ptr.known_values@, p.known_values);
            }
        }
    }
}

proof fn lemma_end_sizes(
    sizes: Seq<(SymbolizedValue, SizeRange)>,
    ends: Map<RamAddress, u64>,
    starts: Map<RamAddress, u64>,
)
    requires
        are_start_sizes(ends, starts),
        lists_sizes(sizes, exact_sizes(starts)),
    ensures
        forall|a: RamAddress| #[trigger]
            ends.contains_key(a) && 0 < ends[a] <= a + 1 && a < Address::MAX ==> has_start(
                sizes,
                ends,
                a,
            ),
        forall|j: int| 0 <= j < sizes.len() ==> is_start_of(#[trigger] sizes[j], ends),
{
    let m = exact_sizes(starts);
    let order = choose|order: Seq<RamAddress>| #[trigger]
        enumerates(order, m.dom()) && sizes == order.map_values(
            |a: RamAddress| (SymbolizedValue::Address(a), m[a]),
        );
    assert forall|a: RamAddress| #[trigger]
        ends.contains_key(a) && 0 < ends[a] <= a + 1 && a < Address::MAX implies has_start(
        sizes,
        ends,
        a,
    ) by {
        let start = (a + 1 - ends[a]) as Address;
        assert(starts_at(ends, a, start));
        assert(m.contains_key(start));
        assert(order.to_set().contains(start));
        let j = choose|j: int| 0 <= j < order.len() && order[j] == start;
        assert(sizes[j].0 == SymbolizedValue::Address(start));
    }
    assert forall|j: int| 0 <= j < sizes.len() implies is_start_of(#[trigger] sizes[j], ends) by {
        assert(order.to_set().contains(order[j]));
        assert(starts.contains_key(order[j]));
        let a = choose|a: RamAddress| #[trigger]
            starts_at(ends, a, order[j]) && ends[a] == starts[order[j]];
        assert(ends.contains_key(a));
    }
}

/// The description of a descriptor names every address of the descriptor, and has an entry for the
/// pointer to the buffer, where the analysis read it. It has one for the link, where the analysis
/// read that, exactly where the link leads to a descriptor with fields, of which some address is
/// neither among those of the descriptor itself nor among those that were known before.
pub proof fn lemma_descriptor_fields(
    ptr: DmaDescriptorPointer,
    p: PointerModel,
    layout: DescriptorLayoutCandidate,
    known: Set<RamAddress>,
)
    requires
        describes(ptr, p, layout, known),
    ensures
        !ptr.is_buf_end_ptr,
        forall|a: RamAddress|
            p.known_values.contains(a) <==> #[trigger] ptr.known_values@.contains(
                SymbolizedValue::Address(a),
            ),
        *ptr.to matches DmaDescriptorField::Descriptor(descriptor) && {
            let fields = descriptor.fields@;
            let dst = layout.dst_ptr_index as int;
            &&& fields.len() == 1 || fields.len() == 2
            &&& fields[0].offset == 4 * dst && locates(fields[0], dst)
            &&& dst < p.to.len()
            &&& p.to[dst] matches FieldModel::Pointer { pointer } && buffer_entry(
                fields[0],
                pointer,
                dst,
            )
            &&& fields.len() == 2 <==> (layout.link_ptr_index matches Some(link) && link
                < p.to.len() && (p.to[link as int] matches FieldModel::Pointer { pointer }
                && pointer.to.len() > 0 && exists|a: RamAddress| #[trigger]
                pointer.known_values.contains(a) && !known.contains(a) && !p.known_values.contains(
                    a,
                )))
            &&& fields.len() == 2 ==> {
                let link = layout.link_ptr_index->0 as int;
                &&& fields[1].offset == 4 * link && locates(fields[1], link)
                &&& fields[1].descriptor matches DmaDescriptorField::Pointer(next) && describes(
                    next,
                    p.to[link]->pointer,
                    layout,
                    known.union(p.known_values),
                )
            }
        },
{
    lemma_listed_addresses(ptr.known_values@, p.known_values);
    if let DmaDescriptorField::Descriptor(descriptor) = *ptr.to {
        let fields = descriptor.fields@;
        let dst = layout.dst_ptr_index as int;
        lemma_buffer_entry(fields[0], p.to[dst]->pointer, dst);
        if let Some(link) = layout.link_ptr_index {
            if link < p.to.len() {
                if let FieldModel::Pointer { pointer } = p.to[link as int] {
                    let all = known.union(p.known_values);
                    assert(!pointer.known_values.subset_of(all) <==> exists|a: RamAddress|
                        #[trigger] pointer.known_values.contains(a) && !known.contains(a)
                            && !p.known_values.contains(a));
                }
            }
        }
    }
}

/// Nothing that is known of descriptors is forgotten. A descriptor is known once it was described and
/// its link leads somewhere, and then so is what its link leads to as far as it was described.
/// Nothing else comes to be known.
pub proof fn lemma_known_after(
    p: PointerModel,
    layout: DescriptorLayoutCandidate,
    known: Set<RamAddress>,
)
    ensures
        ({
            let after = known_after(p, layout, known);
            let has_link = layout.link_ptr_index is Some && layout.link_ptr_index->0 < p.to.len()
                && p.to[layout.link_ptr_index->0 as int] is Pointer;
            let next = p.to[layout.link_ptr_index->0 as int]->pointer;
            let follows = has_link && next.to.len() > 0 && exists|a: RamAddress| #[trigger]
                next.known_values.contains(a) && !known.contains(a) && !p.known_values.contains(a);
            &&& forall|a: RamAddress| #[trigger] known.contains(a) ==> after.contains(a)
            &&& has_link ==> forall|a: RamAddress| #[trigger]
                p.known_values.contains(a) ==> after.contains(a)
            &&& !has_link ==> forall|a: RamAddress| #[trigger]
                after.contains(a) ==> known.contains(a)
            &&& has_link && !follows ==> forall|a: RamAddress| #[trigger]
                after.contains(a) ==> known.contains(a) || p.known_values.contains(a)
            &&& follows ==> after == known_after(next, layout, known.union(p.known_values))
        }),
    decreases p,
{
    if let Some(link) = layout.link_ptr_index {
        if link < p.to.len() {
            if let FieldModel::Pointer { pointer } = p.to[link as int] {
                let all = known.union(p.known_values);
                assert(!pointer.known_values.subset_of(all) <==> exists|a: RamAddress| #[trigger]
                    pointer.known_values.contains(a) && !known.contains(a)
                        && !p.known_values.contains(a));
                lemma_known_after(pointer, layout, all);
                let after = known_after(p, layout, known);
                assert forall|a: RamAddress| #[trigger] known.contains(a) implies after.contains(
                    a,
                ) by {
                    assert(all.contains(a));
                }
                assert forall|a: RamAddress| #[trigger]
                    p.known_values.contains(a) implies after.contains(a) by {
                    assert(all.contains(a));
                }
            }
        }
    }
}

} // verus!
