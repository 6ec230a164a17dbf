//! Guesses that the analysis of traces makes can always be summarised.

use super::configs::{all_describable, all_tables_describable, known_before};
use super::descriptors::{
    are_pointer_tables, chosen_layouts, entry_layout, entry_layouts, going_with, is_pointer_table,
    is_top, laid_out_from, layout_from, linked_choice, populated_from, table_choice, table_entry,
    table_len_from,
};
use super::layout::{
    all_linked_layouts, all_plain_layouts, best_of, dst_field, dst_fields, indices_where,
    lemma_best_of, link_fields, linked_layouts, linked_layouts_of_src, plain_layouts_of_src,
    points_to_descriptor, possible_layouts, src_fields, window_end, DescriptorLayoutCandidate,
    MIN_DESCRIPTOR_FIELDS,
};
use super::summarize::{malformed, merged_types, without_types};
use super::types::{all_types_mergeable, common_type, types_mergeable};
use crate::common::{MmioAddress, RamAddress};
use crate::dma_analysis::detect::{
    analysable, finds, found_in, lemma_found_types_regular, registers_by_buffer,
};
use crate::dma_analysis::merge::{
    lemma_regular_merge, regular, regular_field, FieldModel, PointerModel,
};
use crate::dma_analysis::registers::memory_pointer_writes;
use crate::dma_analysis::trace_info::{mmio_writes, TraceModel};
use crate::dma_analysis::type_info::FIELD_SCAN_INITIAL_DEPTH;
use crate::dma_analysis::types::POINTER_SIZE;
use crate::dma_config::{
    buffer_entry_ok, describable, follows_link, known_at_link, table_describable,
};
use crate::dma_snippet::SnippetModel;
use crate::tables::enumerates;
use vstd::prelude::*;

verus! {

/// The indices lie among the fields that are looked at.
pub open spec fn in_fields(indices: Seq<usize>) -> bool {
    forall|i: int| 0 <= i < indices.len() ==> (#[trigger] indices[i]) < FIELD_SCAN_INITIAL_DEPTH
}

/// Whether a regular pointer is one to a descriptor can be told.
proof fn lemma_points_told(p: PointerModel, src: usize, dst: usize, link: usize)
    requires
        regular(p),
        src < FIELD_SCAN_INITIAL_DEPTH,
        dst < FIELD_SCAN_INITIAL_DEPTH,
        link < FIELD_SCAN_INITIAL_DEPTH,
    ensures
        points_to_descriptor(p, src, dst, link) is Some,
    decreases p,
{
    if p.to.len() > 0 {
        if let FieldModel::Pointer { pointer } = p.to[link as int] {
            assert(regular_field(p.to[link as int]));
            lemma_points_told(pointer, src, dst, link);
        }
    }
}

proof fn lemma_linked_told(p: PointerModel, src: usize, dst: usize, links: Seq<usize>, n: int)
    requires
        regular(p),
        src < FIELD_SCAN_INITIAL_DEPTH,
        dst < FIELD_SCAN_INITIAL_DEPTH,
        in_fields(links),
        n <= links.len(),
    ensures
        linked_layouts(p, src, dst, links, n) is Some,
    decreases n,
{
    if n > 0 {
        lemma_linked_told(p, src, dst, links, n - 1);
        assert(links[n - 1] < FIELD_SCAN_INITIAL_DEPTH);
        lemma_points_told(p, src, dst, links[n - 1]);
    }
}

proof fn lemma_linked_of_src_told(
    p: PointerModel,
    src: usize,
    dsts: Seq<usize>,
    links: Seq<usize>,
    n: int,
)
    requires
        regular(p),
        src < FIELD_SCAN_INITIAL_DEPTH,
        in_fields(dsts),
        in_fields(links),
        n <= dsts.len(),
    ensures
        linked_layouts_of_src(p, src, dsts, links, n) is Some,
    decreases n,
{
    if n > 0 {
        lemma_linked_of_src_told(p, src, dsts, links, n - 1);
        assert(dsts[n - 1] < FIELD_SCAN_INITIAL_DEPTH);
        lemma_linked_told(p, src, dsts[n - 1], links, links.len() as int);
    }
}

proof fn lemma_all_linked_told(
    p: PointerModel,
    srcs: Seq<usize>,
    dsts: Seq<usize>,
    links: Seq<usize>,
    n: int,
)
    requires
        regular(p),
        in_fields(srcs),
        in_fields(dsts),
        in_fields(links),
        n <= srcs.len(),
    ensures
        all_linked_layouts(p, srcs, dsts, links, n) is Some,
    decreases n,
{
    if n > 0 {
        lemma_all_linked_told(p, srcs, dsts, links, n - 1);
        assert(srcs[n - 1] < FIELD_SCAN_INITIAL_DEPTH);
        lemma_linked_of_src_told(p, srcs[n - 1], dsts, links, dsts.len() as int);
    }
}

/// The indices satisfy what they were picked by.
proof fn lemma_indices_where(
    fields: Seq<FieldModel>,
    start: int,
    end: int,
    p: spec_fn(FieldModel) -> bool,
)
    requires
        0 <= start,
        end <= FIELD_SCAN_INITIAL_DEPTH,
    ensures
        forall|i: int|
            0 <= i < indices_where(fields, start, end, p).len() ==> {
                let k = #[trigger] indices_where(fields, start, end, p)[i];
                start <= k < end && p(fields[k as int])
            },
        in_fields(indices_where(fields, start, end, p)),
    decreases end - start,
{
    if start < end {
        lemma_indices_where(fields, start, end - 1, p);
    }
}

/// The layout is one that the descriptor behind the pointer may have.
pub open spec fn fits(p: PointerModel, layout: DescriptorLayoutCandidate) -> bool {
    let dst = layout.dst_ptr_index;
    &&& dst < p.to.len()
    &&& dst_field(p.to[dst as int])
    &&& dst < FIELD_SCAN_INITIAL_DEPTH
    &&& layout.link_ptr_index matches Some(link) ==> link < FIELD_SCAN_INITIAL_DEPTH
        && points_to_descriptor(p, layout.src_ptr_index, dst, link) == Some(true)
}

/// All layouts of the list fit.
pub open spec fn all_fit(p: PointerModel, layouts: Seq<DescriptorLayoutCandidate>) -> bool {
    forall|i: int| 0 <= i < layouts.len() ==> fits(p, #[trigger] layouts[i])
}

/// The indices are those of fields that may point to a buffer.
spec fn are_dsts(p: PointerModel, dsts: Seq<usize>) -> bool {
    forall|i: int|
        0 <= i < dsts.len() ==> {
            let k = #[trigger] dsts[i];
            k < p.to.len() && k < FIELD_SCAN_INITIAL_DEPTH && dst_field(p.to[k as int])
        }
}

proof fn lemma_linked_fit(p: PointerModel, src: usize, dst: usize, links: Seq<usize>, n: int)
    requires
        dst < p.to.len(),
        dst < FIELD_SCAN_INITIAL_DEPTH,
        dst_field(p.to[dst as int]),
        in_fields(links),
        n <= links.len(),
    ensures
        linked_layouts(p, src, dst, links, n) matches Some(layouts) ==> all_fit(p, layouts),
    decreases n,
{
    if n > 0 {
        lemma_linked_fit(p, src, dst, links, n - 1);
        assert(links[n - 1] < FIELD_SCAN_INITIAL_DEPTH);
    }
}

proof fn lemma_linked_of_src_fit(
    p: PointerModel,
    src: usize,
    dsts: Seq<usize>,
    links: Seq<usize>,
    n: int,
)
    requires
        are_dsts(p, dsts),
        in_fields(links),
        n <= dsts.len(),
    ensures
        linked_layouts_of_src(p, src, dsts, links, n) matches Some(layouts) ==> all_fit(
            p,
            layouts,
        ),
    decreases n,
{
    if n > 0 {
        lemma_linked_of_src_fit(p, src, dsts, links, n - 1);
        let dst = dsts[n - 1];
        lemma_linked_fit(p, src, dst, links, links.len() as int);
    }
}

proof fn lemma_all_linked_fit(
    p: PointerModel,
    srcs: Seq<usize>,
    dsts: Seq<usize>,
    links: Seq<usize>,
    n: int,
)
    requires
        are_dsts(p, dsts),
        in_fields(links),
        n <= srcs.len(),
    ensures
        all_linked_layouts(p, srcs, dsts, links, n) matches Some(layouts) ==> all_fit(p, layouts),
    decreases n,
{
    if n > 0 {
        lemma_all_linked_fit(p, srcs, dsts, links, n - 1);
        lemma_linked_of_src_fit(p, srcs[n - 1], dsts, links, dsts.len() as int);
    }
}

proof fn lemma_plain_of_src_fit(p: PointerModel, src: usize, dsts: Seq<usize>, n: int)
    requires
        are_dsts(p, dsts),
        n <= dsts.len(),
    ensures
        all_fit(p, plain_layouts_of_src(src, dsts, n)),
    decreases n,
{
    if n > 0 {
        lemma_plain_of_src_fit(p, src, dsts, n - 1);
        let dst = dsts[n - 1];
    }
}

proof fn lemma_all_plain_fit(p: PointerModel, srcs: Seq<usize>, dsts: Seq<usize>, n: int)
    requires
        are_dsts(p, dsts),
        n <= srcs.len(),
    ensures
        all_fit(p, all_plain_layouts(srcs, dsts, n)),
    decreases n,
{
    if n > 0 {
        lemma_all_plain_fit(p, srcs, dsts, n - 1);
        lemma_plain_of_src_fit(p, srcs[n - 1], dsts, dsts.len() as int);
    }
}

/// The layouts that the descriptor behind a regular pointer may have can be told, and each of them
/// fits.
pub proof fn lemma_possible_layouts(p: PointerModel, start: int)
    requires
        regular(p),
        0 <= start,
    ensures
        possible_layouts(p, start) matches Some(layouts) && all_fit(p, layouts),
{
    let end = window_end(p.to, start);
    let srcs = indices_where(p.to, start, end, src_fields());
    let dsts = indices_where(p.to, start, end, dst_fields());
    let links = indices_where(p.to, start, end, link_fields());
    lemma_indices_where(p.to, start, end, src_fields());
    lemma_indices_where(p.to, start, end, dst_fields());
    lemma_indices_where(p.to, start, end, link_fields());
    lemma_all_linked_told(p, srcs, dsts, links, srcs.len() as int);
    assert(are_dsts(p, dsts)) by {
        assert forall|i: int| 0 <= i < dsts.len() implies {
            let k = #[trigger] dsts[i];
            k < p.to.len() && k < FIELD_SCAN_INITIAL_DEPTH && dst_field(p.to[k as int])
        } by {
            let k = dsts[i];
            assert(dst_fields()(p.to[k as int]));
        }
    }
    lemma_all_linked_fit(p, srcs, dsts, links, srcs.len() as int);
    lemma_all_plain_fit(p, srcs, dsts, srcs.len() as int);
}

/// The entry of a regular pointer can be made.
proof fn lemma_buffer_entry_ok(p: PointerModel, index: int)
    requires
        regular(p),
        0 <= index < FIELD_SCAN_INITIAL_DEPTH,
    ensures
        buffer_entry_ok(p, index),
{
}

/// A descriptor behind a regular pointer can be described with a layout that fits, whichever
/// descriptors are known.
pub proof fn lemma_describable(
    p: PointerModel,
    layout: DescriptorLayoutCandidate,
    known: Set<RamAddress>,
)
    requires
        regular(p),
        fits(p, layout),
    ensures
        describable(p, layout, known),
    decreases p,
{
    let dst = layout.dst_ptr_index as int;
    assert(regular_field(p.to[dst]));
    lemma_buffer_entry_ok(p.to[dst]->pointer, dst);
    if let Some(link) = layout.link_ptr_index {
        if link < p.to.len() {
            assert(regular_field(p.to[link as int]));
            if let FieldModel::Pointer { pointer } = p.to[link as int] {
                if follows_link(p, layout, known) {
                    assert(points_to_descriptor(
                        pointer,
                        layout.src_ptr_index,
                        layout.dst_ptr_index,
                        link,
                    ) == Some(true));
                    assert(fits(pointer, layout));
                    lemma_describable(pointer, layout, known_at_link(p, known));
                }
            }
        }
    }
}

/// The layout that is chosen for a regular pointer fits.
proof fn lemma_layout_from(p: PointerModel, start: int)
    requires
        regular(p),
        0 <= start,
    ensures
        layout_from(p, start) is Some,
        layout_from(p, start)->0 matches Some(layout) ==> fits(p, layout),
{
    lemma_possible_layouts(p, start);
    let layouts = possible_layouts(p, start)->0;
    if layouts.len() > 0 {
        lemma_best_of(layouts);
        let i = choose|i: int| 0 <= i < layouts.len() && layouts[i] == best_of(layouts);
        assert(fits(p, layouts[i]));
    }
}

proof fn lemma_populated_from(fields: Seq<FieldModel>, i: int)
    requires
        0 <= i,
    ensures
        0 <= populated_from(fields, i),
    decreases fields.len() - i,
{
    if i < fields.len() {
        let end = if i + MIN_DESCRIPTOR_FIELDS <= fields.len() {
            i + MIN_DESCRIPTOR_FIELDS
        } else {
            fields.len() as int
        };
        lemma_populated_from(fields, end);
    }
}

/// Whether the entries of a table of regular pointers have a layout can be told.
proof fn lemma_laid_out(fields: Seq<FieldModel>, i: int, n: int)
    requires
        0 <= i,
        n <= fields.len(),
        forall|j: int|
            0 <= j < n ==> (#[trigger] fields[j]) is Pointer && regular_field(fields[j]),
    ensures
        laid_out_from(fields, i, n) matches Some(m) && (m <= n || m == i) && forall|j: int|
            i <= j < m ==> (entry_layout(#[trigger] fields[j]) matches Some(Some(layout)) && fits(
                fields[j]->pointer,
                layout,
            )),
    decreases n - i,
{
    if i < n {
        let p = fields[i]->pointer;
        assert(regular_field(fields[i]));
        lemma_possible_layouts(p, 0);
        let layouts = possible_layouts(p, 0)->0;
        if layouts.len() > 0 {
            lemma_best_of(layouts);
            let k = choose|k: int| 0 <= k < layouts.len() && layouts[k] == best_of(layouts);
            assert(fits(p, layouts[k]));
            lemma_laid_out(fields, i + 1, n);
        }
    }
}

/// The entries of a table of pointers are pointers.
proof fn lemma_table_len(fields: Seq<FieldModel>, i: int)
    requires
        0 <= i <= fields.len(),
        forall|j: int| 0 <= j < i ==> (#[trigger] fields[j]) is Pointer,
    ensures
        0 <= table_len_from(fields, i) <= fields.len(),
        forall|j: int| 0 <= j < table_len_from(fields, i) ==> (#[trigger] fields[j]) is Pointer,
    decreases fields.len() - i,
{
    if i < fields.len() && !(fields[i] is Zero) && table_entry(fields[i]) {
        lemma_table_len(fields, i + 1);
    }
}

/// The tables of pointers to descriptors behind a regular pointer can be told and described.
proof fn lemma_pointer_table(p: PointerModel)
    requires
        regular(p),
    ensures
        entry_layouts(p.to) is Some,
        forall|layouts: Map<usize, DescriptorLayoutCandidate>| #[trigger]
            is_pointer_table(p.to, layouts) ==> table_describable(p, layouts),
{
    let n = table_len_from(p.to, 0);
    lemma_table_len(p.to, 0);
    assert forall|j: int| 0 <= j < n implies (#[trigger] p.to[j]) is Pointer && regular_field(
        p.to[j],
    ) by {}
    lemma_laid_out(p.to, 0, n);
    let all = entry_layouts(p.to)->0;
    assert forall|layouts: Map<usize, DescriptorLayoutCandidate>| #[trigger]
        is_pointer_table(p.to, layouts) implies table_describable(p, layouts) by {
        let top = choose|top: DescriptorLayoutCandidate| #[trigger]
            is_top(all, top) && layouts == going_with(all, top);
        assert forall|i: usize| #[trigger] layouts.contains_key(i) implies {
            &&& i * POINTER_SIZE <= usize::MAX
            &&& i < p.to.len()
            &&& p.to[i as int] matches FieldModel::Pointer { pointer } && describable(
                pointer,
                layouts[i],
                Set::empty(),
            )
        } by {
            assert(all.contains_key(i));
            assert(entry_layout(p.to[i as int]) is Some);
            assert(regular_field(p.to[i as int]));
            lemma_describable(p.to[i as int]->pointer, layouts[i], Set::empty());
        }
    }
}

/// Regular guesses at what lies behind registers can be summarised.
pub proof fn lemma_not_malformed(types: Map<MmioAddress, PointerModel>)
    requires
        forall|r: MmioAddress| #[trigger] types.contains_key(r) ==> regular(types[r]),
    ensures
        !malformed(types),
{
    let linked = chosen_layouts(types, linked_choice());
    let tables = chosen_layouts(types, table_choice());
    assert forall|r: MmioAddress| #[trigger] types.contains_key(r) implies {
        &&& linked_choice()(types[r]) is Some
        &&& table_choice()(types[r]) is Some
        &&& linked.contains_key(r) ==> fits(types[r], linked[r])
        &&& tables.contains_key(r) ==> fits(types[r], tables[r])
        &&& entry_layouts(types[r].to) is Some
    } by {
        lemma_layout_from(types[r], 0);
        lemma_populated_from(types[r].to, 0);
        lemma_layout_from(types[r], populated_from(types[r].to, 0));
        lemma_pointer_table(types[r]);
    }
    lemma_layouts_describable(types, linked);
    lemma_layouts_describable(types, tables);
    assert forall|pointer_tables: Map<MmioAddress, Map<usize, DescriptorLayoutCandidate>>|
        #[trigger]
        are_pointer_tables(types, pointer_tables) implies all_tables_describable(
        types,
        pointer_tables,
    ) by {
        assert forall|r: MmioAddress| #[trigger]
            pointer_tables.contains_key(r) implies table_describable(
            types[r],
            pointer_tables[r],
        ) by {
            assert(types.contains_key(r));
            lemma_pointer_table(types[r]);
        }
    }
}

proof fn lemma_layouts_describable(
    types: Map<MmioAddress, PointerModel>,
    layouts: Map<MmioAddress, DescriptorLayoutCandidate>,
)
    requires
        forall|r: MmioAddress| #[trigger] types.contains_key(r) ==> regular(types[r]),
        forall|r: MmioAddress| #[trigger]
            layouts.contains_key(r) ==> types.contains_key(r) && fits(types[r], layouts[r]),
    ensures
        forall|order: Seq<MmioAddress>| #[trigger]
            enumerates(order, layouts.dom()) ==> all_describable(types, layouts, order),
{
    assert forall|order: Seq<MmioAddress>| #[trigger]
        enumerates(order, layouts.dom()) implies all_describable(types, layouts, order) by {
        assert forall|i: int| 0 <= i < order.len() implies describable(
            types[#[trigger] order[i]],
            layouts[order[i]],
            known_before(types, layouts, order, i),
        ) by {
            assert(order.to_set().contains(order[i]));
            assert(layouts.contains_key(order[i]));
            lemma_describable(
                types[order[i]],
                layouts[order[i]],
                known_before(types, layouts, order, i),
            );
        }
    }
}

/// Every guess of the snippet at what lies behind a register is regular.
pub open spec fn regular_types(snippet: SnippetModel) -> bool {
    forall|r: MmioAddress| #[trigger]
        snippet.guessed_type_by_mmio_addr.contains_key(r) ==> regular(
            snippet.guessed_type_by_mmio_addr[r],
        )
}

/// Regular guesses at what lies behind a register can be merged, and the merged guess is regular.
proof fn lemma_common_type_regular(snippets: Seq<SnippetModel>, r: MmioAddress)
    requires
        forall|i: int| 0 <= i < snippets.len() ==> regular_types(#[trigger] snippets[i]),
    ensures
        types_mergeable(snippets, r),
        common_type(snippets, r) matches Some(guess) ==> regular(guess),
    decreases snippets.len(),
{
    if snippets.len() > 0 {
        let rest = snippets.drop_last();
        assert forall|i: int| 0 <= i < rest.len() implies regular_types(#[trigger] rest[i]) by {
            assert(rest[i] == snippets[i]);
        }
        lemma_common_type_regular(rest, r);
        assert(regular_types(snippets[snippets.len() - 1]));
        let types = snippets.last().guessed_type_by_mmio_addr;
        if types.contains_key(r) {
            if let Some(before) = common_type(rest, r) {
                lemma_regular_merge(before, types[r]);
            }
        }
    }
}

/// Snippets with regular guesses, as every analysis of a trace makes them, can be summarised: their
/// guesses can be merged, and what comes out is not malformed.
pub proof fn lemma_regular_snippets(snippets: Seq<SnippetModel>)
    requires
        forall|i: int| 0 <= i < snippets.len() ==> regular_types(#[trigger] snippets[i]),
    ensures
        all_types_mergeable(snippets, without_types(snippets)),
        !malformed(merged_types(snippets)),
{
    assert forall|r: MmioAddress| #[trigger] types_mergeable(snippets, r) by {
        lemma_common_type_regular(snippets, r);
    }
    let types = merged_types(snippets);
    assert forall|r: MmioAddress| #[trigger] types.contains_key(r) implies regular(types[r]) by {
        lemma_common_type_regular(snippets, r);
    }
    lemma_not_malformed(types);
}

/// What is found out about a trace can be summarised, together with anything else that is found out
/// about traces.
pub proof fn lemma_found_snippet_regular(t: TraceModel, snippet: SnippetModel)
    requires
        t.wf(),
        analysable(t, memory_pointer_writes(t.map, mmio_writes(t.events))),
        finds(t, snippet),
    ensures
        regular_types(snippet),
{
    let writes = mmio_writes(t.events);
    let buffers = registers_by_buffer(memory_pointer_writes(t.map, writes));
    let (order, pair_order) = choose|order: Seq<MmioAddress>, pair_order: Seq<RamAddress>|
        #![trigger enumerates(order, writes.dom()), enumerates(pair_order, buffers.dom())]
        enumerates(order, writes.dom()) && enumerates(pair_order, buffers.dom()) && found_in(
            t,
            order,
            pair_order,
            snippet,
        );
    lemma_found_types_regular(t, order, pair_order, snippet);
}

} // verus!
