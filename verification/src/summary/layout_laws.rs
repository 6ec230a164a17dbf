//! Which layouts the descriptor behind a pointer may have.

use super::layout::{
    all_linked_layouts, all_plain_layouts, dst_fields, indices_where, link_fields, linked_layouts,
    linked_layouts_of_src, may_end_buffers, plain_layouts_of_src, points_to_descriptor,
    possible_layouts, src_fields, window_end, DescriptorLayoutCandidate,
};
use crate::dma_analysis::{FieldModel, PointerModel};
use vstd::prelude::*;

verus! {

/// The field leads to the data register of a device: to registers at times, and not both to a
/// misaligned register and to nothing.
pub open spec fn is_register_pointer(field: FieldModel) -> bool {
    field matches FieldModel::Pointer { pointer } && {
        &&& pointer.includes_mmio
        &&& !pointer.includes_misaligned_mmio || !pointer.includes_null
    }
}

/// The field leads to a buffer that a device fills: never to a register; to memory that is read
/// before it is written, or that is the end of a buffer each time; that is never written first, or
/// only with typical values; and that was uninitialised or held a pattern at times.
pub open spec fn is_buffer_pointer(field: FieldModel) -> bool {
    field matches FieldModel::Pointer { pointer } && {
        let ends = pointer.potential_pre_buf_sizes;
        &&& !pointer.includes_mmio
        &&& {
            ||| pointer.access_state_profile.has_read_before_write
            ||| forall|a: u32| #[trigger] ends.contains_key(a) ==> ends[a] > 0
        }
        &&& {
            ||| !pointer.access_state_profile.has_write_before_read
            ||| pointer.init_state_profile.all_writes_trivial
        }
        &&& {
            ||| pointer.init_state_profile.has_uninitialized
            ||| pointer.init_state_profile.has_pattern
        }
    }
}

/// The field leads to memory only.
pub open spec fn is_memory_pointer(field: FieldModel) -> bool {
    field matches FieldModel::Pointer { pointer } && !pointer.includes_mmio
}

/// The two indices are at most `n` apart.
pub open spec fn within_fields(a: usize, b: usize, n: int) -> bool {
    -n <= a - b <= n
}

/// The index is that of one of the eight fields from `start` on.
pub open spec fn in_window(p: PointerModel, start: int, i: usize) -> bool {
    start <= i < start + 8 && i < p.to.len()
}

proof fn lemma_indices(
    fields: Seq<FieldModel>,
    start: int,
    end: int,
    p: spec_fn(FieldModel) -> bool,
    i: usize,
)
    requires
        0 <= start,
        end <= usize::MAX,
    ensures
        indices_where(fields, start, end, p).contains(i) <==> start <= i < end && p(
            fields[i as int],
        ),
    decreases end - start,
{
    let all = indices_where(fields, start, end, p);
    if start < end {
        let before = indices_where(fields, start, end - 1, p);
        lemma_indices(fields, start, end - 1, p, i);
        if p(fields[end - 1]) {
            assert(all == before.push((end - 1) as usize));
            if before.contains(i) {
                let k = choose|k: int| 0 <= k < before.len() && before[k] == i;
                assert(all[k] == i);
            }
            if i == end - 1 {
                assert(all[before.len() as int] == i);
            }
            if all.contains(i) && i != end - 1 {
                let k = choose|k: int| 0 <= k < all.len() && all[k] == i;
                assert(before[k] == i);
            }
        }
    }
}

proof fn lemma_plain_of_src(
    src: usize,
    dsts: Seq<usize>,
    n: int,
    layout: DescriptorLayoutCandidate,
)
    requires
        0 <= n <= dsts.len(),
    ensures
        plain_layouts_of_src(src, dsts, n).contains(layout) <==> layout.src_ptr_index == src
            && layout.link_ptr_index is None && within_fields(src, layout.dst_ptr_index, 4)
            && dsts.take(n).contains(layout.dst_ptr_index),
    decreases n,
{
    let all = plain_layouts_of_src(src, dsts, n);
    if n > 0 {
        let before = plain_layouts_of_src(src, dsts, n - 1);
        lemma_plain_of_src(src, dsts, n - 1, layout);
        let dst = dsts[n - 1];
        lemma_take_contains(dsts, n, layout.dst_ptr_index);
        if within_fields(src, dst, 4) {
            let last = DescriptorLayoutCandidate {
                src_ptr_index: src,
                dst_ptr_index: dst,
                link_ptr_index: None,
            };
            assert(all == before.push(last));
            lemma_push_contains(before, last, layout);
        }
    } else {
        assert(!all.contains(layout));
    }
}

proof fn lemma_take_contains<T>(s: Seq<T>, n: int, x: T)
    requires
        0 < n <= s.len(),
    ensures
        s.take(n).contains(x) <==> s.take(n - 1).contains(x) || x == s[n - 1],
{
    assert(s.take(n) =~= s.take(n - 1).push(s[n - 1]));
    lemma_push_contains(s.take(n - 1), s[n - 1], x);
}

proof fn lemma_push_contains<T>(s: Seq<T>, last: T, x: T)
    ensures
        s.push(last).contains(x) <==> s.contains(x) || x == last,
{
    let all = s.push(last);
    if s.contains(x) {
        let k = choose|k: int| 0 <= k < s.len() && s[k] == x;
        assert(all[k] == x);
    }
    if x == last {
        assert(all[s.len() as int] == x);
    }
    if all.contains(x) && x != last {
        let k = choose|k: int| 0 <= k < all.len() && all[k] == x;
        assert(s[k] == x);
    }
}

proof fn lemma_sum_contains<T>(s: Seq<T>, t: Seq<T>, x: T)
    ensures
        (s + t).contains(x) <==> s.contains(x) || t.contains(x),
{
    let all = s + t;
    if s.contains(x) {
        let k = choose|k: int| 0 <= k < s.len() && s[k] == x;
        assert(all[k] == x);
    }
    if t.contains(x) {
        let k = choose|k: int| 0 <= k < t.len() && t[k] == x;
        assert(all[s.len() + k] == x);
    }
    if all.contains(x) {
        let k = choose|k: int| 0 <= k < all.len() && all[k] == x;
        if k < s.len() {
            assert(s[k] == x);
        } else {
            assert(t[k - s.len()] == x);
        }
    }
}

proof fn lemma_plain(
    srcs: Seq<usize>,
    dsts: Seq<usize>,
    n: int,
    layout: DescriptorLayoutCandidate,
)
    requires
        0 <= n <= srcs.len(),
    ensures
        all_plain_layouts(srcs, dsts, n).contains(layout) <==> layout.link_ptr_index is None
            && within_fields(layout.src_ptr_index, layout.dst_ptr_index, 4) && srcs.take(
            n,
        ).contains(layout.src_ptr_index) && dsts.contains(layout.dst_ptr_index),
    decreases n,
{
    if n > 0 {
        lemma_plain(srcs, dsts, n - 1, layout);
        lemma_plain_of_src(srcs[n - 1], dsts, dsts.len() as int, layout);
        assert(dsts.take(dsts.len() as int) =~= dsts);
        lemma_take_contains(srcs, n, layout.src_ptr_index);
        lemma_sum_contains(
            all_plain_layouts(srcs, dsts, n - 1),
            plain_layouts_of_src(srcs[n - 1], dsts, dsts.len() as int),
            layout,
        );
    }
}

/// The link lies at most seven fields from the source or from the destination, and is another field
/// than the destination.
pub open spec fn is_linked(src: usize, dst: usize, link: usize) -> bool {
    &&& link != dst
    &&& within_fields(link, src, 7) || within_fields(link, dst, 7)
}

/// A chain of descriptors goes on where the guesses end; or where there is a data register and a
/// buffer at the given fields, and the link is zero or leads on to such a chain in memory. It breaks
/// where this is not so.
pub proof fn lemma_chain(p: PointerModel, src: usize, dst: usize, link: usize)
    ensures
        p.to.len() == 0 ==> points_to_descriptor(p, src, dst, link) == Some(true),
        0 < p.to.len() && src < p.to.len() && dst < p.to.len() && link < p.to.len() ==> {
            let chain = points_to_descriptor(p, src, dst, link);
            &&& chain == Some(true) <==> {
                &&& is_register_pointer(p.to[src as int])
                &&& is_buffer_pointer(p.to[dst as int])
                &&& match p.to[link as int] {
                    FieldModel::Zero => true,
                    FieldModel::HighEntropy { .. } => false,
                    FieldModel::Pointer { pointer } => !pointer.includes_mmio
                        && points_to_descriptor(pointer, src, dst, link) == Some(true),
                }
            }
            &&& chain is None <==> {
                &&& is_register_pointer(p.to[src as int])
                &&& is_buffer_pointer(p.to[dst as int])
                &&& p.to[link as int] matches FieldModel::Pointer { pointer }
                    && !pointer.includes_mmio && points_to_descriptor(
                    pointer,
                    src,
                    dst,
                    link,
                ) is None
            }
        },
{
    if src < p.to.len() && dst < p.to.len() {
        lemma_fields(p.to[src as int]);
        lemma_fields(p.to[dst as int]);
    }
}

/// Which fields are accepted as the pointer to a data register, as the one to a buffer and as the link.
pub proof fn lemma_fields(field: FieldModel)
    ensures
        is_register_pointer(field) <==> src_fields()(field),
        is_buffer_pointer(field) <==> dst_fields()(field),
        is_memory_pointer(field) <==> link_fields()(field),
{
    if let FieldModel::Pointer { pointer } = field {
        let ends = pointer.potential_pre_buf_sizes;
        if forall|a: u32| #[trigger] ends.contains_key(a) ==> ends[a] > 0 {
            assert(may_end_buffers(ends));
        }
        if may_end_buffers(ends) {
            assert(forall|a: u32| #[trigger] ends.contains_key(a) ==> ends[a] > 0);
        }
    }
}

proof fn lemma_linked(
    p: PointerModel,
    src: usize,
    dst: usize,
    links: Seq<usize>,
    n: int,
    layout: DescriptorLayoutCandidate,
)
    requires
        0 <= n <= links.len(),
    ensures
        linked_layouts(p, src, dst, links, n) matches Some(all) ==> (all.contains(layout)
            <==> layout.src_ptr_index == src && layout.dst_ptr_index == dst && (
        layout.link_ptr_index matches Some(link) && is_linked(src, dst, link) && links.take(
            n,
        ).contains(link) && points_to_descriptor(p, src, dst, link) == Some(true))),
    decreases n,
{
    if n > 0 {
        lemma_linked(p, src, dst, links, n - 1, layout);
        if let (Some(before), Some(all)) = (
            linked_layouts(p, src, dst, links, n - 1),
            linked_layouts(p, src, dst, links, n),
        ) {
            let link = links[n - 1];
            if layout.link_ptr_index is Some {
                lemma_take_contains(links, n, layout.link_ptr_index->0);
            }
            if is_linked(src, dst, link) && points_to_descriptor(p, src, dst, link) == Some(true) {
                let last = DescriptorLayoutCandidate {
                    src_ptr_index: src,
                    dst_ptr_index: dst,
                    link_ptr_index: Some(link),
                };
                assert(all == before.push(last));
                lemma_push_contains(before, last, layout);
            }
        }
    } else {
        assert(!Seq::<DescriptorLayoutCandidate>::empty().contains(layout));
    }
}

proof fn lemma_linked_of_src(
    p: PointerModel,
    src: usize,
    dsts: Seq<usize>,
    links: Seq<usize>,
    n: int,
    layout: DescriptorLayoutCandidate,
)
    requires
        0 <= n <= dsts.len(),
    ensures
        linked_layouts_of_src(p, src, dsts, links, n) matches Some(all) ==> (all.contains(layout)
            <==> layout.src_ptr_index == src && dsts.take(n).contains(layout.dst_ptr_index)
            && within_fields(src, layout.dst_ptr_index, 4) && (layout.link_ptr_index matches Some(
            link,
        ) && is_linked(src, layout.dst_ptr_index, link) && links.contains(link)
            && points_to_descriptor(p, src, layout.dst_ptr_index, link) == Some(true))),
    decreases n,
{
    if n > 0 {
        lemma_linked_of_src(p, src, dsts, links, n - 1, layout);
        lemma_linked(p, src, dsts[n - 1], links, links.len() as int, layout);
        assert(links.take(links.len() as int) =~= links);
        lemma_take_contains(dsts, n, layout.dst_ptr_index);
        if let (Some(before), Some(more)) = (
            linked_layouts_of_src(p, src, dsts, links, n - 1),
            linked_layouts(p, src, dsts[n - 1], links, links.len() as int),
        ) {
            lemma_sum_contains(before, more, layout);
        }
    } else {
        assert(!Seq::<DescriptorLayoutCandidate>::empty().contains(layout));
    }
}

proof fn lemma_all_linked(
    p: PointerModel,
    srcs: Seq<usize>,
    dsts: Seq<usize>,
    links: Seq<usize>,
    n: int,
    layout: DescriptorLayoutCandidate,
)
    requires
        0 <= n <= srcs.len(),
    ensures
        all_linked_layouts(p, srcs, dsts, links, n) matches Some(all) ==> (all.contains(layout)
            <==> srcs.take(n).contains(layout.src_ptr_index) && dsts.contains(layout.dst_ptr_index)
            && within_fields(layout.src_ptr_index, layout.dst_ptr_index, 4) && (
        layout.link_ptr_index matches Some(link) && is_linked(
            layout.src_ptr_index,
            layout.dst_ptr_index,
            link,
        ) && links.contains(link) && points_to_descriptor(
            p,
            layout.src_ptr_index,
            layout.dst_ptr_index,
            link,
        ) == Some(true))),
    decreases n,
{
    if n > 0 {
        lemma_all_linked(p, srcs, dsts, links, n - 1, layout);
        lemma_linked_of_src(p, srcs[n - 1], dsts, links, dsts.len() as int, layout);
        assert(dsts.take(dsts.len() as int) =~= dsts);
        lemma_take_contains(srcs, n, layout.src_ptr_index);
        if let (Some(before), Some(more)) = (
            all_linked_layouts(p, srcs, dsts, links, n - 1),
            linked_layouts_of_src(p, srcs[n - 1], dsts, links, dsts.len() as int),
        ) {
            lemma_sum_contains(before, more, layout);
        }
    } else {
        assert(!Seq::<DescriptorLayoutCandidate>::empty().contains(layout));
    }
}

/// The layouts of a descriptor are exactly those with a pointer to a data register and one to a
/// buffer among its eight fields, at most four fields apart, without a link, and those with a link
/// as well, that leads to memory and along a chain of such descriptors.
pub proof fn lemma_layouts_exactly(
    p: PointerModel,
    start: int,
    layout: DescriptorLayoutCandidate,
)
    requires
        0 <= start,
        p.to.len() <= usize::MAX,
    ensures
        possible_layouts(p, start) matches Some(layouts) ==> (layouts.contains(layout) <==> {
            let src = layout.src_ptr_index;
            let dst = layout.dst_ptr_index;
            &&& in_window(p, start, src) && is_register_pointer(p.to[src as int])
            &&& in_window(p, start, dst) && is_buffer_pointer(p.to[dst as int])
            &&& within_fields(src, dst, 4)
            &&& match layout.link_ptr_index {
                Some(link) => {
                    &&& in_window(p, start, link) && is_memory_pointer(p.to[link as int])
                    &&& is_linked(src, dst, link)
                    &&& points_to_descriptor(p, src, dst, link) == Some(true)
                },
                None => true,
            }
        }),
{
    let src = layout.src_ptr_index;
    let dst = layout.dst_ptr_index;
    let end = window_end(p.to, start);
    let srcs = indices_where(p.to, start, end, src_fields());
    let dsts = indices_where(p.to, start, end, dst_fields());
    let links = indices_where(p.to, start, end, link_fields());
    lemma_indices(p.to, start, end, src_fields(), src);
    lemma_indices(p.to, start, end, dst_fields(), dst);
    lemma_fields(p.to[src as int]);
    lemma_fields(p.to[dst as int]);
    if let Some(link) = layout.link_ptr_index {
        lemma_indices(p.to, start, end, link_fields(), link);
        lemma_fields(p.to[link as int]);
    }
    assert(srcs.take(srcs.len() as int) =~= srcs);
    lemma_all_linked(p, srcs, dsts, links, srcs.len() as int, layout);
    lemma_plain(srcs, dsts, srcs.len() as int, layout);
    if let Some(linked) = all_linked_layouts(p, srcs, dsts, links, srcs.len() as int) {
        lemma_sum_contains(linked, all_plain_layouts(srcs, dsts, srcs.len() as int), layout);
    }
}

/// A field whose pointer leads to memory only, whose buffer is read before it is written and never
/// the other way round, and whose buffer was uninitialised or held a pattern, is accepted as a
/// destination: with a pointer to a register at most four fields away there is a layout of the two.
pub proof fn lemma_plain_layout_found(p: PointerModel, start: int, src: usize, dst: usize)
    requires
        0 <= start,
        p.to.len() <= usize::MAX,
        possible_layouts(p, start) is Some,
        start <= src < start + 8 && src < p.to.len(),
        start <= dst < start + 8 && dst < p.to.len(),
        -4 <= src - dst <= 4,
        p.to[src as int] matches FieldModel::Pointer { pointer } && pointer.includes_mmio
            && !pointer.includes_misaligned_mmio,
        p.to[dst as int] matches FieldModel::Pointer { pointer } && !pointer.includes_mmio
            && pointer.access_state_profile.has_read_before_write
            && !pointer.access_state_profile.has_write_before_read && (
        pointer.init_state_profile.has_pattern || pointer.init_state_profile.has_uninitialized),
    ensures
        possible_layouts(p, start)->0.contains(
            DescriptorLayoutCandidate {
                src_ptr_index: src,
                dst_ptr_index: dst,
                link_ptr_index: None,
            },
        ),
{
    let layout = DescriptorLayoutCandidate {
        src_ptr_index: src,
        dst_ptr_index: dst,
        link_ptr_index: None,
    };
    lemma_layouts_exactly(p, start, layout);
}

} // verus!
