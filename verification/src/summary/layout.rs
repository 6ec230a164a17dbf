//! Where the pointers of a descriptor lie in it.

use crate::dma_analysis::merge::{
    field_views, FieldModel, FieldTypeGuess, PointerModel, PointerType,
};
use crate::tables::{enumerates, map_get, map_keys};
use vstd::prelude::*;

verus! {

broadcast use vstd::std_specs::hash::group_hash_axioms;

/// The greatest distance between the fields of the source and of the destination.
pub const MAX_SRC_DST_FIELD_OFFSET: usize = 4;

/// The greatest distance between the field of the link and the nearer one of the other two.
pub const MAX_LINK_TO_SRC_DST_FIELD_OFFSET: usize = 7;

/// The least number of fields of a descriptor.
pub const MIN_DESCRIPTOR_FIELDS: usize = 4;

/// The greatest number of fields of a descriptor.
pub const MAX_DESCRIPTOR_FIELDS: usize = 8;

/// No size of a buffer that may end at the pointer is zero.
pub open spec fn may_end_buffers(pre_sizes: Map<u32, u64>) -> bool {
    forall|a: u32| #[trigger] pre_sizes.contains_key(a) ==> pre_sizes[a] != 0
}

/// The pointer may be one to a buffer that a device writes to: it is read before it is written, or
/// may be one to the end of a buffer; what is written to it is trivial; and it is not always used.
pub open spec fn may_be_dst(p: PointerModel) -> bool {
    &&& !p.includes_mmio
    &&& p.access_state_profile.has_read_before_write || may_end_buffers(p.potential_pre_buf_sizes)
    &&& !p.access_state_profile.has_write_before_read || p.init_state_profile.all_writes_trivial
    &&& p.init_state_profile.has_uninitialized || p.init_state_profile.has_pattern
}

/// The pointer may be one to the data register of a device.
pub open spec fn may_be_src(p: PointerModel) -> bool {
    p.includes_mmio && !(p.includes_misaligned_mmio && p.includes_null)
}

/// The pointer may be one to the next descriptor.
pub open spec fn may_be_link(p: PointerModel) -> bool {
    !p.includes_mmio
}

/// The field holds a pointer that may be one to a buffer.
pub open spec fn dst_field(field: FieldModel) -> bool {
    field matches FieldModel::Pointer { pointer } && may_be_dst(pointer)
}

/// The field holds a pointer that may be one to a data register.
pub open spec fn src_field(field: FieldModel) -> bool {
    field matches FieldModel::Pointer { pointer } && may_be_src(pointer)
}

/// The field holds a pointer that may be one to the next descriptor.
pub open spec fn link_field(field: FieldModel) -> bool {
    field matches FieldModel::Pointer { pointer } && may_be_link(pointer)
}

/// Whether the pointer is one to a descriptor with its pointers at the given fields, and so are all
/// links from there on. Where the guesses end, it is taken to be. None where there are some fields,
/// but not the given ones.
pub open spec fn points_to_descriptor(
    p: PointerModel,
    src: usize,
    dst: usize,
    link: usize,
) -> Option<bool>
    decreases p,
{
    if p.to.len() == 0 {
        Some(true)
    } else if src >= p.to.len() || dst >= p.to.len() || link >= p.to.len() {
        None
    } else if !src_field(p.to[src as int]) || !dst_field(p.to[dst as int]) {
        Some(false)
    } else {
        match p.to[link as int] {
            FieldModel::Zero => Some(true),
            FieldModel::HighEntropy { .. } => Some(false),
            FieldModel::Pointer { pointer } => if may_be_link(pointer) {
                points_to_descriptor(pointer, src, dst, link)
            } else {
                Some(false)
            },
        }
    }
}

/// Where the pointers of a descriptor lie in it.
#[derive(Debug, Clone, Copy, PartialEq, Eq, Structural)]
pub struct DescriptorLayoutCandidate {
    pub src_ptr_index: usize,
    pub dst_ptr_index: usize,
    pub link_ptr_index: Option<usize>,
}

impl Default for DescriptorLayoutCandidate {
    fn default() -> (res: Self)
        ensures
            res == (DescriptorLayoutCandidate {
                src_ptr_index: 0,
                dst_ptr_index: 0,
                link_ptr_index: None,
            }),
    {
        DescriptorLayoutCandidate { src_ptr_index: 0, dst_ptr_index: 0, link_ptr_index: None }
    }
}

/// The distance of two indices.
pub open spec fn distance(a: usize, b: usize) -> int {
    if a >= b {
        a - b
    } else {
        b - a
    }
}

/// The smaller one of two numbers.
pub open spec fn lesser(a: int, b: int) -> int {
    if a <= b {
        a
    } else {
        b
    }
}

/// The greater one of two numbers.
pub open spec fn greater(a: int, b: int) -> int {
    if a >= b {
        a
    } else {
        b
    }
}

/// The source and the destination lie close to each other.
pub open spec fn near(src: usize, dst: usize) -> bool {
    distance(src, dst) <= MAX_SRC_DST_FIELD_OFFSET
}

/// The link is another field than the destination, and lies close to it or to the source.
pub open spec fn link_near(src: usize, dst: usize, link: usize) -> bool {
    &&& link != dst
    &&& lesser(distance(link, src), distance(link, dst)) <= MAX_LINK_TO_SRC_DST_FIELD_OFFSET
}

/// The end of the fields that are looked at from `start` on.
pub open spec fn window_end(fields: Seq<FieldModel>, start: int) -> int {
    lesser(start + MAX_DESCRIPTOR_FIELDS, fields.len() as int)
}

/// The indices from `start` on, before `end`, whose fields satisfy `p`, in ascending order.
pub open spec fn indices_where(
    fields: Seq<FieldModel>,
    start: int,
    end: int,
    p: spec_fn(FieldModel) -> bool,
) -> Seq<usize>
    decreases end - start,
{
    if start >= end {
        Seq::empty()
    } else {
        let before = indices_where(fields, start, end - 1, p);
        if p(fields[end - 1]) {
            before.push((end - 1) as usize)
        } else {
            before
        }
    }
}

/// Fields that may hold a pointer to a data register.
pub open spec fn src_fields() -> spec_fn(FieldModel) -> bool {
    |field: FieldModel| src_field(field)
}

/// Fields that may hold a pointer to a buffer.
pub open spec fn dst_fields() -> spec_fn(FieldModel) -> bool {
    |field: FieldModel| dst_field(field)
}

/// Fields that may hold a pointer to the next descriptor.
pub open spec fn link_fields() -> spec_fn(FieldModel) -> bool {
    |field: FieldModel| link_field(field)
}

/// The layouts with the given source and destination and one of the first `n` links. None where
/// some type has fields, but not those of the layout.
pub open spec fn linked_layouts(
    p: PointerModel,
    src: usize,
    dst: usize,
    links: Seq<usize>,
    n: int,
) -> Option<Seq<DescriptorLayoutCandidate>>
    decreases n,
{
    if n <= 0 {
        Some(Seq::empty())
    } else {
        match linked_layouts(p, src, dst, links, n - 1) {
            Some(before) => {
                let link = links[n - 1];
                if !link_near(src, dst, link) {
                    Some(before)
                } else {
                    match points_to_descriptor(p, src, dst, link) {
                        Some(true) => Some(
                            before.push(
                                DescriptorLayoutCandidate {
                                    src_ptr_index: src,
                                    dst_ptr_index: dst,
                                    link_ptr_index: Some(link),
                                },
                            ),
                        ),
                        Some(false) => Some(before),
                        None => None,
                    }
                }
            },
            None => None,
        }
    }
}

/// The layouts with the given source, one of the first `n` destinations, and a link.
pub open spec fn linked_layouts_of_src(
    p: PointerModel,
    src: usize,
    dsts: Seq<usize>,
    links: Seq<usize>,
    n: int,
) -> Option<Seq<DescriptorLayoutCandidate>>
    decreases n,
{
    if n <= 0 {
        Some(Seq::empty())
    } else {
        match linked_layouts_of_src(p, src, dsts, links, n - 1) {
            Some(before) => if near(src, dsts[n - 1]) {
                match linked_layouts(p, src, dsts[n - 1], links, links.len() as int) {
                    Some(layouts) => Some(before + layouts),
                    None => None,
                }
            } else {
                Some(before)
            },
            None => None,
        }
    }
}

/// The layouts with one of the first `n` sources, a destination, and a link.
pub open spec fn all_linked_layouts(
    p: PointerModel,
    srcs: Seq<usize>,
    dsts: Seq<usize>,
    links: Seq<usize>,
    n: int,
) -> Option<Seq<DescriptorLayoutCandidate>>
    decreases n,
{
    if n <= 0 {
        Some(Seq::empty())
    } else {
        match (
            all_linked_layouts(p, srcs, dsts, links, n - 1),
            linked_layouts_of_src(p, srcs[n - 1], dsts, links, dsts.len() as int),
        ) {
            (Some(before), Some(layouts)) => Some(before + layouts),
            _ => None,
        }
    }
}

/// The layouts with the given source, one of the first `n` destinations, and no link.
pub open spec fn plain_layouts_of_src(src: usize, dsts: Seq<usize>, n: int) -> Seq<
    DescriptorLayoutCandidate,
>
    decreases n,
{
    if n <= 0 {
        Seq::empty()
    } else {
        let before = plain_layouts_of_src(src, dsts, n - 1);
        if near(src, dsts[n - 1]) {
            before.push(
                DescriptorLayoutCandidate {
                    src_ptr_index: src,
                    dst_ptr_index: dsts[n - 1],
                    link_ptr_index: None,
                },
            )
        } else {
            before
        }
    }
}

/// The layouts with one of the first `n` sources, a destination, and no link.
pub open spec fn all_plain_layouts(srcs: Seq<usize>, dsts: Seq<usize>, n: int) -> Seq<
    DescriptorLayoutCandidate,
>
    decreases n,
{
    if n <= 0 {
        Seq::empty()
    } else {
        all_plain_layouts(srcs, dsts, n - 1) + plain_layouts_of_src(
            srcs[n - 1],
            dsts,
            dsts.len() as int,
        )
    }
}

/// The layouts that the descriptor behind a pointer may have, if it starts at the field `start`:
/// first those with a link. None where some type has fields, but not those of the layout.
pub open spec fn possible_layouts(p: PointerModel, start: int) -> Option<
    Seq<DescriptorLayoutCandidate>,
> {
    let end = window_end(p.to, start);
    let srcs = indices_where(p.to, start, end, src_fields());
    let dsts = indices_where(p.to, start, end, dst_fields());
    let links = indices_where(p.to, start, end, link_fields());
    match all_linked_layouts(p, srcs, dsts, links, srcs.len() as int) {
        Some(linked) => Some(linked + all_plain_layouts(srcs, dsts, srcs.len() as int)),
        None => None,
    }
}

/// Whether no size of a buffer that may end at the pointer is zero.
fn is_potential_end_of_buf_ptr(pointer: &PointerType) -> (res: bool)
    ensures
        res == may_end_buffers(pointer@.potential_pre_buf_sizes),
{
    let sizes = &pointer.potential_pre_buf_sizes;
    let keys = map_keys(sizes);
    let mut i: usize = 0;
    while i < keys.len()
        invariant
            sizes@ == pointer@.potential_pre_buf_sizes,
            enumerates(keys@, sizes@.dom()),
            i <= keys@.len(),
            forall|j: int| 0 <= j < i ==> sizes@[#[trigger] keys@[j]] != 0,
        decreases keys.len() - i,
    {
        assert(keys@.to_set().contains(keys@[i as int]));
        if *map_get(sizes, &keys[i]).unwrap() == 0 {
            assert(sizes@.contains_key(keys@[i as int]));
            return false;
        }
        i += 1;
    }
    assert forall|a: u32| #[trigger] sizes@.contains_key(a) implies sizes@[a] != 0 by {
        assert(keys@.to_set().contains(a));
        let j = choose|j: int| 0 <= j < keys@.len() && keys@[j] == a;
        assert(sizes@[keys@[j]] != 0);
    }
    true
}

/// Whether the pointer may be one to a buffer that a device writes to.
fn is_dst_ptr_candidate(pointer: &PointerType) -> (res: bool)
    ensures
        res == may_be_dst(pointer@),
{
    if pointer.includes_mmio {
        return false;
    }
    let access = pointer.access_state_profile;
    let init = pointer.init_state_profile;
    (access.has_read_before_write || is_potential_end_of_buf_ptr(pointer)) && (
    !access.has_write_before_read || init.all_writes_trivial) && (init.has_uninitialized
        || init.has_pattern)
}

/// Whether the pointer may be one to the data register of a device.
fn is_src_ptr_candidate(pointer: &PointerType) -> (res: bool)
    ensures
        res == may_be_src(pointer@),
{
    pointer.includes_mmio && !(pointer.includes_misaligned_mmio && pointer.includes_null)
}

/// Whether the pointer may be one to the next descriptor.
fn is_link_ptr_candidate(pointer: &PointerType) -> (res: bool)
    ensures
        res == may_be_link(pointer@),
{
    !pointer.includes_mmio
}

/// Whether the pointer is one to a descriptor with its pointers at the given fields.
fn is_pointing_to_candidate(
    pointer: &PointerType,
    src_ptr_index: usize,
    dst_ptr_index: usize,
    link_ptr_index: usize,
) -> (res: Option<bool>)
    ensures
        res == points_to_descriptor(pointer@, src_ptr_index, dst_ptr_index, link_ptr_index),
    decreases pointer,
{
    let fields = &pointer.to;
    if fields.len() == 0 {
        return Some(true);
    }
    if src_ptr_index >= fields.len() || dst_ptr_index >= fields.len() || link_ptr_index
        >= fields.len() {
        return None;
    }
    proof {
        let views = pointer@.to;
        assert(views == field_views(fields@));
        assert(views[src_ptr_index as int] == fields@[src_ptr_index as int]@);
        assert(views[dst_ptr_index as int] == fields@[dst_ptr_index as int]@);
        assert(views[link_ptr_index as int] == fields@[link_ptr_index as int]@);
    }
    match &fields[src_ptr_index] {
        FieldTypeGuess::Pointer { pointer: src } => {
            if !is_src_ptr_candidate(src) {
                return Some(false);
            }
        },
        _ => {
            return Some(false);
        },
    }
    match &fields[dst_ptr_index] {
        FieldTypeGuess::Pointer { pointer: dst } => {
            if !is_dst_ptr_candidate(dst) {
                return Some(false);
            }
        },
        _ => {
            return Some(false);
        },
    }
    match &fields[link_ptr_index] {
        FieldTypeGuess::Zero => Some(true),
        FieldTypeGuess::HighEntropy { .. } => Some(false),
        FieldTypeGuess::Pointer { pointer: link } => {
            if is_link_ptr_candidate(link) {
                is_pointing_to_candidate(link, src_ptr_index, dst_ptr_index, link_ptr_index)
            } else {
                Some(false)
            }
        },
    }
}

/// The distance of two indices.
fn abs_diff(a: usize, b: usize) -> (res: usize)
    ensures
        res == distance(a, b),
{
    if a >= b {
        a - b
    } else {
        b - a
    }
}

/// The contents of layouts that may be absent.
pub open spec fn layouts_of(res: Option<Vec<DescriptorLayoutCandidate>>) -> Option<
    Seq<DescriptorLayoutCandidate>,
> {
    match res {
        Some(layouts) => Some(layouts@),
        None => None,
    }
}

/// Finds the layouts with the given source and destination and a link.
fn find_linked_layouts(
    pointer: &PointerType,
    src: usize,
    dst: usize,
    links: &Vec<usize>,
) -> (res: Option<Vec<DescriptorLayoutCandidate>>)
    ensures
        layouts_of(res) == linked_layouts(pointer@, src, dst, links@, links@.len() as int),
{
    let mut res: Vec<DescriptorLayoutCandidate> = Vec::new();
    let mut i: usize = 0;
    while i < links.len()
        invariant
            i <= links@.len(),
            linked_layouts(pointer@, src, dst, links@, i as int) == Some(res@),
        decreases links.len() - i,
    {
        let link = links[i];
        let to_src = abs_diff(link, src);
        let to_dst = abs_diff(link, dst);
        let nearest = if to_src <= to_dst {
            to_src
        } else {
            to_dst
        };
        if link != dst && nearest <= MAX_LINK_TO_SRC_DST_FIELD_OFFSET {
            match is_pointing_to_candidate(pointer, src, dst, link) {
                Some(true) => {
                    res.push(
                        DescriptorLayoutCandidate {
                            src_ptr_index: src,
                            dst_ptr_index: dst,
                            link_ptr_index: Some(link),
                        },
                    );
                },
                Some(false) => {},
                None => {
                    proof {
                        lemma_linked_layouts_fail(
                            pointer@,
                            src,
                            dst,
                            links@,
                            i + 1,
                            links@.len() as int,
                        );
                    }
                    return None;
                },
            }
        }
        i += 1;
    }
    Some(res)
}

/// A failure at some link is one of the whole.
proof fn lemma_linked_layouts_fail(
    p: PointerModel,
    src: usize,
    dst: usize,
    links: Seq<usize>,
    i: int,
    n: int,
)
    requires
        i <= n,
        linked_layouts(p, src, dst, links, i) is None,
    ensures
        linked_layouts(p, src, dst, links, n) is None,
    decreases n,
{
    if i < n {
        lemma_linked_layouts_fail(p, src, dst, links, i, n - 1);
    }
}

/// Finds the layouts with the given source, a destination, and a link.
fn find_linked_layouts_of_src(
    pointer: &PointerType,
    src: usize,
    dsts: &Vec<usize>,
    links: &Vec<usize>,
) -> (res: Option<Vec<DescriptorLayoutCandidate>>)
    ensures
        layouts_of(res) == linked_layouts_of_src(
            pointer@,
            src,
            dsts@,
            links@,
            dsts@.len() as int,
        ),
{
    let mut res: Vec<DescriptorLayoutCandidate> = Vec::new();
    let mut i: usize = 0;
    while i < dsts.len()
        invariant
            i <= dsts@.len(),
            linked_layouts_of_src(pointer@, src, dsts@, links@, i as int) == Some(res@),
        decreases dsts.len() - i,
    {
        let dst = dsts[i];
        if abs_diff(src, dst) <= MAX_SRC_DST_FIELD_OFFSET {
            match find_linked_layouts(pointer, src, dst, links) {
                Some(mut layouts) => {
                    res.append(&mut layouts);
                },
                None => {
                    proof {
                        lemma_linked_of_src_fail(
                            pointer@,
                            src,
                            dsts@,
                            links@,
                            i + 1,
                            dsts@.len() as int,
                        );
                    }
                    return None;
                },
            }
        }
        i += 1;
    }
    Some(res)
}

/// A failure at some destination is one of the whole.
proof fn lemma_linked_of_src_fail(
    p: PointerModel,
    src: usize,
    dsts: Seq<usize>,
    links: Seq<usize>,
    i: int,
    n: int,
)
    requires
        i <= n,
        linked_layouts_of_src(p, src, dsts, links, i) is None,
    ensures
        linked_layouts_of_src(p, src, dsts, links, n) is None,
    decreases n,
{
    if i < n {
        lemma_linked_of_src_fail(p, src, dsts, links, i, n - 1);
    }
}

/// A failure at some source is one of the whole.
proof fn lemma_all_linked_fail(
    p: PointerModel,
    srcs: Seq<usize>,
    dsts: Seq<usize>,
    links: Seq<usize>,
    i: int,
    n: int,
)
    requires
        i <= n,
        all_linked_layouts(p, srcs, dsts, links, i) is None,
    ensures
        all_linked_layouts(p, srcs, dsts, links, n) is None,
    decreases n,
{
    if i < n {
        lemma_all_linked_fail(p, srcs, dsts, links, i, n - 1);
    }
}

/// Finds the layouts with a source, a destination, and a link.
fn find_all_linked_layouts(
    pointer: &PointerType,
    srcs: &Vec<usize>,
    dsts: &Vec<usize>,
    links: &Vec<usize>,
) -> (res: Option<Vec<DescriptorLayoutCandidate>>)
    ensures
        layouts_of(res) == all_linked_layouts(
            pointer@,
            srcs@,
            dsts@,
            links@,
            srcs@.len() as int,
        ),
{
    let mut res: Vec<DescriptorLayoutCandidate> = Vec::new();
    let mut i: usize = 0;
    while i < srcs.len()
        invariant
            i <= srcs@.len(),
            all_linked_layouts(pointer@, srcs@, dsts@, links@, i as int) == Some(res@),
        decreases srcs.len() - i,
    {
        match find_linked_layouts_of_src(pointer, srcs[i], dsts, links) {
            Some(mut layouts) => {
                res.append(&mut layouts);
            },
            None => {
                proof {
                    lemma_all_linked_fail(
                        pointer@,
                        srcs@,
                        dsts@,
                        links@,
                        i + 1,
                        srcs@.len() as int,
                    );
                }
                return None;
            },
        }
        i += 1;
    }
    Some(res)
}

/// Adds the layouts with a source, a destination, and no link.
fn add_plain_layouts(
    srcs: &Vec<usize>,
    dsts: &Vec<usize>,
    layouts: &mut Vec<DescriptorLayoutCandidate>,
)
    ensures
        final(layouts)@ == old(layouts)@ + all_plain_layouts(srcs@, dsts@, srcs@.len() as int),
{
    let ghost first = layouts@;
    let mut i: usize = 0;
    assert(layouts@ =~= first + all_plain_layouts(srcs@, dsts@, 0));
    while i < srcs.len()
        invariant
            i <= srcs@.len(),
            layouts@ == first + all_plain_layouts(srcs@, dsts@, i as int),
        decreases srcs.len() - i,
    {
        let src = srcs[i];
        let ghost before = first + all_plain_layouts(srcs@, dsts@, i as int);
        let mut j: usize = 0;
        assert(layouts@ =~= before + plain_layouts_of_src(src, dsts@, 0));
        while j < dsts.len()
            invariant
                j <= dsts@.len(),
                layouts@ == before + plain_layouts_of_src(src, dsts@, j as int),
            decreases dsts.len() - j,
        {
            let dst = dsts[j];
            if abs_diff(src, dst) <= MAX_SRC_DST_FIELD_OFFSET {
                layouts.push(
                    DescriptorLayoutCandidate {
                        src_ptr_index: src,
                        dst_ptr_index: dst,
                        link_ptr_index: None,
                    },
                );
            }
            assert(layouts@ =~= before + plain_layouts_of_src(src, dsts@, j + 1));
            j += 1;
        }
        assert(layouts@ =~= first + all_plain_layouts(srcs@, dsts@, i + 1));
        i += 1;
    }
}

impl DescriptorLayoutCandidate {
    /// Finds the layouts that the descriptor behind a pointer may have, if it starts at the field
    /// `start_offset`.
    pub fn synthesize_from(pointer: &PointerType, start_offset: usize) -> (res: Option<Vec<Self>>)
        ensures
            layouts_of(res) == possible_layouts(pointer@, start_offset as int),
    {
        let ghost views = pointer@.to;
        let ghost start = start_offset as int;
        let ghost end = window_end(views, start);
        let mut mmio_ptr_indices: Vec<usize> = Vec::new();
        let mut dst_ptr_indices: Vec<usize> = Vec::new();
        let mut link_ptr_indices: Vec<usize> = Vec::new();
        let fields = &pointer.to;
        let mut i: usize = start_offset;
        while i < fields.len() && i - start_offset < MAX_DESCRIPTOR_FIELDS
            invariant
                fields == &pointer.to,
                views == pointer@.to,
                views == field_views(fields@),
                start == start_offset,
                end == window_end(views, start),
                start <= i,
                i <= end || i == start,
                mmio_ptr_indices@ == indices_where(views, start, i as int, src_fields()),
                dst_ptr_indices@ == indices_where(views, start, i as int, dst_fields()),
                link_ptr_indices@ == indices_where(views, start, i as int, link_fields()),
            decreases fields.len() - i,
        {
            assert(views[i as int] == fields@[i as int]@);
            if let FieldTypeGuess::Pointer { pointer: target } = &fields[i] {
                if is_link_ptr_candidate(target) {
                    link_ptr_indices.push(i);
                }
                if is_dst_ptr_candidate(target) {
                    dst_ptr_indices.push(i);
                }
                if is_src_ptr_candidate(target) {
                    mmio_ptr_indices.push(i);
                }
            }
            i += 1;
        }
        proof {
            if i == start && start > end {
                assert(mmio_ptr_indices@ =~= indices_where(views, start, end, src_fields()));
                assert(dst_ptr_indices@ =~= indices_where(views, start, end, dst_fields()));
                assert(link_ptr_indices@ =~= indices_where(views, start, end, link_fields()));
            } else {
                assert(i == end);
            }
        }
        match find_all_linked_layouts(
            pointer,
            &mmio_ptr_indices,
            &dst_ptr_indices,
            &link_ptr_indices,
        ) {
            Some(mut layouts) => {
                add_plain_layouts(&mmio_ptr_indices, &dst_ptr_indices, &mut layouts);
                Some(layouts)
            },
            None => None,
        }
    }

    /// The first one of the source and the destination.
    pub open spec fn first_index(self) -> int {
        lesser(self.dst_ptr_index as int, self.src_ptr_index as int)
    }

    /// The distance of the source and the destination.
    pub open spec fn spread(self) -> int {
        distance(self.dst_ptr_index, self.src_ptr_index)
    }

    /// The first one of the source and the destination.
    pub fn min_ind(&self) -> (res: usize)
        ensures
            res == self.first_index(),
    {
        if self.dst_ptr_index <= self.src_ptr_index {
            self.dst_ptr_index
        } else {
            self.src_ptr_index
        }
    }

    /// The distance of the source and the destination.
    pub fn min_diff(&self) -> (res: usize)
        ensures
            res == self.spread(),
    {
        if self.dst_ptr_index > self.src_ptr_index {
            self.dst_ptr_index - self.src_ptr_index
        } else {
            self.src_ptr_index - self.dst_ptr_index
        }
    }

    /// The first one of the source, the destination and the link.
    pub open spec fn lowest_index(self) -> int {
        match self.link_ptr_index {
            Some(link) => lesser(self.first_index(), link as int),
            None => self.first_index(),
        }
    }

    /// The last one of the source, the destination and the link.
    pub open spec fn highest_index(self) -> int {
        match self.link_ptr_index {
            Some(link) => greater(self.first_index() + self.spread(), link as int),
            None => self.first_index() + self.spread(),
        }
    }

    /// The distance of the first and the last one of the source, the destination and the link.
    pub open spec fn width(self) -> int {
        self.highest_index() - self.lowest_index()
    }

    /// The last one of the source, the destination and the link.
    pub fn max_ind(&self) -> (res: usize)
        ensures
            res == self.highest_index(),
    {
        let last = if self.dst_ptr_index >= self.src_ptr_index {
            self.dst_ptr_index
        } else {
            self.src_ptr_index
        };
        match self.link_ptr_index {
            Some(link) if link > last => link,
            _ => last,
        }
    }

    /// The distance of the first and the last one of the source, the destination and the link.
    pub fn max_diff(&self) -> (res: usize)
        ensures
            res == self.width(),
    {
        let first = self.min_ind();
        let lowest = match self.link_ptr_index {
            Some(link) if link < first => link,
            _ => first,
        };
        self.max_ind() - lowest
    }

    /// The two layouts are the same, or have the source and the destination in each other's place.
    pub open spec fn goes_with(self, other: Self) -> bool {
        self == other || (self.dst_ptr_index == other.src_ptr_index && self.src_ptr_index
            == other.dst_ptr_index)
    }

    /// Whether the two layouts are the same, or have the source and the destination in each other's
    /// place.
    pub fn is_compatible_with(&self, other: &Self) -> (res: bool)
        ensures
            res == self.goes_with(*other),
    {
        *self == *other || (self.dst_ptr_index == other.src_ptr_index && self.src_ptr_index
            == other.dst_ptr_index)
    }
}

/// The layout `a` is preferred to `b`: it has a link where the other one has none, or else its
/// source and its destination are closer to each other, or else it is narrower, the link included,
/// or else it ends at a lower index. Where all of this is the same, its source or its destination
/// comes earlier, or else its link does.
pub open spec fn better(a: DescriptorLayoutCandidate, b: DescriptorLayoutCandidate) -> bool {
    if (a.link_ptr_index is Some) != (b.link_ptr_index is Some) {
        a.link_ptr_index is Some
    } else if a.spread() != b.spread() {
        a.spread() < b.spread()
    } else if a.width() != b.width() {
        a.width() < b.width()
    } else if a.highest_index() != b.highest_index() {
        a.highest_index() < b.highest_index()
    } else if a.first_index() != b.first_index() {
        a.first_index() < b.first_index()
    } else {
        match (a.link_ptr_index, b.link_ptr_index) {
            (Some(link_a), Some(link_b)) => link_a < link_b,
            _ => false,
        }
    }
}

/// The first of the layouts that none of the others is preferred to.
pub open spec fn best_of(layouts: Seq<DescriptorLayoutCandidate>) -> DescriptorLayoutCandidate
    decreases layouts.len(),
{
    if layouts.len() <= 1 {
        layouts[0]
    } else {
        let before = best_of(layouts.drop_last());
        if better(layouts.last(), before) {
            layouts.last()
        } else {
            before
        }
    }
}

/// The best layout is one of the layouts, and none of them is preferred to it.
pub proof fn lemma_best_of(layouts: Seq<DescriptorLayoutCandidate>)
    requires
        layouts.len() > 0,
    ensures
        layouts.contains(best_of(layouts)),
        forall|i: int|
            0 <= i < layouts.len() ==> !better(#[trigger] layouts[i], best_of(layouts)),
    decreases layouts.len(),
{
    if layouts.len() == 1 {
        assert(layouts[0] == best_of(layouts));
    } else {
        let rest = layouts.drop_last();
        lemma_best_of(rest);
        let i = choose|i: int| 0 <= i < rest.len() && rest[i] == best_of(rest);
        assert(layouts[i] == best_of(rest));
        assert(layouts[layouts.len() - 1] == layouts.last());
        assert forall|i: int| 0 <= i < layouts.len() implies !better(
            #[trigger] layouts[i],
            best_of(layouts),
        ) by {
            if i < rest.len() {
                assert(rest[i] == layouts[i]);
            }
        }
    }
}

/// A link is preferred to none, whatever the indices are.
pub proof fn lemma_links_first(a: DescriptorLayoutCandidate, b: DescriptorLayoutCandidate)
    requires
        a.link_ptr_index is Some,
        b.link_ptr_index is None,
    ensures
        better(a, b),
        !better(b, a),
{
}

/// Two layouts of which neither is preferred are the same, but that the source and the destination
/// may be in each other's place.
pub proof fn lemma_equally_good(a: DescriptorLayoutCandidate, b: DescriptorLayoutCandidate)
    requires
        !better(a, b),
        !better(b, a),
    ensures
        a.link_ptr_index == b.link_ptr_index,
        a.goes_with(b),
{
}

/// Whether `a` is preferred to `b`.
fn is_better(a: &DescriptorLayoutCandidate, b: &DescriptorLayoutCandidate) -> (res: bool)
    ensures
        res == better(*a, *b),
{
    let has_link_a = a.link_ptr_index.is_some();
    let has_link_b = b.link_ptr_index.is_some();
    if has_link_a != has_link_b {
        return has_link_a;
    }
    let min_diff_a = a.min_diff();
    let min_diff_b = b.min_diff();
    if min_diff_a != min_diff_b {
        return min_diff_a < min_diff_b;
    }
    let max_diff_a = a.max_diff();
    let max_diff_b = b.max_diff();
    if max_diff_a != max_diff_b {
        return max_diff_a < max_diff_b;
    }
    let max_ind_a = a.max_ind();
    let max_ind_b = b.max_ind();
    if max_ind_a != max_ind_b {
        return max_ind_a < max_ind_b;
    }
    let min_ind_a = a.min_ind();
    let min_ind_b = b.min_ind();
    if min_ind_a != min_ind_b {
        return min_ind_a < min_ind_b;
    }
    match (a.link_ptr_index, b.link_ptr_index) {
        (Some(link_a), Some(link_b)) => link_a < link_b,
        _ => false,
    }
}

/// Finds the first of the layouts that none of the others is preferred to.
pub fn determine_best_descriptor_candidate(
    candidates: &Vec<DescriptorLayoutCandidate>,
) -> (res: DescriptorLayoutCandidate)
    requires
        candidates@.len() > 0,
    ensures
        res == best_of(candidates@),
{
    let mut best = candidates[0];
    let mut i: usize = 1;
    assert(candidates@.take(1)[0] == best);
    while i < candidates.len()
        invariant
            1 <= i <= candidates@.len(),
            best == best_of(candidates@.take(i as int)),
        decreases candidates.len() - i,
    {
        assert(candidates@.take(i + 1).drop_last() =~= candidates@.take(i as int));
        assert(candidates@.take(i + 1).last() == candidates@[i as int]);
        if is_better(&candidates[i], &best) {
            best = candidates[i];
        }
        i += 1;
    }
    assert(candidates@.take(i as int) =~= candidates@);
    best
}

} // verus!
