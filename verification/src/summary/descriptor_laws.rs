//! Which descriptors and tables registers are taken to point to.

use super::descriptors::{
    all_zero, entry_layout, entry_layouts, going_with, has_misaligned, is_pointer_table, is_top,
    laid_out_from, layout_from, populated_from, table_entry, table_len_from,
};
use super::layout::{best_of, better, lemma_best_of, possible_layouts, DescriptorLayoutCandidate};
use super::layout_laws::{is_buffer_pointer, lemma_layouts_exactly};
use crate::common::RamAddress;
use crate::dma_analysis::{FieldModel, PointerModel};
use vstd::prelude::*;

verus! {

/// The number of fields between the source and the destination.
pub open spec fn gap_of(l: DescriptorLayoutCandidate) -> int {
    if l.src_ptr_index <= l.dst_ptr_index {
        l.dst_ptr_index - l.src_ptr_index
    } else {
        l.src_ptr_index - l.dst_ptr_index
    }
}

/// The index is that of the source, the destination or the link.
pub open spec fn has_index(l: DescriptorLayoutCandidate, i: int) -> bool {
    i == l.src_ptr_index || i == l.dst_ptr_index || (l.link_ptr_index matches Some(link) && i
        == link)
}

/// The indices of the layout go from `lo` to `hi`.
pub open spec fn extends(l: DescriptorLayoutCandidate, lo: int, hi: int) -> bool {
    &&& has_index(l, lo) && has_index(l, hi)
    &&& forall|i: int| #[trigger] has_index(l, i) ==> lo <= i <= hi
}

/// The first one of the source and the destination.
pub open spec fn starts_from(l: DescriptorLayoutCandidate) -> int {
    if l.src_ptr_index <= l.dst_ptr_index {
        l.src_ptr_index as int
    } else {
        l.dst_ptr_index as int
    }
}

/// A link counts most, then that the source and the destination are close to each other, then that
/// the layout is narrow, then that it ends early, then that the source or the destination comes
/// early, and last that the link does.
pub proof fn lemma_preference(
    a: DescriptorLayoutCandidate,
    b: DescriptorLayoutCandidate,
    lo_a: int,
    hi_a: int,
    lo_b: int,
    hi_b: int,
)
    requires
        extends(a, lo_a, hi_a),
        extends(b, lo_b, hi_b),
    ensures
        a.link_ptr_index is Some && b.link_ptr_index is None ==> better(a, b) && !better(b, a),
        (a.link_ptr_index is Some <==> b.link_ptr_index is Some) ==> {
            &&& gap_of(a) < gap_of(b) ==> better(a, b) && !better(b, a)
            &&& gap_of(a) == gap_of(b) && hi_a - lo_a < hi_b - lo_b ==> better(a, b) && !better(
                b,
                a,
            )
            &&& gap_of(a) == gap_of(b) && hi_a - lo_a == hi_b - lo_b && hi_a < hi_b ==> better(a, b)
                && !better(b, a)
            &&& gap_of(a) == gap_of(b) && hi_a - lo_a == hi_b - lo_b && hi_a == hi_b
                && starts_from(a) < starts_from(b) ==> better(a, b) && !better(b, a)
            &&& gap_of(a) == gap_of(b) && hi_a - lo_a == hi_b - lo_b && hi_a == hi_b
                && starts_from(a) == starts_from(b) && a.link_ptr_index is Some
                && a.link_ptr_index->0 < b.link_ptr_index->0 ==> better(a, b) && !better(b, a)
        },
        a == b ==> !better(a, b),
{
    assert(lo_a == a.lowest_index()) by {
        assert(has_index(a, a.lowest_index()));
        assert(lo_a >= a.lowest_index());
    }
    assert(hi_a == a.highest_index()) by {
        assert(has_index(a, a.highest_index()));
        assert(hi_a <= a.highest_index());
    }
    assert(lo_b == b.lowest_index()) by {
        assert(has_index(b, b.lowest_index()));
        assert(lo_b >= b.lowest_index());
    }
    assert(hi_b == b.highest_index()) by {
        assert(has_index(b, b.highest_index()));
        assert(hi_b <= b.highest_index());
    }
}

/// The layout of a descriptor is one that it may have and that no other one is preferred to, and its
/// pointer to a buffer leads to five buffers at most. There is one wherever some layout is possible
/// and no pointer to a buffer leads to more than five.
pub proof fn lemma_layout_choice(p: PointerModel, start: int)
    requires
        0 <= start,
        p.to.len() <= usize::MAX,
        possible_layouts(p, start) is Some,
    ensures
        ({
            let layouts = possible_layouts(p, start)->0;
            let choice = layout_from(p, start);
            &&& choice is Some
            &&& (choice->0 matches Some(layout) ==> {
                &&& layouts.contains(layout)
                &&& forall|other: DescriptorLayoutCandidate| #[trigger]
                    layouts.contains(other) ==> !better(other, layout)
                &&& layout.dst_ptr_index < p.to.len()
                &&& p.to[layout.dst_ptr_index as int] matches FieldModel::Pointer { pointer }
                    && pointer.known_values.len() <= 5
            })
            &&& layouts.len() == 0 ==> choice->0 is None
            &&& layouts.len() > 0 && (forall|i: int|
                0 <= i < p.to.len() && is_buffer_pointer(#[trigger] p.to[i])
                    ==> p.to[i]->pointer.known_values.len() <= 5) ==> choice->0 is Some
            &&& layouts.len() > 0 && (forall|i: int|
                0 <= i < p.to.len() && is_buffer_pointer(#[trigger] p.to[i])
                    ==> p.to[i]->pointer.known_values.len() > 5) ==> choice->0 is None
        }),
{
    let layouts = possible_layouts(p, start)->0;
    if layouts.len() > 0 {
        lemma_best_of(layouts);
        let best = best_of(layouts);
        lemma_layouts_exactly(p, start, best);
        let dst = best.dst_ptr_index as int;
        assert(is_buffer_pointer(p.to[dst]));
        assert forall|other: DescriptorLayoutCandidate| #[trigger]
            layouts.contains(other) implies !better(other, best) by {
            let i = choose|i: int| 0 <= i < layouts.len() && layouts[i] == other;
            assert(!better(layouts[i], best));
        }
    }
}

/// The first descriptor of a table that is in use starts at a multiple of four fields: all fields in
/// front of it are zero, and one of the four from there on, as far as there are fields, is not.
pub proof fn lemma_populated_from(fields: Seq<FieldModel>, i: int)
    requires
        0 <= i <= fields.len(),
        i % 4 == 0,
    ensures
        ({
            let start = populated_from(fields, i);
            &&& i <= start <= fields.len()
            &&& forall|j: int| i <= j < start ==> (#[trigger] fields[j]) is Zero
            &&& start < fields.len() ==> start % 4 == 0 && exists|j: int|
                start <= j < start + 4 && j < fields.len() && !((#[trigger] fields[j]) is Zero)
        }),
    decreases fields.len() - i,
{
    if i < fields.len() {
        let end = if i + 4 <= fields.len() {
            i + 4
        } else {
            fields.len() as int
        };
        if forall|j: int| i <= j < end ==> (#[trigger] fields[j]) is Zero {
            assert(all_zero(fields, i, end));
            if end == i + 4 {
                lemma_populated_from(fields, end);
            } else {
                assert(populated_from(fields, end) == end);
            }
        }
    }
}

/// The field can be an entry of a table of pointers: a pointer that leads to memory only, and to
/// aligned addresses only.
pub open spec fn is_table_entry(field: FieldModel) -> bool {
    field matches FieldModel::Pointer { pointer } && !pointer.includes_mmio && forall|
        v: RamAddress,
    | #[trigger] pointer.known_values.contains(v) ==> v % 4 == 0
}

proof fn lemma_table_len_from(fields: Seq<FieldModel>, i: int, n: int)
    requires
        0 <= i <= n,
    ensures
        0 <= table_len_from(fields, i),
        table_len_from(fields, i) > 0 ==> {
            let len = table_len_from(fields, i);
            &&& i <= len < fields.len()
            &&& fields[len] is Zero
            &&& forall|j: int| i <= j < len ==> is_table_entry(#[trigger] fields[j])
        },
        n < fields.len() && fields[n] is Zero && (forall|j: int|
            i <= j < n ==> is_table_entry(#[trigger] fields[j])) ==> table_len_from(fields, i) == n,
    decreases fields.len() - i,
{
    if i < fields.len() && !(fields[i] is Zero) {
        assert(table_entry(fields[i]) <==> is_table_entry(fields[i])) by {
            if let FieldModel::Pointer { pointer } = fields[i] {
                let values = pointer.known_values;
                if has_misaligned(values) {
                    let v = choose|v: RamAddress| #[trigger]
                        values.contains(v) && v % 4 != 0;
                    assert(values.contains(v));
                }
            }
        }
        if is_table_entry(fields[i]) {
            lemma_table_len_from(
                fields,
                i + 1,
                if i < n {
                    n
                } else {
                    n + 1
                },
            );
        }
    }
}

/// A table of pointers ends at a zero, and everything in front of it leads to memory, at aligned
/// addresses. Where this is so, it is a table of so many entries; otherwise it has none.
pub proof fn lemma_table_len(fields: Seq<FieldModel>, n: int)
    requires
        0 < n,
    ensures
        table_len_from(fields, 0) == n <==> n < fields.len() && fields[n] is Zero && forall|j: int|
            0 <= j < n ==> is_table_entry(#[trigger] fields[j]),
{
    lemma_table_len_from(fields, 0, n);
}

proof fn lemma_laid_out_from(fields: Seq<FieldModel>, i: int, n: int)
    ensures
        laid_out_from(fields, i, n) matches Some(m) ==> {
            &&& i <= m
            &&& m <= n || m == i
            &&& forall|j: int| i <= j < m ==> (entry_layout(#[trigger] fields[j]) matches Some(Some(_)))
            &&& m < n ==> entry_layout(fields[m]) == Some(None::<DescriptorLayoutCandidate>)
        },
    decreases n - i,
{
    if i < n {
        lemma_laid_out_from(fields, i + 1, n);
    }
}

/// The layouts of the entries of a table of pointers: those of the entries from the first one on, up
/// to one without a possible layout or to the end of the table. Each is a possible layout of what
/// the entry leads to, and no other one is preferred to it.
pub proof fn lemma_entry_layouts(fields: Seq<FieldModel>)
    ensures
        entry_layouts(fields) matches Some(layouts) ==> {
            let n = table_len_from(fields, 0);
            &&& forall|i: usize| #[trigger]
                layouts.contains_key(i) ==> {
                    let possible = possible_layouts(fields[i as int]->pointer, 0);
                    &&& i < n
                    &&& possible is Some && possible->0.contains(layouts[i])
                    &&& forall|other: DescriptorLayoutCandidate| #[trigger]
                        possible->0.contains(other) ==> !better(other, layouts[i])
                }
            &&& forall|i: usize, j: usize|
                j < i && #[trigger] layouts.contains_key(i) ==> #[trigger] layouts.contains_key(j)
            &&& forall|i: usize|
                i < n && !(#[trigger] layouts.contains_key(i)) && (i == 0 || layouts.contains_key(
                    (i - 1) as usize,
                )) ==> (possible_layouts(fields[i as int]->pointer, 0) matches Some(possible)
                    && possible.len() == 0)
        },
{
    if let Some(layouts) = entry_layouts(fields) {
        let n = table_len_from(fields, 0);
        lemma_table_len_from(fields, 0, 0);
        lemma_laid_out_from(fields, 0, n);
        let m = laid_out_from(fields, 0, n)->0;
        assert forall|i: usize| #[trigger] layouts.contains_key(i) implies {
            let possible = possible_layouts(fields[i as int]->pointer, 0);
            &&& i < n
            &&& possible is Some && possible->0.contains(layouts[i])
            &&& forall|other: DescriptorLayoutCandidate| #[trigger]
                possible->0.contains(other) ==> !better(other, layouts[i])
        } by {
            assert(entry_layout(fields[i as int]) matches Some(Some(_)));
            let possible = possible_layouts(fields[i as int]->pointer, 0)->0;
            lemma_best_of(possible);
            assert forall|other: DescriptorLayoutCandidate| #[trigger]
                possible.contains(other) implies !better(other, layouts[i]) by {
                let k = choose|k: int| 0 <= k < possible.len() && possible[k] == other;
                assert(!better(possible[k], layouts[i]));
            }
        }
    }
}

/// The two layouts have their source and destination at the same two fields, and are the same unless
/// they have them the other way round.
pub open spec fn is_alike(a: DescriptorLayoutCandidate, b: DescriptorLayoutCandidate) -> bool {
    ||| a.src_ptr_index == b.src_ptr_index && a.dst_ptr_index == b.dst_ptr_index
        && a.link_ptr_index == b.link_ptr_index
    ||| a.src_ptr_index == b.dst_ptr_index && a.dst_ptr_index == b.src_ptr_index
}

/// The layouts that are kept for a table of pointers are those that are alike one of them, to which
/// none is preferred.
pub proof fn lemma_kept_layouts(
    fields: Seq<FieldModel>,
    layouts: Map<usize, DescriptorLayoutCandidate>,
)
    requires
        is_pointer_table(fields, layouts),
    ensures
        ({
            let all = entry_layouts(fields)->0;
            exists|k: usize| #[trigger]
                layouts.contains_key(k) && all.contains_key(k) && (forall|i: usize| #[trigger]
                    all.contains_key(i) ==> !better(all[i], all[k])) && (forall|i: usize| #[trigger]
                    layouts.contains_key(i) <==> all.contains_key(i) && is_alike(all[k], all[i]))
                    && forall|i: usize| #[trigger]
                layouts.contains_key(i) ==> layouts[i] == all[i]
        }),
{
    let all = entry_layouts(fields)->0;
    let top = choose|top: DescriptorLayoutCandidate| #[trigger]
        is_top(all, top) && layouts == going_with(all, top);
    let k = choose|k: usize| #[trigger] all.contains_key(k) && all[k] == top;
    assert(layouts.contains_key(k));
}

} // verus!
