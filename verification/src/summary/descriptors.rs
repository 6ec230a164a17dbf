//! Which registers point to descriptors, to tables of descriptors, or to tables of pointers to
//! descriptors.

use super::layout::{
    best_of, better, determine_best_descriptor_candidate, lemma_best_of, possible_layouts,
    DescriptorLayoutCandidate, MIN_DESCRIPTOR_FIELDS,
};
use crate::common::{MmioAddress, RamAddress};
use crate::dma_analysis::merge::{
    field_views, FieldModel, FieldTypeGuess, PointerModel, PointerType,
};
use crate::dma_analysis::types::{is_pointer_aligned, pointer_aligned};
use crate::dma_snippet::type_views;
use crate::tables::{
    enumerates, lemma_take_to_set, lists_values, map_get, map_insert, map_keys, map_remove,
    set_elements, set_len,
};
use fxhash::{FxHashMap, FxHashSet};
use vstd::prelude::*;

verus! {

broadcast use vstd::std_specs::hash::group_hash_axioms;

/// The greatest number of buffers that a descriptor may point to.
pub const NUM_MAX_DESCRIPTOR_POINTED_BUF_LOCATIONS: usize = 5;

/// The best layout that the descriptor behind a pointer may have, if it starts at the field
/// `start`. None where there is none, or where the descriptor points to too many buffers. None on
/// the outside where some type has fields, but not those of a layout.
pub open spec fn layout_from(p: PointerModel, start: int) -> Option<
    Option<DescriptorLayoutCandidate>,
> {
    match possible_layouts(p, start) {
        Some(layouts) => {
            let best = best_of(layouts);
            if layouts.len() == 0 {
                Some(None)
            } else {
                match p.to[best.dst_ptr_index as int] {
                    FieldModel::Pointer { pointer } if best.dst_ptr_index < p.to.len()
                        && pointer.known_values.len() <= NUM_MAX_DESCRIPTOR_POINTED_BUF_LOCATIONS => {
                        Some(Some(best))
                    },
                    _ => Some(None),
                }
            }
        },
        None => None,
    }
}

/// All fields from `start` on, before `end`, are zero.
pub open spec fn all_zero(fields: Seq<FieldModel>, start: int, end: int) -> bool {
    forall|i: int| start <= i < end ==> (#[trigger] fields[i]) is Zero
}

/// The first field from `i` on that may belong to a descriptor: fields are skipped in groups of the
/// size of the smallest descriptor as long as they are all zero.
pub open spec fn populated_from(fields: Seq<FieldModel>, i: int) -> int
    decreases fields.len() - i,
{
    if i >= fields.len() {
        i
    } else {
        let end = if i + MIN_DESCRIPTOR_FIELDS <= fields.len() {
            i + MIN_DESCRIPTOR_FIELDS
        } else {
            fields.len() as int
        };
        if all_zero(fields, i, end) {
            populated_from(fields, end)
        } else {
            i
        }
    }
}

/// The layout of a descriptor, or of the first one of a list of linked descriptors.
pub open spec fn linked_choice() -> spec_fn(PointerModel) -> Option<
    Option<DescriptorLayoutCandidate>,
> {
    |p: PointerModel| layout_from(p, 0)
}

/// The layout of the first descriptor of a table that is in use.
pub open spec fn table_choice() -> spec_fn(PointerModel) -> Option<
    Option<DescriptorLayoutCandidate>,
> {
    |p: PointerModel| layout_from(p, populated_from(p.to, 0))
}

/// A layout is chosen or ruled out for every register.
pub open spec fn all_chosen(
    types: Map<MmioAddress, PointerModel>,
    choice: spec_fn(PointerModel) -> Option<Option<DescriptorLayoutCandidate>>,
) -> bool {
    forall|r: MmioAddress| #[trigger] types.contains_key(r) ==> choice(types[r]) is Some
}

/// The layouts that are chosen for registers.
pub open spec fn chosen_layouts(
    types: Map<MmioAddress, PointerModel>,
    choice: spec_fn(PointerModel) -> Option<Option<DescriptorLayoutCandidate>>,
) -> Map<MmioAddress, DescriptorLayoutCandidate> {
    Map::new(
        |r: MmioAddress|
            types.contains_key(r) && choice(types[r]) is Some && choice(types[r])->0 is Some,
        |r: MmioAddress| choice(types[r])->0->0,
    )
}

/// Chooses a layout for the descriptor behind a pointer, if it starts at the field `start`.
fn choose_layout(pointer: &PointerType, start: usize) -> (res: Option<
    Option<DescriptorLayoutCandidate>,
>)
    ensures
        res == layout_from(pointer@, start as int),
{
    let candidates = match DescriptorLayoutCandidate::synthesize_from(pointer, start) {
        Some(candidates) => candidates,
        None => {
            return None;
        },
    };
    if candidates.len() == 0 {
        return Some(None);
    }
    let best = determine_best_descriptor_candidate(&candidates);
    if best.dst_ptr_index >= pointer.to.len() {
        return Some(None);
    }
    assert(pointer@.to[best.dst_ptr_index as int] == pointer.to@[best.dst_ptr_index as int]@);
    match &pointer.to[best.dst_ptr_index] {
        FieldTypeGuess::Pointer { pointer: dst } => {
            if set_len(&dst.known_values) > NUM_MAX_DESCRIPTOR_POINTED_BUF_LOCATIONS {
                Some(None)
            } else {
                Some(Some(best))
            }
        },
        _ => Some(None),
    }
}

/// Chooses the layout of a descriptor, or of the first one of a list of linked descriptors, for
/// each register. None where some type has fields, but not those of a layout.
pub fn synthesize_ram_based_linked_descriptors(
    analyzed_addrs: &FxHashMap<MmioAddress, PointerType>,
) -> (res: Option<FxHashMap<MmioAddress, DescriptorLayoutCandidate>>)
    ensures
        res is Some <==> all_chosen(type_views(analyzed_addrs@), linked_choice()),
        res matches Some(layouts) ==> layouts@ == chosen_layouts(
            type_views(analyzed_addrs@),
            linked_choice(),
        ),
{
    let ghost types = type_views(analyzed_addrs@);
    let ghost choice = linked_choice();
    let mut res: FxHashMap<MmioAddress, DescriptorLayoutCandidate> = FxHashMap::default();
    let keys = map_keys(analyzed_addrs);
    let mut i: usize = 0;
    proof {
        assert(keys@.take(0).to_set() =~= Set::empty());
        assert(res@ =~= chosen_layouts(types.restrict(keys@.take(0).to_set()), choice));
    }
    while i < keys.len()
        invariant
            types == type_views(analyzed_addrs@),
            choice == linked_choice(),
            enumerates(keys@, analyzed_addrs@.dom()),
            i <= keys@.len(),
            forall|j: int| 0 <= j < i ==> choice(types[#[trigger] keys@[j]]) is Some,
            res@ == chosen_layouts(types.restrict(keys@.take(i as int).to_set()), choice),
        decreases keys.len() - i,
    {
        let r = keys[i];
        proof {
            assert(keys@.to_set().contains(r));
            assert(types.contains_key(r));
            lemma_take_to_set(keys@, i as int);
            assert(!keys@.take(i as int).contains(r));
        }
        let pointer = map_get(analyzed_addrs, &r).unwrap();
        assert(types[r] == pointer@);
        match choose_layout(pointer, 0) {
            Some(layout) => {
                if let Some(layout) = layout {
                    map_insert(&mut res, r, layout);
                }
                assert(choice(types[keys@[i as int]]) is Some);
                assert(res@ =~= chosen_layouts(
                    types.restrict(keys@.take(i + 1).to_set()),
                    choice,
                ));
            },
            None => {
                assert(choice(types[r]) is None);
                return None;
            },
        }
        i += 1;
    }
    proof {
        assert(types.dom() =~= analyzed_addrs@.dom());
        lemma_all_chosen(types, choice, keys@);
    }
    Some(res)
}

/// What is chosen for every listed register is chosen for all of them.
proof fn lemma_all_chosen(
    types: Map<MmioAddress, PointerModel>,
    choice: spec_fn(PointerModel) -> Option<Option<DescriptorLayoutCandidate>>,
    keys: Seq<MmioAddress>,
)
    requires
        enumerates(keys, types.dom()),
        forall|j: int| 0 <= j < keys.len() ==> choice(types[#[trigger] keys[j]]) is Some,
    ensures
        all_chosen(types, choice),
        types.restrict(keys.take(keys.len() as int).to_set()) == types,
{
    assert(keys.take(keys.len() as int) =~= keys);
    assert(types.restrict(types.dom()) =~= types);
    assert forall|r: MmioAddress| #[trigger] types.contains_key(r) implies choice(
        types[r],
    ) is Some by {
        assert(keys.to_set().contains(r));
        let j = choose|j: int| 0 <= j < keys.len() && keys[j] == r;
        assert(choice(types[keys[j]]) is Some);
    }
}

/// Finds the first field that may belong to a descriptor.
fn find_start(fields: &Vec<FieldTypeGuess>) -> (res: usize)
    ensures
        res == populated_from(field_views(fields@), 0),
{
    let ghost views = field_views(fields@);
    let mut start: usize = 0;
    while start < fields.len()
        invariant
            views == field_views(fields@),
            start <= fields@.len(),
            populated_from(views, 0) == populated_from(views, start as int),
        decreases fields.len() - start,
    {
        let end = if fields.len() - start >= MIN_DESCRIPTOR_FIELDS {
            start + MIN_DESCRIPTOR_FIELDS
        } else {
            fields.len()
        };
        let mut i: usize = start;
        while i < end
            invariant
                views == field_views(fields@),
                start <= i <= end <= fields@.len(),
                all_zero(views, start as int, i as int),
                start < fields@.len(),
                end == (if start + MIN_DESCRIPTOR_FIELDS <= views.len() {
                    start + MIN_DESCRIPTOR_FIELDS
                } else {
                    views.len() as int
                }),
                populated_from(views, 0) == populated_from(views, start as int),
            decreases end - i,
        {
            assert(views[i as int] == fields@[i as int]@);
            if !matches!(fields[i], FieldTypeGuess::Zero) {
                assert(!all_zero(views, start as int, end as int));
                return start;
            }
            i += 1;
        }
        start = end;
    }
    start
}

/// Chooses the layout of the first descriptor of a table that is in use, for each register. None
/// where some type has fields, but not those of a layout.
pub fn synthesize_ram_based_descriptor_table(
    analyzed_addrs: &FxHashMap<MmioAddress, PointerType>,
) -> (res: Option<FxHashMap<MmioAddress, DescriptorLayoutCandidate>>)
    ensures
        res is Some <==> all_chosen(type_views(analyzed_addrs@), table_choice()),
        res matches Some(layouts) ==> layouts@ == chosen_layouts(
            type_views(analyzed_addrs@),
            table_choice(),
        ),
{
    let ghost types = type_views(analyzed_addrs@);
    let ghost choice = table_choice();
    let mut res: FxHashMap<MmioAddress, DescriptorLayoutCandidate> = FxHashMap::default();
    let keys = map_keys(analyzed_addrs);
    let mut i: usize = 0;
    proof {
        assert(keys@.take(0).to_set() =~= Set::empty());
        assert(res@ =~= chosen_layouts(types.restrict(keys@.take(0).to_set()), choice));
    }
    while i < keys.len()
        invariant
            types == type_views(analyzed_addrs@),
            choice == table_choice(),
            enumerates(keys@, analyzed_addrs@.dom()),
            i <= keys@.len(),
            forall|j: int| 0 <= j < i ==> choice(types[#[trigger] keys@[j]]) is Some,
            res@ == chosen_layouts(types.restrict(keys@.take(i as int).to_set()), choice),
        decreases keys.len() - i,
    {
        let r = keys[i];
        proof {
            assert(keys@.to_set().contains(r));
            assert(types.contains_key(r));
            lemma_take_to_set(keys@, i as int);
            assert(!keys@.take(i as int).contains(r));
        }
        let pointer = map_get(analyzed_addrs, &r).unwrap();
        assert(types[r] == pointer@);
        let start_offset = find_start(&pointer.to);
        match choose_layout(pointer, start_offset) {
            Some(layout) => {
                if let Some(layout) = layout {
                    map_insert(&mut res, r, layout);
                }
                assert(choice(types[keys@[i as int]]) is Some);
                assert(res@ =~= chosen_layouts(
                    types.restrict(keys@.take(i + 1).to_set()),
                    choice,
                ));
            },
            None => {
                assert(choice(types[r]) is None);
                return None;
            },
        }
        i += 1;
    }
    proof {
        assert(types.dom() =~= analyzed_addrs@.dom());
        lemma_all_chosen(types, choice, keys@);
    }
    Some(res)
}

/// One of the addresses is not that of an aligned pointer.
pub open spec fn has_misaligned(values: Set<RamAddress>) -> bool {
    exists|v: RamAddress| #[trigger] values.contains(v) && !pointer_aligned(v)
}

/// The field can be an entry of a table of pointers.
pub open spec fn table_entry(field: FieldModel) -> bool {
    field matches FieldModel::Pointer { pointer } && !pointer.includes_mmio && !has_misaligned(
        pointer.known_values,
    )
}

/// The number of entries of a table of pointers, where those before `i` are entries. The table ends
/// at a zero. Anything else makes it no table, and so does the lack of a zero.
pub open spec fn table_len_from(fields: Seq<FieldModel>, i: int) -> int
    decreases fields.len() - i,
{
    if i >= fields.len() {
        0
    } else if fields[i] is Zero {
        i
    } else if table_entry(fields[i]) {
        table_len_from(fields, i + 1)
    } else {
        0
    }
}

/// The best layout that the descriptor behind an entry of a table may have, where there is one.
/// None on the outside where some type has fields, but not those of a layout.
pub open spec fn entry_layout(field: FieldModel) -> Option<Option<DescriptorLayoutCandidate>> {
    match possible_layouts(field->pointer, 0) {
        Some(layouts) => Some(
            if layouts.len() == 0 {
                None
            } else {
                Some(best_of(layouts))
            },
        ),
        None => None,
    }
}

/// The first entry from `i` on, before `n`, without a layout.
pub open spec fn laid_out_from(fields: Seq<FieldModel>, i: int, n: int) -> Option<int>
    decreases n - i,
{
    if i >= n {
        Some(i)
    } else {
        match entry_layout(fields[i]) {
            Some(Some(_)) => laid_out_from(fields, i + 1, n),
            Some(None) => Some(i),
            None => None,
        }
    }
}

/// The layouts of the entries of a table of pointers to descriptors, up to the first one without a
/// layout. None where some type has fields, but not those of a layout.
pub open spec fn entry_layouts(fields: Seq<FieldModel>) -> Option<
    Map<usize, DescriptorLayoutCandidate>,
> {
    match laid_out_from(fields, 0, table_len_from(fields, 0)) {
        Some(n) => Some(
            Map::new(|i: usize| i < n, |i: usize| entry_layout(fields[i as int])->0->0),
        ),
        None => None,
    }
}

/// No layout of the table is preferred to `top`, which is one of them.
pub open spec fn is_top(
    layouts: Map<usize, DescriptorLayoutCandidate>,
    top: DescriptorLayoutCandidate,
) -> bool {
    &&& exists|i: usize| #[trigger] layouts.contains_key(i) && layouts[i] == top
    &&& forall|i: usize| #[trigger] layouts.contains_key(i) ==> !better(layouts[i], top)
}

/// The layouts that go with `top`.
pub open spec fn going_with(
    layouts: Map<usize, DescriptorLayoutCandidate>,
    top: DescriptorLayoutCandidate,
) -> Map<usize, DescriptorLayoutCandidate> {
    layouts.restrict(layouts.dom().filter(|i: usize| top.goes_with(layouts[i])))
}

/// The layouts of a table of pointers to descriptors that go with one that no other is preferred
/// to. Where there are several such layouts, it is left open which one is taken.
pub open spec fn is_pointer_table(
    fields: Seq<FieldModel>,
    layouts: Map<usize, DescriptorLayoutCandidate>,
) -> bool {
    let all = entry_layouts(fields)->0;
    exists|top: DescriptorLayoutCandidate| #[trigger]
        is_top(all, top) && layouts == going_with(all, top)
}

/// The fields are those of a table of pointers to descriptors.
pub open spec fn makes_pointer_table(fields: Seq<FieldModel>) -> bool {
    !entry_layouts(fields)->0.dom().is_empty()
}

/// The entries of every table of pointers have or lack a layout.
pub open spec fn all_laid_out(types: Map<MmioAddress, PointerModel>) -> bool {
    forall|r: MmioAddress| #[trigger]
        types.contains_key(r) ==> entry_layouts(types[r].to) is Some
}

/// The tables of pointers to descriptors, by register.
pub open spec fn are_pointer_tables(
    types: Map<MmioAddress, PointerModel>,
    tables: Map<MmioAddress, Map<usize, DescriptorLayoutCandidate>>,
) -> bool {
    &&& forall|r: MmioAddress| #[trigger]
        tables.contains_key(r) <==> types.contains_key(r) && makes_pointer_table(types[r].to)
    &&& forall|r: MmioAddress| #[trigger]
        tables.contains_key(r) ==> is_pointer_table(types[r].to, tables[r])
}

/// Whether one of the addresses is not that of an aligned pointer.
fn any_misaligned(values: &FxHashSet<RamAddress>) -> (res: bool)
    ensures
        res == has_misaligned(values@),
{
    let elements = set_elements(values);
    let mut i: usize = 0;
    while i < elements.len()
        invariant
            enumerates(elements@, values@),
            i <= elements@.len(),
            forall|j: int| 0 <= j < i ==> pointer_aligned(#[trigger] elements@[j]),
        decreases elements.len() - i,
    {
        if !is_pointer_aligned(elements[i]) {
            assert(elements@.to_set().contains(elements@[i as int]));
            return true;
        }
        i += 1;
    }
    assert forall|v: RamAddress| #[trigger] values@.contains(v) implies pointer_aligned(v) by {
        assert(elements@.to_set().contains(v));
        let j = choose|j: int| 0 <= j < elements@.len() && elements@[j] == v;
        assert(pointer_aligned(elements@[j]));
    }
    false
}

/// Counts the entries of a table of pointers.
fn count_table_fields(fields: &Vec<FieldTypeGuess>) -> (res: usize)
    ensures
        res == table_len_from(field_views(fields@), 0),
        res <= fields@.len(),
        forall|j: int| 0 <= j < res ==> (#[trigger] field_views(fields@)[j]) is Pointer,
{
    let ghost views = field_views(fields@);
    let mut i: usize = 0;
    while i < fields.len()
        invariant
            views == field_views(fields@),
            i <= fields@.len(),
            table_len_from(views, 0) == table_len_from(views, i as int),
            forall|j: int| 0 <= j < i ==> (#[trigger] views[j]) is Pointer,
        decreases fields.len() - i,
    {
        assert(views[i as int] == fields@[i as int]@);
        match &fields[i] {
            FieldTypeGuess::Zero => {
                return i;
            },
            FieldTypeGuess::HighEntropy { .. } => {
                return 0;
            },
            FieldTypeGuess::Pointer { pointer } => {
                if pointer.includes_mmio || any_misaligned(&pointer.known_values) {
                    return 0;
                }
            },
        }
        i += 1;
    }
    0
}

/// Finds the layouts of the entries of a table of pointers to descriptors.
fn find_entry_layouts(fields: &Vec<FieldTypeGuess>) -> (res: Option<
    FxHashMap<usize, DescriptorLayoutCandidate>,
>)
    ensures
        res is Some <==> entry_layouts(field_views(fields@)) is Some,
        res matches Some(layouts) ==> layouts@ == entry_layouts(field_views(fields@))->0,
{
    let ghost views = field_views(fields@);
    let num_pointer_table_fields = count_table_fields(fields);
    let ghost n = num_pointer_table_fields as int;
    let mut res: FxHashMap<usize, DescriptorLayoutCandidate> = FxHashMap::default();
    let mut i: usize = 0;
    let mut done = false;
    let ghost len = laid_out_from(views, 0, n);
    assert(res@ =~= Map::new(
        |k: usize| k < i,
        |k: usize| entry_layout(views[k as int])->0->0,
    ));
    while i < num_pointer_table_fields && !done
        invariant
            views == field_views(fields@),
            n == num_pointer_table_fields,
            i <= n <= fields@.len(),
            forall|j: int| 0 <= j < n ==> (#[trigger] views[j]) is Pointer,
            len == laid_out_from(views, 0, n),
            n == table_len_from(views, 0),
            !done ==> len == laid_out_from(views, i as int, n),
            done ==> len == Some(i as int),
            res@ == Map::new(|k: usize| k < i, |k: usize| entry_layout(views[k as int])->0->0),
        decreases n - i, !done as int,
    {
        assert(views[i as int] == fields@[i as int]@);
        if let FieldTypeGuess::Pointer { pointer } = &fields[i] {
            match DescriptorLayoutCandidate::synthesize_from(pointer, 0) {
                Some(candidates) => {
                    if candidates.len() == 0 {
                        done = true;
                    } else {
                        let best = determine_best_descriptor_candidate(&candidates);
                        map_insert(&mut res, i, best);
                        assert(res@ =~= Map::new(
                            |k: usize| k < i + 1,
                            |k: usize| entry_layout(views[k as int])->0->0,
                        ));
                        i += 1;
                    }
                },
                None => {
                    return None;
                },
            }
        }
    }
    assert(res@ =~= entry_layouts(views)->0);
    Some(res)
}

/// Keeps the layouts that go with `top`.
pub fn keep_compatible(
    layouts: &FxHashMap<usize, DescriptorLayoutCandidate>,
    top: &DescriptorLayoutCandidate,
) -> (res: FxHashMap<usize, DescriptorLayoutCandidate>)
    ensures
        res@ == going_with(layouts@, *top),
{
    let mut res = layouts.clone();
    let keys = map_keys(layouts);
    let mut i: usize = 0;
    while i < keys.len()
        invariant
            enumerates(keys@, layouts@.dom()),
            i <= keys@.len(),
            forall|k: usize| #[trigger]
                res@.contains_key(k) <==> layouts@.contains_key(k) && (keys@.take(
                    i as int,
                ).contains(k) ==> top.goes_with(layouts@[k])),
            forall|k: usize| #[trigger] res@.contains_key(k) ==> res@[k] == layouts@[k],
        decreases keys.len() - i,
    {
        let key = keys[i];
        proof {
            assert(keys@.to_set().contains(key));
            lemma_take_to_set(keys@, i as int);
            assert forall|k: usize| keys@.take(i + 1).contains(k) <==> (keys@.take(
                i as int,
            ).contains(k) || k == key) by {
                assert(keys@.take(i + 1).to_set().contains(k) <==> keys@.take(i + 1).contains(k));
                assert(keys@.take(i as int).to_set().contains(k) <==> keys@.take(
                    i as int,
                ).contains(k));
            }
        }
        if !top.is_compatible_with(map_get(layouts, &key).unwrap()) {
            map_remove(&mut res, &key);
        }
        i += 1;
    }
    proof {
        assert(keys@.take(i as int) =~= keys@);
        assert forall|k: usize| layouts@.contains_key(k) implies keys@.contains(k) by {
            assert(keys@.to_set().contains(k));
        }
        assert(res@ =~= going_with(layouts@, *top));
    }
    res
}

/// The values of a table of layouts.
fn layout_values(layouts: &FxHashMap<usize, DescriptorLayoutCandidate>) -> (res: Vec<
    DescriptorLayoutCandidate,
>)
    ensures
        lists_values(res@, layouts@),
{
    let keys = map_keys(layouts);
    let mut res: Vec<DescriptorLayoutCandidate> = Vec::new();
    let mut i: usize = 0;
    while i < keys.len()
        invariant
            enumerates(keys@, layouts@.dom()),
            i <= keys@.len(),
            res@.len() == i,
            forall|j: int| 0 <= j < i ==> #[trigger] res@[j] == layouts@[keys@[j]],
        decreases keys.len() - i,
    {
        assert(keys@.to_set().contains(keys@[i as int]));
        res.push(*map_get(layouts, &keys[i]).unwrap());
        i += 1;
    }
    assert(res@ =~= keys@.map_values(|k: usize| layouts@[k]));
    res
}

/// Finds the table of pointers to descriptors that the fields make up.
fn find_pointer_table(fields: &Vec<FieldTypeGuess>) -> (res: Option<
    Option<FxHashMap<usize, DescriptorLayoutCandidate>>,
>)
    ensures
        res is Some <==> entry_layouts(field_views(fields@)) is Some,
        res matches Some(table) ==> {
            &&& table is Some <==> makes_pointer_table(field_views(fields@))
            &&& table matches Some(layouts) ==> is_pointer_table(field_views(fields@), layouts@)
        },
{
    let all = match find_entry_layouts(fields) {
        Some(all) => all,
        None => {
            return None;
        },
    };
    let values = layout_values(&all);
    let ghost order = choose|order: Seq<usize>| #[trigger]
        enumerates(order, all@.dom()) && values@ == order.map_values(|k: usize| all@[k]);
    if values.len() == 0 {
        assert(order.len() == 0);
        assert(order.to_set() =~= Set::empty());
        return Some(None);
    }
    let top = determine_best_descriptor_candidate(&values);
    proof {
        lemma_best_of(values@);
        assert(order.to_set().contains(order[0]));
        assert(!all@.dom().is_empty());
        let i = choose|i: int| 0 <= i < values@.len() && values@[i] == top;
        assert(order.to_set().contains(order[i]));
        assert(all@.contains_key(order[i]) && all@[order[i]] == top);
        assert forall|k: usize| #[trigger] all@.contains_key(k) implies !better(all@[k], top) by {
            assert(order.to_set().contains(k));
            let j = choose|j: int| 0 <= j < order.len() && order[j] == k;
            assert(values@[j] == all@[k]);
        }
        assert(is_top(all@, top));
    }
    Some(Some(keep_compatible(&all, &top)))
}

/// The contents of the tables of layouts of each register.
pub open spec fn table_views(
    m: Map<MmioAddress, FxHashMap<usize, DescriptorLayoutCandidate>>,
) -> Map<MmioAddress, Map<usize, DescriptorLayoutCandidate>> {
    m.map_values(|t: FxHashMap<usize, DescriptorLayoutCandidate>| t@)
}

/// Finds the tables of pointers to descriptors, by register. None where some type has fields, but
/// not those of a layout.
pub fn synthesize_descriptor_pointer_table(
    analyzed_addrs: &FxHashMap<MmioAddress, PointerType>,
) -> (res: Option<FxHashMap<MmioAddress, FxHashMap<usize, DescriptorLayoutCandidate>>>)
    ensures
        res is Some <==> all_laid_out(type_views(analyzed_addrs@)),
        res matches Some(tables) ==> are_pointer_tables(
            type_views(analyzed_addrs@),
            table_views(tables@),
        ),
{
    let ghost types = type_views(analyzed_addrs@);
    let mut res: FxHashMap<MmioAddress, FxHashMap<usize, DescriptorLayoutCandidate>> =
        FxHashMap::default();
    let keys = map_keys(analyzed_addrs);
    let mut i: usize = 0;
    while i < keys.len()
        invariant
            types == type_views(analyzed_addrs@),
            enumerates(keys@, analyzed_addrs@.dom()),
            i <= keys@.len(),
            forall|j: int| 0 <= j < i ==> entry_layouts(types[#[trigger] keys@[j]].to) is Some,
            forall|r: MmioAddress| #[trigger]
                res@.contains_key(r) <==> keys@.take(i as int).contains(r) && makes_pointer_table(
                    types[r].to,
                ),
            forall|r: MmioAddress| #[trigger]
                res@.contains_key(r) ==> is_pointer_table(types[r].to, res@[r]@),
        decreases keys.len() - i,
    {
        let r = keys[i];
        proof {
            assert(keys@.to_set().contains(r));
            assert(types.contains_key(r));
            lemma_take_to_set(keys@, i as int);
            assert forall|k: MmioAddress| keys@.take(i + 1).contains(k) <==> (keys@.take(
                i as int,
            ).contains(k) || k == r) by {
                assert(keys@.take(i + 1).to_set().contains(k) <==> keys@.take(i + 1).contains(k));
                assert(keys@.take(i as int).to_set().contains(k) <==> keys@.take(
                    i as int,
                ).contains(k));
            }
        }
        let pointer = map_get(analyzed_addrs, &r).unwrap();
        assert(types[r] == pointer@);
        match find_pointer_table(&pointer.to) {
            Some(table) => {
                if let Some(layouts) = table {
                    map_insert(&mut res, r, layouts);
                } else {
                    assert(!keys@.take(i as int).contains(r));
                }
            },
            None => {
                assert(entry_layouts(types[r].to) is None);
                return None;
            },
        }
        i += 1;
    }
    proof {
        assert(keys@.take(i as int) =~= keys@);
        assert forall|r: MmioAddress| keys@.contains(r) <==> types.contains_key(r) by {
            assert(keys@.to_set().contains(r) <==> keys@.contains(r));
        }
        let tables = table_views(res@);
        assert forall|r: MmioAddress| #[trigger] tables.contains_key(r) implies is_pointer_table(
            types[r].to,
            tables[r],
        ) by {
            assert(res@.contains_key(r));
        }
        assert forall|r: MmioAddress| #[trigger]
            tables.contains_key(r) <==> types.contains_key(r) && makes_pointer_table(
                types[r].to,
            ) by {
            assert(res@.contains_key(r) <==> tables.contains_key(r));
        }
        assert forall|r: MmioAddress| #[trigger] types.contains_key(r) implies entry_layouts(
            types[r].to,
        ) is Some by {
            let j = choose|j: int| 0 <= j < keys@.len() && keys@[j] == r;
            assert(entry_layouts(types[keys@[j]].to) is Some);
        }
    }
    Some(res)
}

} // verus!
