//! The configuration of the descriptors that registers point to.

use super::descriptors::table_views;
use super::layout::DescriptorLayoutCandidate;
use crate::common::{MmioAddress, RamAddress};
use crate::dma_analysis::merge::{PointerModel, PointerType};
use crate::dma_config::{
    describable, describes, describes_table, known_after, table_describable, DmaConfig,
    DmaDescriptorHead, DmaDescriptorPointer,
};
use crate::dma_snippet::type_views;
use crate::tables::{
    enumerates, lemma_take_to_set, map_contains, map_get, map_insert, map_keys, map_remove,
};
use fxhash::{FxHashMap, FxHashSet};
use vstd::prelude::*;

verus! {

broadcast use vstd::std_specs::hash::group_hash_axioms;

/// The descriptors that are known before that of the register at `i` is looked at.
pub open spec fn known_before(
    types: Map<MmioAddress, PointerModel>,
    layouts: Map<MmioAddress, DescriptorLayoutCandidate>,
    order: Seq<MmioAddress>,
    i: int,
) -> Set<RamAddress>
    decreases i,
{
    if i <= 0 {
        Set::empty()
    } else {
        known_after(
            types[order[i - 1]],
            layouts[order[i - 1]],
            known_before(types, layouts, order, i - 1),
        )
    }
}

/// The descriptors of all registers have their layouts, and their entries can be made, where the
/// registers are looked at in the given order.
pub open spec fn all_describable(
    types: Map<MmioAddress, PointerModel>,
    layouts: Map<MmioAddress, DescriptorLayoutCandidate>,
    order: Seq<MmioAddress>,
) -> bool {
    forall|i: int|
        0 <= i < order.len() ==> describable(
            types[#[trigger] order[i]],
            layouts[order[i]],
            known_before(types, layouts, order, i),
        )
}

/// The pointers describe the descriptors of the registers, where the registers are looked at in the
/// given order.
pub open spec fn describe_in_order(
    configs: Map<MmioAddress, DmaDescriptorPointer>,
    types: Map<MmioAddress, PointerModel>,
    layouts: Map<MmioAddress, DescriptorLayoutCandidate>,
    order: Seq<MmioAddress>,
) -> bool {
    &&& configs.dom() == order.to_set()
    &&& forall|i: int|
        0 <= i < order.len() ==> describes(
            configs[#[trigger] order[i]],
            types[order[i]],
            layouts[order[i]],
            known_before(types, layouts, order, i),
        )
}

/// The pointers describe the descriptors of the registers. The order in which the registers are
/// looked at is left open.
pub open spec fn describe_all(
    configs: Map<MmioAddress, DmaDescriptorPointer>,
    types: Map<MmioAddress, PointerModel>,
    layouts: Map<MmioAddress, DescriptorLayoutCandidate>,
) -> bool {
    exists|order: Seq<MmioAddress>| #[trigger]
        enumerates(order, layouts.dom()) && describe_in_order(configs, types, layouts, order)
}

/// Describes the descriptors of the registers, looking at the registers in the given order. None
/// where one of them has not its layout, or its entries cannot be made.
pub fn describe_descriptors_in_order(
    types: &FxHashMap<MmioAddress, PointerType>,
    layouts: &FxHashMap<MmioAddress, DescriptorLayoutCandidate>,
    order: &Vec<MmioAddress>,
) -> (res: Option<FxHashMap<MmioAddress, DmaDescriptorPointer>>)
    requires
        order@.no_duplicates(),
        order@.to_set().subset_of(layouts@.dom()),
        order@.to_set().subset_of(types@.dom()),
    ensures
        res is Some <==> all_describable(type_views(types@), layouts@, order@),
        res matches Some(configs) ==> describe_in_order(
            configs@,
            type_views(types@),
            layouts@,
            order@,
        ),
{
    let ghost views = type_views(types@);
    let mut known_descr_addrs: FxHashSet<RamAddress> = FxHashSet::default();
    let mut res: FxHashMap<MmioAddress, DmaDescriptorPointer> = FxHashMap::default();
    let mut i: usize = 0;
    assert(known_descr_addrs@ =~= Set::empty());
    assert(res@.dom() =~= order@.take(0).to_set());
    while i < order.len()
        invariant
            views == type_views(types@),
            order@.no_duplicates(),
            order@.to_set().subset_of(layouts@.dom()),
            order@.to_set().subset_of(types@.dom()),
            i <= order@.len(),
            known_descr_addrs@ == known_before(views, layouts@, order@, i as int),
            res@.dom() == order@.take(i as int).to_set(),
            forall|j: int|
                0 <= j < i ==> describable(
                    views[#[trigger] order@[j]],
                    layouts@[order@[j]],
                    known_before(views, layouts@, order@, j),
                ),
            forall|j: int|
                0 <= j < i ==> describes(
                    res@[#[trigger] order@[j]],
                    views[order@[j]],
                    layouts@[order@[j]],
                    known_before(views, layouts@, order@, j),
                ),
        decreases order.len() - i,
    {
        let r = order[i];
        assert(order@.to_set().contains(r));
        let pointer = map_get(types, &r).unwrap();
        let layout = map_get(layouts, &r).unwrap();
        assert(views[r] == pointer@);
        match DmaDescriptorPointer::from_dma_descriptor(pointer, layout, &mut known_descr_addrs) {
            Some(config) => {
                map_insert(&mut res, r, config);
                proof {
                    lemma_take_to_set(order@, i as int);
                    assert(res@.dom() =~= order@.take(i + 1).to_set());
                }
            },
            None => {
                assert(!describable(
                    views[order@[i as int]],
                    layouts@[order@[i as int]],
                    known_before(views, layouts@, order@, i as int),
                ));
                return None;
            },
        }
        i += 1;
    }
    assert(order@.take(i as int) =~= order@);
    Some(res)
}

/// Describes the descriptors of the registers, looking at the registers in an order that is left
/// open. None where one of them has not its layout, or its entries cannot be made.
pub fn describe_descriptors(
    types: &FxHashMap<MmioAddress, PointerType>,
    layouts: &FxHashMap<MmioAddress, DescriptorLayoutCandidate>,
) -> (res: Option<FxHashMap<MmioAddress, DmaDescriptorPointer>>)
    requires
        layouts@.dom().subset_of(types@.dom()),
    ensures
        res is None ==> exists|order: Seq<MmioAddress>| #[trigger]
            enumerates(order, layouts@.dom()) && !all_describable(
                type_views(types@),
                layouts@,
                order,
            ),
        res matches Some(configs) ==> describe_all(configs@, type_views(types@), layouts@),
{
    let order = map_keys(layouts);
    describe_descriptors_in_order(types, layouts, &order)
}

/// The tables of pointers to descriptors can be described.
pub open spec fn all_tables_describable(
    types: Map<MmioAddress, PointerModel>,
    tables: Map<MmioAddress, Map<usize, DescriptorLayoutCandidate>>,
) -> bool {
    forall|r: MmioAddress| #[trigger]
        tables.contains_key(r) ==> table_describable(types[r], tables[r])
}

/// The pointers describe the tables of pointers to descriptors.
pub open spec fn describe_tables(
    configs: Map<MmioAddress, DmaDescriptorPointer>,
    types: Map<MmioAddress, PointerModel>,
    tables: Map<MmioAddress, Map<usize, DescriptorLayoutCandidate>>,
) -> bool {
    &&& configs.dom() == tables.dom()
    &&& forall|r: MmioAddress| #[trigger]
        configs.contains_key(r) ==> describes_table(configs[r], types[r], tables[r])
}

/// Describes the tables of pointers to descriptors. None where a descriptor has not its layout, or
/// its entries cannot be made.
pub fn describe_pointer_tables(
    types: &FxHashMap<MmioAddress, PointerType>,
    tables: &FxHashMap<MmioAddress, FxHashMap<usize, DescriptorLayoutCandidate>>,
) -> (res: Option<FxHashMap<MmioAddress, DmaDescriptorPointer>>)
    requires
        tables@.dom().subset_of(types@.dom()),
    ensures
        res is Some <==> all_tables_describable(type_views(types@), table_views(tables@)),
        res matches Some(configs) ==> describe_tables(
            configs@,
            type_views(types@),
            table_views(tables@),
        ),
{
    let ghost views = type_views(types@);
    let ghost layouts = table_views(tables@);
    let keys = map_keys(tables);
    let mut res: FxHashMap<MmioAddress, DmaDescriptorPointer> = FxHashMap::default();
    let mut i: usize = 0;
    assert(res@.dom() =~= keys@.take(0).to_set());
    while i < keys.len()
        invariant
            views == type_views(types@),
            layouts == table_views(tables@),
            tables@.dom().subset_of(types@.dom()),
            enumerates(keys@, tables@.dom()),
            i <= keys@.len(),
            res@.dom() == keys@.take(i as int).to_set(),
            forall|j: int|
                0 <= j < i ==> table_describable(views[#[trigger] keys@[j]], layouts[keys@[j]]),
            forall|r: MmioAddress| #[trigger]
                res@.contains_key(r) ==> describes_table(res@[r], views[r], layouts[r]),
        decreases keys.len() - i,
    {
        let r = keys[i];
        assert(keys@.to_set().contains(r));
        let pointer = map_get(types, &r).unwrap();
        let table = map_get(tables, &r).unwrap();
        assert(views[r] == pointer@);
        assert(layouts.contains_key(r) && layouts[r] == table@);
        match DmaDescriptorPointer::from_pointer_table(pointer, table) {
            Some(config) => {
                map_insert(&mut res, r, config);
                proof {
                    lemma_take_to_set(keys@, i as int);
                    assert(res@.dom() =~= keys@.take(i + 1).to_set());
                }
            },
            None => {
                return None;
            },
        }
        i += 1;
    }
    proof {
        assert(keys@.take(i as int) =~= keys@);
        assert(layouts.dom() =~= tables@.dom());
        assert forall|r: MmioAddress| #[trigger]
            layouts.contains_key(r) implies table_describable(views[r], layouts[r]) by {
            assert(keys@.to_set().contains(r));
            let j = choose|j: int| 0 <= j < keys@.len() && keys@[j] == r;
            assert(table_describable(views[keys@[j]], layouts[keys@[j]]));
        }
    }
    Some(res)
}

/// The heads are those of the registers, in an order that is left open.
pub open spec fn lists_heads(
    heads: Seq<DmaDescriptorHead>,
    configs: Map<MmioAddress, DmaDescriptorPointer>,
) -> bool {
    exists|order: Seq<MmioAddress>| #[trigger]
        enumerates(order, configs.dom()) && heads == order.map_values(
            |r: MmioAddress| DmaDescriptorHead { addr: r, descriptor: configs[r] },
        )
}

/// Adds the heads of all registers, apart from those in `skipped`.
pub fn add_heads(
    config: &mut DmaConfig,
    configs: FxHashMap<MmioAddress, DmaDescriptorPointer>,
    skipped: &FxHashMap<MmioAddress, DescriptorLayoutCandidate>,
)
    ensures
        final(config).known_sizes == old(config).known_sizes,
        exists|heads: Seq<DmaDescriptorHead>| #[trigger]
            lists_heads(heads, configs@.remove_keys(skipped@.dom()))
                && final(config).descriptor_heads@ == old(config).descriptor_heads@ + heads,
{
    let ghost all = configs@;
    let ghost first = config.descriptor_heads@;
    let ghost wanted = all.remove_keys(skipped@.dom());
    let keys = map_keys(&configs);
    let mut rest = configs;
    let ghost mut listed = Seq::<MmioAddress>::empty();
    let ghost mut heads = Seq::<DmaDescriptorHead>::empty();
    let mut i: usize = 0;
    proof {
        assert(keys@.take(0).to_set() =~= Set::empty());
        assert(listed.to_set() =~= wanted.restrict(Set::empty()).dom());
        assert(first + heads =~= first);
        assert(rest@ =~= all.remove_keys(keys@.take(0).to_set()));
    }
    while i < keys.len()
        invariant
            wanted == all.remove_keys(skipped@.dom()),
            enumerates(keys@, all.dom()),
            i <= keys@.len(),
            config.known_sizes == old(config).known_sizes,
            config.descriptor_heads@ == first + heads,
            rest@ == all.remove_keys(keys@.take(i as int).to_set()),
            enumerates(listed, wanted.restrict(keys@.take(i as int).to_set()).dom()),
            heads.len() == listed.len(),
            forall|j: int|
                0 <= j < heads.len() ==> #[trigger] heads[j] == (DmaDescriptorHead {
                    addr: listed[j],
                    descriptor: wanted[listed[j]],
                }),
        decreases keys.len() - i,
    {
        let r = keys[i];
        proof {
            assert(keys@.to_set().contains(r));
            lemma_take_to_set(keys@, i as int);
            assert(!keys@.take(i as int).contains(r));
        }
        let pointer = map_remove(&mut rest, &r).unwrap();
        assert(rest@ =~= all.remove_keys(keys@.take(i + 1).to_set()));
        let ghost now = wanted.restrict(keys@.take(i as int).to_set());
        let ghost more = wanted.restrict(keys@.take(i + 1).to_set());
        if map_contains(skipped, &r) {
            assert(more.dom() =~= now.dom());
        } else {
            let ghost before = config.descriptor_heads@;
            config.add_descriptor(r, pointer);
            proof {
                let head = DmaDescriptorHead { addr: r, descriptor: pointer };
                assert(wanted[r] == pointer);
                assert(first + heads.push(head) =~= before.push(head));
                assert(!listed.contains(r)) by {
                    assert(listed.contains(r) ==> listed.to_set().contains(r));
                }
                lemma_take_to_set(listed.push(r), listed.len() as int);
                assert(listed.push(r).take(listed.len() as int) =~= listed);
                assert(listed.push(r).take(listed.len() as int + 1) =~= listed.push(r));
                assert(listed.push(r).to_set() =~= more.dom());
                assert(listed.push(r).no_duplicates());
                listed = listed.push(r);
                heads = heads.push(head);
            }
        }
        i += 1;
    }
    proof {
        assert(keys@.take(i as int) =~= keys@);
        assert(wanted.restrict(keys@.to_set()).dom() =~= wanted.dom());
        assert(heads =~= listed.map_values(
            |r: MmioAddress| DmaDescriptorHead { addr: r, descriptor: wanted[r] },
        ));
        assert(lists_heads(heads, wanted));
    }
}

} // verus!
