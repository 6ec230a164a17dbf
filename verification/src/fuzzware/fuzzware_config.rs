//! The configuration of the emulated target.

use crate::common::Address;
use crate::scan::{first_from, lemma_first_from};
use indexmap::IndexMap;
use vstd::prelude::*;

verus! {

/// A table that keeps its entries in the order in which they were added.
#[verifier::external_type_specification]
#[verifier::external_body]
#[verifier::reject_recursive_types(K)]
#[verifier::reject_recursive_types(V)]
#[verifier::reject_recursive_types(S)]
pub struct ExIndexMap<K, V, S>(indexmap::IndexMap<K, V, S>);

/// A region of memory.
#[derive(Debug)]
pub struct MemoryMap {
    pub address: Address,
    pub size: Address,
    pub permissions: String,
}

/// The configuration of the emulated target.
#[derive(Debug)]
pub struct FuzzwareConfig {
    pub memory_map: Option<IndexMap<String, MemoryMap>>,
}

/// The regions of a table with their names, in the order of the table.
pub uninterp spec fn regions(m: IndexMap<String, MemoryMap>) -> Seq<(Seq<char>, MemoryMap)>;

/// The entries with the given name.
pub open spec fn named(entries: Seq<(Seq<char>, MemoryMap)>, name: Seq<char>) -> spec_fn(
    int,
) -> bool {
    |i: int| entries[i].0 == name
}

/// The place of the entry with the given name.
pub open spec fn region_place(entries: Seq<(Seq<char>, MemoryMap)>, name: Seq<char>) -> Option<
    int,
> {
    first_from(0, entries.len() as int, named(entries, name))
}

/// The entries with one more region: in the place of the one that has its name, or else at the end.
pub open spec fn with_region(
    entries: Seq<(Seq<char>, MemoryMap)>,
    name: Seq<char>,
    region: MemoryMap,
) -> Seq<(Seq<char>, MemoryMap)> {
    match region_place(entries, name) {
        Some(i) => entries.update(i, (name, region)),
        None => entries.push((name, region)),
    }
}

/// The entries with more regions, added in their order.
pub open spec fn with_regions(
    entries: Seq<(Seq<char>, MemoryMap)>,
    more: Seq<(Seq<char>, MemoryMap)>,
) -> Seq<(Seq<char>, MemoryMap)>
    decreases more.len(),
{
    if more.len() == 0 {
        entries
    } else {
        with_region(with_regions(entries, more.drop_last()), more.last().0, more.last().1)
    }
}

/// The number of regions that are replaced when more are added in their order.
pub open spec fn replaced_count(
    entries: Seq<(Seq<char>, MemoryMap)>,
    more: Seq<(Seq<char>, MemoryMap)>,
) -> nat
    decreases more.len(),
{
    if more.len() == 0 {
        0
    } else {
        let rest = more.drop_last();
        replaced_count(entries, rest) + if region_place(
            with_regions(entries, rest),
            more.last().0,
        ) is Some {
            1nat
        } else {
            0
        }
    }
}

/// `IndexMap::insert`: a region with the same name is replaced in its place and handed back, else
/// the region is added at the end.
#[verifier::external_body]
fn insert_region(
    m: &mut IndexMap<String, MemoryMap>,
    name: String,
    region: MemoryMap,
) -> (res: Option<MemoryMap>)
    ensures
        regions(*final(m)) == with_region(regions(*old(m)), name@, region),
        res is Some <==> region_place(regions(*old(m)), name@) is Some,
        res matches Some(replaced) ==> replaced == regions(*old(m))[region_place(
            regions(*old(m)),
            name@,
        )->0].1,
{
    m.insert(name, region)
}

/// The names and regions of a list.
pub open spec fn region_views(s: Seq<(String, MemoryMap)>) -> Seq<(Seq<char>, MemoryMap)> {
    s.map_values(|entry: (String, MemoryMap)| (entry.0@, entry.1))
}

/// `IndexMap::into_iter`: the regions with their names, in the order of the table.
#[verifier::external_body]
pub(crate) fn into_regions(m: IndexMap<String, MemoryMap>) -> (res: Vec<(String, MemoryMap)>)
    ensures
        region_views(res@) == regions(m),
{
    m.into_iter().collect()
}

impl Default for FuzzwareConfig {
    fn default() -> (res: Self)
        ensures
            res.memory_map is None,
    {
        FuzzwareConfig { memory_map: None }
    }
}

/// The regions of a table that may be absent.
pub open spec fn regions_of(m: Option<IndexMap<String, MemoryMap>>) -> Option<
    Seq<(Seq<char>, MemoryMap)>,
> {
    match m {
        Some(m) => Some(regions(m)),
        None => None,
    }
}

/// Both tables together, the second one replacing regions of the first.
pub open spec fn merged_regions(
    this: Option<Seq<(Seq<char>, MemoryMap)>>,
    that: Option<Seq<(Seq<char>, MemoryMap)>>,
) -> Option<Seq<(Seq<char>, MemoryMap)>> {
    match (this, that) {
        (Some(this), Some(that)) => Some(with_regions(this, that)),
        (None, that) => that,
        (this, None) => this,
    }
}

/// Adds the regions of `that`, and returns the number of regions that were replaced.
pub fn merge(
    this: &mut Option<IndexMap<String, MemoryMap>>,
    that: Option<IndexMap<String, MemoryMap>>,
) -> (res: usize)
    ensures
        regions_of(*final(this)) == merged_regions(regions_of(*old(this)), regions_of(that)),
        res == (match (regions_of(*old(this)), regions_of(that)) {
            (Some(this), Some(that)) => replaced_count(this, that),
            _ => 0,
        }),
{
    let that = match that {
        Some(that) => that,
        None => {
            return 0;
        },
    };
    let mut map = match this.take() {
        Some(map) => map,
        None => {
            *this = Some(that);
            return 0;
        },
    };
    let ghost first = regions(map);
    let ghost more = regions(that);
    let mut entries = into_regions(that);
    let ghost all = entries@;
    let n = entries.len();
    let mut replaced: usize = 0;
    let mut i: usize = 0;
    assert(more.take(0) =~= Seq::empty());
    assert(all.skip(0) =~= all);
    while i < n
        invariant
            more == region_views(all),
            all.len() == n,
            i <= n,
            entries@ == all.skip(i as int),
            regions(map) == with_regions(first, more.take(i as int)),
            replaced == replaced_count(first, more.take(i as int)),
            replaced <= i,
        decreases n - i,
    {
        let (name, region) = entries.remove(0);
        proof {
            assert(more[i as int] == (name@, region));
            assert(more.take(i + 1).drop_last() =~= more.take(i as int));
            assert(more.take(i + 1).last() == more[i as int]);
            assert(entries@ =~= all.skip(i + 1));
        }
        if insert_region(&mut map, name, region).is_some() {
            replaced += 1;
        }
        i += 1;
    }
    assert(more.take(i as int) =~= more);
    *this = Some(map);
    replaced
}

impl FuzzwareConfig {
    /// Adds the regions of another configuration, and returns the number of regions that were
    /// replaced.
    pub fn merge(&mut self, config: FuzzwareConfig) -> (res: usize)
        ensures
            regions_of(final(self).memory_map) == merged_regions(
                regions_of(old(self).memory_map),
                regions_of(config.memory_map),
            ),
            res == (match (regions_of(old(self).memory_map), regions_of(config.memory_map)) {
                (Some(this), Some(that)) => replaced_count(this, that),
                _ => 0,
            }),
    {
        self::merge(&mut self.memory_map, config.memory_map)
    }
}

/// The region that was added last under a name is the one that has it, and regions with other names
/// stay as they were.
pub proof fn lemma_with_region(
    entries: Seq<(Seq<char>, MemoryMap)>,
    name: Seq<char>,
    region: MemoryMap,
    other: Seq<char>,
)
    ensures
        ({
            let after = with_region(entries, name, region);
            let place = region_place(after, other);
            &&& name == other ==> place is Some && after[place->0].1 == region
            &&& name != other ==> place == region_place(entries, other) && (place is Some
                ==> after[place->0] == entries[place->0])
        }),
{
    let after = with_region(entries, name, region);
    let now = named(after, other);
    let before = named(entries, other);
    lemma_first_from(0, entries.len() as int, named(entries, name));
    lemma_first_from(0, entries.len() as int, before);
    lemma_first_from(0, after.len() as int, now);
    assert forall|i: int| 0 <= i < entries.len() implies #[trigger] now(i) == before(i) by {
        if region_place(entries, name) == Some(i) {
            assert(named(entries, name)(i));
        }
    }
    if region_place(entries, name) is None {
        assert(now(entries.len() as int) == (name == other));
    }
    match (region_place(entries, other), region_place(after, other)) {
        (Some(i), Some(j)) => {
            assert(now(i) && now(j));
            if j < i {
                assert(before(j));
            }
        },
        (Some(i), None) => {
            assert(now(i));
        },
        (None, Some(j)) => {
            if j < entries.len() {
                assert(before(j));
            }
        },
        (None, None) => {},
    }
}

} // verus!
