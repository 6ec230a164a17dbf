//! Which addresses of the target are memory and which are registers.

use crate::common::Address;
use crate::fuzzware::fuzzware_config::{self, into_regions, region_views, regions, FuzzwareConfig};
use crate::text::{hex_padded, push_hex_padded};
use vstd::prelude::*;
use vstd::string::{StrSliceExecFns, StringExecFns};

verus! {

/// A range of addresses, both ends included.
#[derive(Debug, Clone, Copy, PartialEq, Eq, Structural)]
pub struct MemoryRange {
    pub start: Address,
    pub end: Address,
}

impl MemoryRange {
    /// `addr` lies in the range.
    pub open spec fn has(self, addr: Address) -> bool {
        self.start <= addr <= self.end
    }

    /// Whether `addr` lies in the range.
    pub fn contains(&self, addr: Address) -> (res: bool)
        ensures
            res == self.has(addr),
    {
        self.start <= addr && addr <= self.end
    }
}

/// One of the ranges holds `addr`.
pub open spec fn covered(ranges: Seq<MemoryRange>, addr: Address) -> bool {
    exists|i: int| 0 <= i < ranges.len() && (#[trigger] ranges[i]).has(addr)
}

/// The ranges of memory and of registers.
pub struct MapModel {
    pub ram: Seq<MemoryRange>,
    pub mmio: Seq<MemoryRange>,
}

impl MapModel {
    /// `addr` lies in memory.
    pub open spec fn is_ram(self, addr: Address) -> bool {
        covered(self.ram, addr)
    }

    /// `addr` lies among the registers.
    pub open spec fn is_mmio(self, addr: Address) -> bool {
        covered(self.mmio, addr)
    }
}

/// The memory map of a target.
#[derive(Debug, Clone)]
pub struct MemoryMap {
    pub ram_ranges: Vec<MemoryRange>,
    pub mmio_ranges: Vec<MemoryRange>,
}

impl View for MemoryMap {
    type V = MapModel;

    open spec fn view(&self) -> MapModel {
        MapModel { ram: self.ram_ranges@, mmio: self.mmio_ranges@ }
    }
}

/// The ranges that pairs of a first and a last address stand for.
pub open spec fn ranges_of(pairs: Seq<(u32, u32)>) -> Seq<MemoryRange> {
    pairs.map_values(|pair: (u32, u32)| MemoryRange { start: pair.0, end: pair.1 })
}

/// The ranges that pairs of a first and a last address stand for.
fn to_ranges(pairs: &Vec<(u32, u32)>) -> (res: Vec<MemoryRange>)
    ensures
        res@ == ranges_of(pairs@),
{
    let mut res: Vec<MemoryRange> = Vec::new();
    let mut i: usize = 0;
    while i < pairs.len()
        invariant
            i <= pairs@.len(),
            res@.len() == i,
            forall|j: int| 0 <= j < i ==> res@[j] == ranges_of(pairs@)[j],
        decreases pairs.len() - i,
    {
        res.push(MemoryRange { start: pairs[i].0, end: pairs[i].1 });
        i += 1;
    }
    assert(res@ =~= ranges_of(pairs@));
    res
}

/// Whether one of the ranges holds `addr`.
fn any_contains(ranges: &Vec<MemoryRange>, addr: Address) -> (res: bool)
    ensures
        res == covered(ranges@, addr),
{
    let mut i: usize = 0;
    while i < ranges.len()
        invariant
            i <= ranges@.len(),
            forall|j: int| 0 <= j < i ==> !(#[trigger] ranges@[j]).has(addr),
        decreases ranges.len() - i,
    {
        if ranges[i].contains(addr) {
            return true;
        }
        i += 1;
    }
    false
}

impl MemoryMap {
    /// The map of the given ranges.
    pub fn new(ram_ranges: Vec<(u32, u32)>, mmio_ranges: Vec<(u32, u32)>) -> (res: Self)
        ensures
            res@ == (MapModel { ram: ranges_of(ram_ranges@), mmio: ranges_of(mmio_ranges@) }),
    {
        MemoryMap { ram_ranges: to_ranges(&ram_ranges), mmio_ranges: to_ranges(&mmio_ranges) }
    }

    /// Whether `addr` lies in memory or among the registers.
    pub fn is_mapped(&self, addr: Address) -> (res: bool)
        ensures
            res == (self@.is_mmio(addr) || self@.is_ram(addr)),
    {
        self.is_mmio(addr) || self.is_ram(addr)
    }

    /// Whether `addr` lies among the registers.
    pub fn is_mmio(&self, addr: Address) -> (res: bool)
        ensures
            res == self@.is_mmio(addr),
    {
        any_contains(&self.mmio_ranges, addr)
    }

    /// Whether `addr` lies in memory.
    pub fn is_ram(&self, addr: Address) -> (res: bool)
        ensures
            res == self@.is_ram(addr),
    {
        any_contains(&self.ram_ranges, addr)
    }
}

/// A range as text.
pub open spec fn range_text(range: MemoryRange) -> Seq<char> {
    "Range "@ + hex_padded(range.start as nat, 8) + "-"@ + hex_padded(range.end as nat, 8)
}

/// Ranges as text, each on a line of its own.
pub open spec fn ranges_text(ranges: Seq<MemoryRange>) -> Seq<char>
    decreases ranges.len(),
{
    if ranges.len() == 0 {
        Seq::empty()
    } else {
        ranges_text(ranges.drop_last()) + range_text(ranges.last()) + "\n"@
    }
}

/// A memory map as text.
pub open spec fn map_text(map: MapModel) -> Seq<char> {
    "Ram ranges\n"@ + ranges_text(map.ram) + "MMIO ranges\n"@ + ranges_text(map.mmio)
}

/// Appends ranges as text, each on a line of its own.
fn push_ranges(text: &mut String, ranges: &Vec<MemoryRange>)
    ensures
        final(text)@ == old(text)@ + ranges_text(ranges@),
{
    let ghost first = text@;
    let mut i: usize = 0;
    assert(ranges@.take(0) =~= Seq::empty());
    assert(text@ =~= first + ranges_text(ranges@.take(0)));
    while i < ranges.len()
        invariant
            i <= ranges@.len(),
            text@ == first + ranges_text(ranges@.take(i as int)),
        decreases ranges.len() - i,
    {
        assert(ranges@.take(i + 1).drop_last() =~= ranges@.take(i as int));
        ranges[i].push_text(text);
        text.append("\n");
        assert(text@ =~= first + ranges_text(ranges@.take(i + 1)));
        i += 1;
    }
    assert(ranges@.take(i as int) =~= ranges@);
}

impl MemoryRange {
    /// Appends the range as text.
    fn push_text(&self, text: &mut String)
        ensures
            final(text)@ == old(text)@ + range_text(*self),
    {
        let ghost first = text@;
        text.append("Range ");
        push_hex_padded(text, self.start as u64, 8);
        text.append("-");
        push_hex_padded(text, self.end as u64, 8);
        assert(text@ =~= first + range_text(*self));
    }

    /// The range as text.
    pub fn to_string(&self) -> (res: String)
        ensures
            res@ == range_text(*self),
    {
        let mut res = String::new();
        self.push_text(&mut res);
        assert(res@ =~= range_text(*self));
        res
    }
}

impl MemoryMap {
    /// The map as text.
    pub fn to_string(&self) -> (res: String)
        ensures
            res@ == map_text(self@),
    {
        let mut res = String::new();
        res.append("Ram ranges\n");
        push_ranges(&mut res, &self.ram_ranges);
        res.append("MMIO ranges\n");
        push_ranges(&mut res, &self.mmio_ranges);
        assert(res@ =~= map_text(self@));
        res
    }
}

/// The greatest address that is too low to be taken as one of memory.
pub const MIN_ADDR: u32 = 0x8000;

/// The first address of the regions of the processor itself.
pub const SYSTEM_ADDR: u32 = 0xe0000000;

/// The text starts with `prefix`.
pub open spec fn starts_with(text: Seq<char>, prefix: Seq<char>) -> bool {
    prefix.len() <= text.len() && text.take(prefix.len() as int) == prefix
}

/// The region can be read and written, and is neither one of the processor itself nor too low.
pub open spec fn is_used(region: fuzzware_config::MemoryMap) -> bool {
    &&& region.permissions@.contains('r')
    &&& region.permissions@.contains('w')
    &&& region.address < SYSTEM_ADDR
    &&& region.address > MIN_ADDR
}

/// The region is one of registers, by its name.
pub open spec fn is_mmio_name(name: Seq<char>) -> bool {
    starts_with(name, "mmio"@)
}

/// The range of a region.
pub open spec fn region_range(region: fuzzware_config::MemoryMap) -> MemoryRange {
    MemoryRange { start: region.address, end: (region.address + region.size) as Address }
}

/// The ranges of the regions that are used and that are ones of registers or not.
pub open spec fn used_ranges(
    entries: Seq<(Seq<char>, fuzzware_config::MemoryMap)>,
    mmio: bool,
) -> Seq<MemoryRange>
    decreases entries.len(),
{
    if entries.len() == 0 {
        Seq::empty()
    } else {
        let before = used_ranges(entries.drop_last(), mmio);
        let (name, region) = entries.last();
        if is_used(region) && is_mmio_name(name) == mmio {
            before.push(region_range(region))
        } else {
            before
        }
    }
}

/// The regions that are used end inside the address space.
pub open spec fn regions_in_reach(
    entries: Seq<(Seq<char>, fuzzware_config::MemoryMap)>,
) -> bool {
    forall|i: int|
        0 <= i < entries.len() && is_used((#[trigger] entries[i]).1) ==> entries[i].1.address
            + entries[i].1.size <= Address::MAX
}

/// Why a configuration has no memory map.
#[derive(Debug, Clone, Copy, PartialEq, Eq, Structural)]
pub enum MapError {
    /// It lists no regions.
    NoRegions,
    /// A region ends beyond the address space.
    RegionTooLarge,
}

/// Whether the text has the character.
fn has_char(text: &str, c: char) -> (res: bool)
    ensures
        res == text@.contains(c),
{
    let len = text.unicode_len();
    let mut i: usize = 0;
    while i < len
        invariant
            len == text@.len(),
            i <= len,
            forall|j: int| 0 <= j < i ==> text@[j] != c,
        decreases len - i,
    {
        if text.get_char(i) == c {
            assert(text@[i as int] == c);
            return true;
        }
        i += 1;
    }
    false
}

/// Whether the text starts with `prefix`.
fn has_prefix(text: &str, prefix: &str) -> (res: bool)
    ensures
        res == starts_with(text@, prefix@),
{
    let len = prefix.unicode_len();
    if len > text.unicode_len() {
        return false;
    }
    let mut i: usize = 0;
    while i < len
        invariant
            len == prefix@.len(),
            len <= text@.len(),
            i <= len,
            forall|j: int| 0 <= j < i ==> text@[j] == prefix@[j],
        decreases len - i,
    {
        if text.get_char(i) != prefix.get_char(i) {
            assert(text@.take(len as int)[i as int] != prefix@[i as int]);
            return false;
        }
        i += 1;
    }
    assert(text@.take(len as int) =~= prefix@);
    true
}

impl MemoryMap {
    /// The map of the regions of a configuration that can be read and written.
    pub fn from_fuzzware_config(config: FuzzwareConfig) -> (res: Result<Self, MapError>)
        ensures
            res == Err::<MemoryMap, MapError>(MapError::NoRegions) <==> config.memory_map is None,
            res == Err::<MemoryMap, MapError>(MapError::RegionTooLarge)
                <==> config.memory_map is Some && !regions_in_reach(regions(config.memory_map->0)),
            res matches Ok(map) ==> map@ == (MapModel {
                ram: used_ranges(regions(config.memory_map->0), false),
                mmio: used_ranges(regions(config.memory_map->0), true),
            }),
    {
        let entries = match config.memory_map {
            Some(map) => into_regions(map),
            None => {
                return Err(MapError::NoRegions);
            },
        };
        let ghost views = region_views(entries@);
        let mut ram_ranges: Vec<MemoryRange> = Vec::new();
        let mut mmio_ranges: Vec<MemoryRange> = Vec::new();
        let mut i: usize = 0;
        assert(views.take(0) =~= Seq::empty());
        while i < entries.len()
            invariant
                config.memory_map is Some,
                views == regions(config.memory_map->0),
                views == region_views(entries@),
                i <= entries@.len(),
                forall|j: int|
                    0 <= j < i && is_used((#[trigger] views[j]).1) ==> views[j].1.address
                        + views[j].1.size <= Address::MAX,
                ram_ranges@ == used_ranges(views.take(i as int), false),
                mmio_ranges@ == used_ranges(views.take(i as int), true),
            decreases entries.len() - i,
        {
            let name = &entries[i].0;
            let region = &entries[i].1;
            proof {
                assert(views[i as int] == (name@, *region));
                assert(views.take(i + 1).drop_last() =~= views.take(i as int));
                assert(views.take(i + 1).last() == views[i as int]);
            }
            if has_char(region.permissions.as_str(), 'r') && has_char(
                region.permissions.as_str(),
                'w',
            ) && region.address < SYSTEM_ADDR && region.address > MIN_ADDR {
                assert(is_used(views[i as int].1));
                if region.size > Address::MAX - region.address {
                    return Err(MapError::RegionTooLarge);
                }
                let range = MemoryRange {
                    start: region.address,
                    end: region.address + region.size,
                };
                if has_prefix(name.as_str(), "mmio") {
                    mmio_ranges.push(range);
                } else {
                    ram_ranges.push(range);
                }
            }
            i += 1;
        }
        assert(views.take(i as int) =~= views);
        Ok(MemoryMap { ram_ranges, mmio_ranges })
    }
}

/// The name starts with `mmio`.
pub open spec fn names_registers(name: Seq<char>) -> bool {
    name.len() >= 4 && name[0] == 'm' && name[1] == 'm' && name[2] == 'i' && name[3] == 'o'
}

/// The region holds the address, can be read and written, and starts neither in the lowest memory
/// nor among the registers of the processor itself.
pub open spec fn region_holds(region: fuzzware_config::MemoryMap, addr: Address) -> bool {
    &&& region.address <= addr <= region.address + region.size
    &&& exists|i: int| 0 <= i < region.permissions@.len() && region.permissions@[i] == 'r'
    &&& exists|i: int| 0 <= i < region.permissions@.len() && region.permissions@[i] == 'w'
    &&& 0x8000 < region.address < 0xe000_0000
}

/// An address lies in memory where a region holds it that is not named as one of registers, and
/// among registers where one holds it that is.
pub proof fn lemma_map_of_regions(
    entries: Seq<(Seq<char>, fuzzware_config::MemoryMap)>,
    mmio: bool,
    addr: Address,
)
    requires
        regions_in_reach(entries),
    ensures
        covered(used_ranges(entries, mmio), addr) <==> exists|i: int|
            0 <= i < entries.len() && names_registers((#[trigger] entries[i]).0) == mmio
                && region_holds(entries[i].1, addr),
    decreases entries.len(),
{
    let ranges = used_ranges(entries, mmio);
    if entries.len() > 0 {
        let rest = entries.drop_last();
        let n = rest.len() as int;
        assert forall|i: int| 0 <= i < rest.len() && is_used(
            (#[trigger] rest[i]).1,
        ) implies rest[i].1.address + rest[i].1.size <= Address::MAX by {
            assert(rest[i] == entries[i]);
        }
        lemma_map_of_regions(rest, mmio, addr);
        let before = used_ranges(rest, mmio);
        assert(entries[n] == entries.last());
        let (name, region) = entries.last();
        reveal_strlit("mmio");
        assert(is_mmio_name(name) == names_registers(name)) by {
            if names_registers(name) {
                assert(name.take(4) =~= "mmio"@);
            }
            if is_mmio_name(name) {
                assert(name.take(4)[0] == name[0]);
                assert(name.take(4)[1] == name[1]);
                assert(name.take(4)[2] == name[2]);
                assert(name.take(4)[3] == name[3]);
            }
        }
        let range = region_range(region);
        if is_used(region) && is_mmio_name(name) == mmio {
            assert(ranges == before.push(range));
            assert(region_holds(region, addr) <==> range.has(addr));
            if range.has(addr) {
                assert(ranges[before.len() as int].has(addr));
            }
            if covered(before, addr) {
                let i = choose|i: int| 0 <= i < before.len() && (#[trigger] before[i]).has(addr);
                assert(ranges[i] == before[i]);
            }
            if covered(ranges, addr) && !range.has(addr) {
                let i = choose|i: int| 0 <= i < ranges.len() && (#[trigger] ranges[i]).has(addr);
                assert(before[i] == ranges[i]);
            }
        }
        if covered(before, addr) {
            let i = choose|i: int|
                0 <= i < rest.len() && names_registers((#[trigger] rest[i]).0) == mmio
                    && region_holds(rest[i].1, addr);
            assert(entries[i] == rest[i]);
        }
        if exists|i: int|
            0 <= i < entries.len() && names_registers((#[trigger] entries[i]).0) == mmio
                && region_holds(entries[i].1, addr) {
            let i = choose|i: int|
                0 <= i < entries.len() && names_registers((#[trigger] entries[i]).0) == mmio
                    && region_holds(entries[i].1, addr);
            if i < n {
                assert(rest[i] == entries[i]);
            }
        }
    }
}

} // verus!
