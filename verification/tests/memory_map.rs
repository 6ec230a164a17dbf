use dma_modeling::fuzzware::fuzzware_config;
use dma_modeling::fuzzware::fuzzware_config::FuzzwareConfig;
use dma_modeling::mem_map::{MapError, MemoryMap, MemoryRange};
use indexmap::IndexMap;

fn region(address: u32, size: u32, permissions: &str) -> fuzzware_config::MemoryMap {
    fuzzware_config::MemoryMap {
        address,
        size,
        permissions: String::from(permissions),
    }
}

fn config(entries: Vec<(&str, fuzzware_config::MemoryMap)>) -> FuzzwareConfig {
    let mut memory_map: IndexMap<String, fuzzware_config::MemoryMap> = IndexMap::new();
    for (name, region) in entries {
        memory_map.insert(String::from(name), region);
    }
    FuzzwareConfig {
        memory_map: Some(memory_map),
    }
}

fn bounds(ranges: &Vec<MemoryRange>) -> Vec<(u32, u32)> {
    ranges.iter().map(|range| (range.start, range.end)).collect()
}

#[test]
fn ranges_hold_both_of_their_ends() {
    let range = MemoryRange { start: 0x100, end: 0x1ff };
    assert!(range.contains(0x100));
    assert!(range.contains(0x1ff));
    assert!(!range.contains(0xff));
    assert!(!range.contains(0x200));
}

#[test]
fn addresses_are_mapped_by_either_kind_of_range() {
    let map = MemoryMap::new(vec![(0x2000_0000, 0x2000_ffff)], vec![(0x4000_0000, 0x4fff_ffff)]);
    assert!(map.is_ram(0x2000_0010));
    assert!(!map.is_mmio(0x2000_0010));
    assert!(map.is_mmio(0x4000_0000));
    assert!(!map.is_ram(0x4000_0000));
    assert!(map.is_mapped(0x2000_ffff) && map.is_mapped(0x4fff_ffff));
    assert!(!map.is_mapped(0x3000_0000));
}

#[test]
fn the_text_of_a_map() {
    let map = MemoryMap::new(vec![(0x2000, 0xabcdef)], vec![(0x4000_0000, 0x4fff_ffff)]);
    assert_eq!(map.ram_ranges[0].to_string(), "Range 00002000-00abcdef");
    assert_eq!(
        map.to_string(),
        "Ram ranges\nRange 00002000-00abcdef\nMMIO ranges\nRange 40000000-4fffffff\n"
    );
}

#[test]
fn used_regions_make_the_map() {
    let map = MemoryMap::from_fuzzware_config(config(vec![
        ("ram", region(0x2000_0000, 0x1000, "rw-")),
        ("mmio_low", region(0x4000_0000, 0x2000, "rw-")),
        ("rom", region(0x0800_0000, 0x1000, "r-x")),
        ("write_only", region(0x0900_0000, 0x1000, "-w-")),
        ("system", region(0xe000_0000, 0x1000, "rw-")),
        ("low", region(0x8000, 0x1000, "rw-")),
        ("above_low", region(0x8001, 0x1000, "rwx")),
        ("below_system", region(0xdfff_ffff, 0x1000, "rw-")),
        ("a_mmio", region(0x5000_0000, 0, "rw-")),
    ]))
    .unwrap();
    assert_eq!(
        bounds(&map.ram_ranges),
        vec![
            (0x2000_0000, 0x2000_1000),
            (0x8001, 0x9001),
            (0xdfff_ffff, 0xe000_0fff),
            (0x5000_0000, 0x5000_0000),
        ]
    );
    assert_eq!(bounds(&map.mmio_ranges), vec![(0x4000_0000, 0x4000_2000)]);
}

#[test]
fn a_configuration_without_regions_has_no_map() {
    let res = MemoryMap::from_fuzzware_config(FuzzwareConfig::default());
    assert_eq!(res.err(), Some(MapError::NoRegions));
}

#[test]
fn a_region_beyond_the_address_space_is_refused() {
    let res = MemoryMap::from_fuzzware_config(config(vec![(
        "ram",
        region(0xd000_0000, 0x3000_0000, "rw-"),
    )]));
    assert_eq!(res.err(), Some(MapError::RegionTooLarge));
    let res = MemoryMap::from_fuzzware_config(config(vec![
        ("ram", region(0xd000_0000, 0x2fff_ffff, "rw-")),
        ("rom", region(0xd000_0000, 0x3000_0000, "r--")),
    ]));
    assert_eq!(bounds(&res.unwrap().ram_ranges), vec![(0xd000_0000, 0xffff_ffff)]);
}

#[test]
fn merged_regions_replace_the_ones_with_their_names() {
    let mut first = config(vec![
        ("ram", region(1, 1, "rw-")),
        ("rom", region(2, 2, "r-x")),
    ]);
    let replaced = first.merge(config(vec![
        ("mmio", region(3, 3, "rw-")),
        ("ram", region(4, 4, "rw-")),
    ]));
    assert_eq!(replaced, 1);
    let entries: Vec<(String, u32)> = first
        .memory_map
        .unwrap()
        .into_iter()
        .map(|(name, region)| (name, region.address))
        .collect();
    assert_eq!(
        entries,
        vec![
            (String::from("ram"), 4),
            (String::from("rom"), 2),
            (String::from("mmio"), 3),
        ]
    );
}

#[test]
fn merging_with_an_absent_table() {
    let mut first = FuzzwareConfig::default();
    assert_eq!(first.merge(config(vec![("ram", region(1, 1, "rw-"))])), 0);
    assert_eq!(first.memory_map.as_ref().unwrap().len(), 1);
    assert_eq!(first.merge(FuzzwareConfig::default()), 0);
    assert_eq!(first.memory_map.as_ref().unwrap()["ram"].address, 1);
    let mut table = None;
    assert_eq!(fuzzware_config::merge(&mut table, first.memory_map), 0);
    assert_eq!(table.unwrap().len(), 1);
}
