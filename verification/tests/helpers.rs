use dma_modeling::serialization_helpers::{
    is_empty_map, is_empty_vec, is_false, is_none, is_zero, zero,
};
use dma_modeling::tables::{
    map_contains, push_at, set_copy, set_extend, set_includes, set_len,
};
use dma_modeling::text::{push_dec, push_hex, push_hex_padded, signed_hex};
use fxhash::{FxHashMap, FxHashSet};

#[test]
fn numbers_as_text() {
    let mut text = String::from("x");
    push_hex(&mut text, 0);
    push_hex(&mut text, 0xdeadbeef);
    push_dec(&mut text, 1234567890);
    push_hex_padded(&mut text, 0xab, 4);
    assert_eq!(text, "x0deadbeef123456789000ab");
    assert_eq!(signed_hex(0x40094008), "+0x40094008");
    assert_eq!(signed_hex(0), "+0x0");
    assert_eq!(signed_hex(u64::MAX), "+0xffffffffffffffff");
}

#[test]
fn what_is_left_out() {
    assert!(is_none::<u32>(&None));
    assert!(!is_none(&Some(0)));
    assert!(is_empty_map::<u32, u32>(&FxHashMap::default()));
    assert!(!is_empty_map(&FxHashMap::from_iter([(1, 2)])));
    assert!(is_empty_vec::<u32>(&vec![]));
    assert!(!is_empty_vec(&vec![0]));
    assert!(is_false(&false));
    assert!(!is_false(&true));
    assert!(is_zero(&0i16));
    assert!(!is_zero(&-1i16));
    assert!(is_zero(&0isize));
    assert!(is_zero(&zero()));
    assert!(!is_zero(&1isize));
    assert!(!is_zero(&-1isize));
    assert_eq!(zero(), 0);
}

#[test]
fn tables_of_lists() {
    let mut table: FxHashMap<u32, Vec<u32>> = FxHashMap::default();
    push_at(&mut table, 3, 10);
    push_at(&mut table, 3, 11);
    push_at(&mut table, 4, 12);
    assert_eq!(table[&3], vec![10, 11]);
    assert_eq!(table[&4], vec![12]);
    assert!(map_contains(&table, &3));
    assert!(!map_contains(&table, &5));
}

#[test]
fn sets_of_addresses() {
    let first: FxHashSet<u32> = FxHashSet::from_iter([1, 2]);
    let mut second: FxHashSet<u32> = FxHashSet::from_iter([2, 3]);
    assert!(!set_includes(&second, &first));
    set_extend(&mut second, &first);
    assert!(set_includes(&second, &first));
    assert_eq!(set_len(&second), 3);
    assert_eq!(set_copy(&second), second);
}
