use dma_modeling::hoedur::bintrace::{Access, AccessTarget, AccessType, Trace, TraceEvent};
use dma_modeling::mem_view::{read, HistoryEntry, MemoryHistory, TimeOrder, TimeRange};

fn write(address: u32, size: u8, value: u32) -> TraceEvent {
    TraceEvent::Access(Access {
        target: AccessTarget::Ram,
        access_type: AccessType::Write,
        size,
        pc: 0,
        address,
        value,
    })
}

fn load(address: u32, size: u8, value: u32) -> TraceEvent {
    TraceEvent::Access(Access {
        target: AccessTarget::Ram,
        access_type: AccessType::Read,
        size,
        pc: 0,
        address,
        value,
    })
}

fn history(events: Vec<TraceEvent>) -> MemoryHistory {
    let mut memory = MemoryHistory::new();
    memory.load_trace(&Trace { events });
    memory
}

fn time_and_value(entry: Option<&HistoryEntry>) -> Option<(u32, u8)> {
    entry.map(|entry| (entry.trace_ind, entry.value))
}

#[test]
fn test_mem_view() {
    const ADDR: u32 = 0x12341338;
    const TESTVAL: u32 = 0x12341338;
    const OVERRIDE_VAL: u32 = 0x5678;

    // Simulate a simple trace loading
    let trace = Trace {
        events: vec![
            TraceEvent::Access(Access {
                target: AccessTarget::Ram,
                access_type: AccessType::Write,
                size: 4,
                pc: 0,
                address: ADDR,
                value: TESTVAL,
            }),
            TraceEvent::Access(Access {
                target: AccessTarget::Ram,
                access_type: AccessType::Write,
                size: 4,
                pc: 0,
                address: ADDR + 2,
                value: OVERRIDE_VAL,
            }),
        ],
    };

    let mut mem_view = MemoryHistory::new();
    mem_view.load_trace(&trace);

    // Test values at different timestamps
    assert_eq!(mem_view.get_u8_at(ADDR + 2, 0), Some((TESTVAL >> 16) as u8));
    assert_eq!(
        mem_view.get_u8_at(ADDR + 5, 1),
        Some((OVERRIDE_VAL >> 24) as u8)
    );
    assert_eq!(
        mem_view.get_u8_at(ADDR + 4, 1),
        Some((OVERRIDE_VAL >> 16) as u8)
    );

    assert_eq!(mem_view.get_u32_at(ADDR, 0), Some(TESTVAL));
    assert_eq!(
        mem_view.get_u32_at(ADDR, 1),
        Some((TESTVAL as u16) as u32 | (((OVERRIDE_VAL as u16) as u32) << 16))
    );

    // Test non-written memory
    assert_eq!(mem_view.get_u8_at(ADDR + 6, 1), None);
    assert_eq!(mem_view.get_u32_at(ADDR + 3, 1), None);

    // Test latest value
    assert_eq!(mem_view.get_latest_u32(ADDR + 2), Some(OVERRIDE_VAL));
    assert_eq!(mem_view.get_latest_u32(ADDR + 3), None);
    assert_eq!(
        mem_view.get_latest_u32(ADDR + 2),
        mem_view.get_u32_at(ADDR + 2, 1)
    );

    // Test between-based API
    assert_eq!(
        mem_view.get_between(ADDR + 4, ADDR + 6, 0, 1),
        Vec::<u8>::new()
    ); // First access does not modify 4-6
    assert_eq!(
        mem_view.get_between(ADDR + 1, ADDR + 3, 1, 2),
        Vec::<u8>::new()
    ); // Second access does not modify 0-1

    assert_eq!(
        mem_view.get_between(ADDR + 0, ADDR + 4, 0, 1),
        TESTVAL.to_le_bytes()
    ); // First access modifies 0-3
    assert_eq!(
        mem_view.get_between(ADDR + 2, ADDR + 6, 1, 2),
        OVERRIDE_VAL.to_le_bytes()
    ); // Second access modifies 2-5

    assert_eq!(
        mem_view.get_between(ADDR + 2, ADDR + 4, 0, 1),
        ((TESTVAL >> 16) as u16).to_le_bytes()
    ); // First access modifies 0-3
    assert_eq!(
        mem_view.get_between(ADDR + 4, ADDR + 6, 1, 2),
        ((OVERRIDE_VAL >> 16) as u16).to_le_bytes()
    ); // Second access modifies 2-5

    let mut full_final_val = Vec::with_capacity(6);
    full_final_val.extend_from_slice(&(TESTVAL as u16).to_le_bytes());
    full_final_val.extend_from_slice(&(OVERRIDE_VAL).to_le_bytes());
    assert_eq!(
        mem_view.get_between(ADDR + 0, ADDR + 6, 0, 2),
        full_final_val
    );
}

#[test]
fn a_write_is_read_back() {
    let memory = history(vec![write(0x100, 4, 0xaabbccdd), load(0x100, 4, 0xaabbccdd)]);
    let view = memory.mem_view_at(TimeRange::between(0, 2));
    assert_eq!(view.read::<u32>(0x100), Some(0xaabbccdd));
    assert_eq!(view.read::<u16>(0x102), Some(0xaabb));
    assert_eq!(view.read::<u8>(0x101), Some(0xcc));
    assert_eq!(view.read_u8(0x103), Some(0xaa));
    assert_eq!(view.read_u8(0x104), None);
    assert_eq!(view.read::<u32>(0x101), None);
    assert!(view.is_initialized(0x100));
    assert!(!view.is_initialized(0x104));
}

#[test]
fn a_write_keeps_the_other_bytes() {
    let memory = history(vec![write(0x100, 4, 0x11223344), write(0x102, 1, 0xff)]);
    assert_eq!(memory.get_u32_at(0x100, 0), Some(0x11223344));
    assert_eq!(memory.get_u32_at(0x100, 1), Some(0x11ff3344));
    assert_eq!(memory.get_latest_u8(0x102), Some(0xff));
    assert_eq!(memory.get_latest_u8(0x104), None);
}

#[test]
fn only_the_bytes_of_the_word_are_recorded() {
    let memory = history(vec![write(0x100, 2, 0x11223344), write(0x200, 8, 0x11223344)]);
    assert_eq!(memory.get_u8_at(0x101, 0), Some(0x33));
    assert_eq!(memory.get_u8_at(0x102, 0), None);
    assert_eq!(memory.get_u8_at(0x203, 1), Some(0x11));
    assert_eq!(memory.get_u8_at(0x204, 1), None);
}

#[test]
fn the_end_of_the_address_space_can_be_written() {
    let memory = history(vec![write(0xffff_fffe, 2, 0x1234)]);
    assert_eq!(memory.get_u8_at(0xffff_ffff, 0), Some(0x12));
    assert_eq!(memory.get_u32_at(0xffff_fffc, 0), None);
    assert_eq!(history(vec![]).get_u32_at(0xffff_ffff, 0), None);
    assert_eq!(history(vec![]).get_32_after(0xffff_fffe, 0), None);
    assert_eq!(history(vec![]).get_latest_u32(0xffff_fffd), None);
}

#[test]
fn a_view_ends_before_its_end() {
    let memory = history(vec![write(0x10, 1, 1), write(0x10, 1, 2), write(0x10, 1, 3)]);
    assert_eq!(memory.mem_view_at(TimeRange::between(0, 2)).read_u8(0x10), Some(2));
    assert_eq!(memory.mem_view_at(TimeRange::through(0, 2)).read_u8(0x10), Some(3));
    assert_eq!(memory.mem_view_at(TimeRange::between(1, 1)).read_u8(0x10), Some(1));
    assert_eq!(memory.mem_view_at(TimeRange::between(3, 9)).read_u8(0x10), None);
    assert!(!memory.mem_view_at(TimeRange::between(3, 9)).is_initialized(0x10));
}

#[test]
fn bounds_of_a_range() {
    let range = TimeRange::between(3, 7);
    assert_eq!((range.time_start(), range.time_end()), (3, 6));
    assert!(range.contains(3) && range.contains(6) && !range.contains(7) && !range.contains(2));
    let range = TimeRange::through(3, 7);
    assert_eq!((range.time_start(), range.time_end()), (3, 7));
    assert!(range.contains(7) && !range.contains(8));
}

#[test]
fn first_and_last_accesses() {
    let memory = history(vec![
        write(0x10, 1, 1),
        load(0x10, 1, 1),
        write(0x10, 1, 2),
        load(0x10, 1, 2),
        write(0x10, 1, 3),
    ]);
    let all = TimeRange::between(0, 5);
    assert_eq!(time_and_value(memory.next_read(0x10, &all)), Some((1, 1)));
    assert_eq!(time_and_value(memory.next_write(0x10, &all)), Some((0, 1)));
    assert_eq!(time_and_value(memory.last_read(0x10, &all)), Some((3, 2)));
    assert_eq!(time_and_value(memory.last_write(0x10, &all)), Some((4, 3)));
    assert_eq!(time_and_value(memory.last_write(0x10, &TimeRange::between(0, 4))), Some((2, 2)));
    assert_eq!(
        time_and_value(memory.get_history_entry(0x10, &all, AccessType::Read, TimeOrder::Last)),
        Some((3, 2))
    );
    assert_eq!(time_and_value(memory.latest_write_at(0x10, 3)), Some((2, 2)));
    assert_eq!(time_and_value(memory.latest_read_at(0x10, 0)), None);
    assert_eq!(time_and_value(memory.get_read_after(0x10, 1)), Some((3, 2)));
    assert_eq!(time_and_value(memory.get_write_after(0x10, 4)), None);
    assert_eq!(time_and_value(memory.next_read(0x11, &all)), None);
}

#[test]
fn values_between_two_times() {
    let memory = history(vec![write(0x10, 1, 1), write(0x10, 1, 2), write(0x10, 1, 3)]);
    // A value strictly after the start
    assert_eq!(memory.get_u8_between(0x10, 0, 3), Some(2));
    assert_eq!(memory.get_u8_between(0x10, 0, 1), None);
    assert_eq!(memory.get_u8_after(0x10, 1), Some(3));
    assert_eq!(memory.get_u8_after(0x10, 2), None);
    let writes: Vec<(u32, u8)> = memory
        .get_writes_between(0x10, 0, 2)
        .unwrap()
        .iter()
        .map(|entry| (entry.trace_ind, entry.value))
        .collect();
    assert_eq!(writes, vec![(0, 1), (1, 2)]);
    assert!(memory.get_writes_between(0x11, 0, 2).is_none());
    let latest = memory.get_latest_write_between(0x10, 0, 2).unwrap();
    assert_eq!((latest.trace_ind, latest.value), (1, 2));
    assert_eq!(memory.get_latest_writes_between(0x10, 0x12, 0, 3).len(), 1);
}

#[test]
fn a_word_after_a_time() {
    let memory = history(vec![write(0x10, 4, 1), write(0x10, 4, 0x04030201), write(0x10, 1, 9)]);
    assert_eq!(memory.get_32_after(0x10, 0), Some(0x04030201));
    assert_eq!(memory.get_32_after(0x10, 1), None);
}

#[test]
fn numbers_in_plain_memory() {
    let memory = [1u8, 2, 3, 4, 5];
    assert_eq!(read::<u8>(&memory, 4), 5);
    assert_eq!(read::<u16>(&memory, 1), 0x0302);
    assert_eq!(read::<u32>(&memory, 1), 0x05040302);
}

#[test]
fn the_text_of_a_history() {
    let memory = history(vec![write(0x1ab, 1, 0xcd), write(0x1ab, 1, 0xe), load(0x20, 1, 7)]);
    assert_eq!(
        memory.writes_text(),
        "Address: 1ab\n  trace_ind: 0, Value: cd\n  trace_ind: 1, Value: e\n"
    );
    assert_eq!(
        memory.writes_text_in_order(&vec![0x1ab]),
        "Address: 1ab\n  trace_ind: 0, Value: cd\n  trace_ind: 1, Value: e\n"
    );
    assert_eq!(history(vec![]).writes_text(), "");
}

#[test]
fn views_and_times_agree() {
    let memory = history(vec![write(0x10, 4, 0x04030201), write(0x12, 1, 9), write(0x20, 1, 1)]);
    for time in 0..3 {
        let view = memory.mem_view_at(TimeRange::through(0, time));
        assert_eq!(view.read_u8(0x12), memory.get_u8_at(0x12, time));
        assert_eq!(view.read::<u32>(0x10), memory.get_u32_at(0x10, time));
    }
    assert_eq!(memory.get_u8_at(0x12, 2), memory.get_latest_u8(0x12));
}
