use dma_modeling::dma_analysis::access_state::get_access_state;
use dma_modeling::dma_analysis::init_state::{find_pattern, get_initialization_state};
use dma_modeling::dma_analysis::pairs::{find_rx_tx_pairs, find_rx_tx_pairs_in_order};
use dma_modeling::dma_analysis::pointer_table::gather_pointer_table_types;
use dma_modeling::dma_analysis::register_analysis::analyze_register;
use dma_modeling::dma_analysis::registers::{classify_registers, classify_registers_in_order};
use dma_modeling::dma_analysis::type_info::{gather_type_info, MAX_UNINIT_LEN_PROFILE};
use dma_modeling::dma_analysis::types::{
    align_mmio_addr, is_pattern, is_pointer_aligned, is_trivial,
};
use dma_modeling::dma_analysis::{
    detect_dma, AccessAnalysisResult, AccessHistEntry, AccessState, AccessStateProfile,
    DetectError, DmaBuf, DmaBufMeta, FieldTypeGuess, InitPattern, InitStateCache,
    InitializationState, InitializationStateProfile, PointerCounterExample, PointerType, RxTxPair,
    SizeRange, TraceIdRange, TraceInfo,
};
use dma_modeling::dma_config::{DmaDescriptorField, SymbolizedValue};
use dma_modeling::dma_snippet::DmaAnalysisSnippet;
use dma_modeling::hoedur::bintrace::{Access, AccessTarget, AccessType, Trace, TraceEvent};
use dma_modeling::mem_map::MemoryMap;
use dma_modeling::mem_view::{MemoryHistory, TimeRange};
use dma_modeling::summary::summarize_snippets;
use fxhash::{FxHashMap, FxHashSet};

const BUF: u32 = 0x2000_0100;
const REG_A: u32 = 0x4000_0000;
const REG_B: u32 = 0x4000_0004;

fn access(
    target: AccessTarget,
    access_type: AccessType,
    size: u8,
    pc: u32,
    address: u32,
    value: u32,
) -> TraceEvent {
    TraceEvent::Access(Access {
        target,
        access_type,
        size,
        pc,
        address,
        value,
    })
}

fn write(address: u32, size: u8, value: u32) -> TraceEvent {
    access(AccessTarget::Ram, AccessType::Write, size, 0x80, address, value)
}

fn load(address: u32, size: u8) -> TraceEvent {
    access(AccessTarget::Ram, AccessType::Read, size, 0x90, address, 0)
}

fn set(register: u32, value: u32) -> TraceEvent {
    access(AccessTarget::Mmio, AccessType::Write, 4, 0xa0, register, value)
}

fn map() -> MemoryMap {
    MemoryMap::new(vec![(0x2000_0000, 0x2000_ffff)], vec![(0x4000_0000, 0x4fff_ffff)])
}

fn info(events: Vec<TraceEvent>) -> TraceInfo {
    TraceInfo::new(Trace { events }, map())
}

/// A buffer of 16 zeros, handed to a register and read from.
fn zeroed_buffer() -> Vec<TraceEvent> {
    vec![
        load(0x2000_8000, 4),
        write(BUF, 4, 0),
        write(BUF + 4, 4, 0),
        write(BUF + 8, 4, 0),
        write(BUF + 12, 4, 0),
        set(REG_A, BUF),
        load(BUF, 1),
    ]
}

/// A buffer that one register sends and the other one receives into, twice.
fn shared_buffer() -> Vec<TraceEvent> {
    vec![
        load(0x2000_8000, 4),
        write(BUF, 4, 0x11223344),
        set(REG_B, BUF),
        set(REG_A, BUF),
        load(BUF, 4),
        write(BUF, 4, 0x55667788),
        set(REG_B, BUF),
        set(REG_A, BUF),
        load(BUF, 4),
    ]
}

fn detect(events: Vec<TraceEvent>) -> Result<DmaAnalysisSnippet, DetectError> {
    detect_dma(map(), Trace { events })
}

fn buf(mmio_address: u32, sizes: Vec<(u32, u64, u64)>) -> DmaBufMeta {
    DmaBufMeta {
        mmio_address,
        dma_buf: DmaBuf {
            known_sizes: sizes
                .into_iter()
                .map(|(address, min, max)| (address, SizeRange { min, max }))
                .collect(),
        },
        config_pc: 1,
        access_pc: 2,
    }
}

#[test]
fn alignment() {
    assert!(is_pointer_aligned(0x2000_0004));
    assert!(!is_pointer_aligned(0x2000_0002));
    assert_eq!(align_mmio_addr(0x4000_0007), 0x4000_0004);
    assert_eq!(align_mmio_addr(0x4000_0008), 0x4000_0008);
}

#[test]
fn trivial_values_make_patterns_sooner() {
    for value in [0, 0xff, 0xffff, 0xffff_ffff] {
        assert!(is_trivial(value));
        assert!(is_pattern(1, 1, value, 1));
        assert!(!is_pattern(1, 0, value, 4));
    }
    assert!(!is_trivial(1));
    assert!(is_pattern(0, 8, 1, 1));
    assert!(!is_pattern(3, 4, 1, 1));
    assert!(is_pattern(1, 1, 1, 4));
    assert!(!is_pattern(1, 2, 1, 2));
}

#[test]
fn turning_a_pair_round_twice() {
    let pair = RxTxPair { ram_addr: 1, rx_reg: 2, tx_reg: 3 };
    assert_eq!(pair.create_reverse(), RxTxPair { ram_addr: 1, rx_reg: 3, tx_reg: 2 });
    assert_eq!(pair.create_reverse().create_reverse(), pair);
}

#[test]
fn profiles_of_states() {
    let mut profile = AccessStateProfile::new(&AccessState::NoAccesses);
    profile.merge(&AccessStateProfile::new(&AccessState::WriteBeforeRead {
        write_time: 1,
        read_time: None,
    }));
    assert_eq!(
        profile,
        AccessStateProfile {
            has_read_before_write: false,
            has_write_before_read: true,
            has_no_access: true,
        }
    );
    let pattern = |value| InitPattern {
        value,
        pattern_len: 1,
        repetitions: 8,
        repetitions_before: 0,
    };
    let state = |at_config, at_bulk_init| InitializationState::Pattern {
        latest_read_ind: None,
        latest_write_ind: Some(1),
        at_config: pattern(at_config),
        at_bulk_init,
    };
    let mut profile = InitializationStateProfile::default();
    assert!(profile.all_writes_trivial);
    profile.merge(&InitializationStateProfile::new(&state(0, Some(pattern(0xff)))));
    assert!(profile.has_pattern && profile.all_writes_trivial && !profile.has_used);
    profile.merge(&InitializationStateProfile::new(&state(0, Some(pattern(7)))));
    assert!(!profile.all_writes_trivial);
    let used = InitializationState::Used { latest_read_ind: None, latest_write_ind: None };
    assert!(!InitializationStateProfile::new(&used).all_writes_trivial);
    let fresh = InitializationState::Uninitialized { len: 1, len_before: 0 };
    assert!(InitializationStateProfile::new(&fresh).all_writes_trivial);
}

#[test]
fn merged_buffers_narrow_their_sizes() {
    let mut own = buf(REG_A, vec![(0x10, 1, 8), (0x20, 1, 4)]);
    assert!(own.merge_into(&buf(REG_A, vec![(0x10, 2, 6), (0x30, 1, 1)])));
    assert_eq!(own.dma_buf.known_sizes[&0x10], SizeRange { min: 2, max: 6 });
    assert_eq!(own.dma_buf.known_sizes[&0x20], SizeRange { min: 1, max: 4 });
    assert_eq!(own.dma_buf.known_sizes[&0x30], SizeRange { min: 1, max: 1 });
    assert!(!own.merge_into(&buf(REG_B, vec![(0x10, 3, 3)])));
    assert_eq!(own.dma_buf.known_sizes[&0x10], SizeRange { min: 2, max: 6 });
    assert!(own.is_compatible_with(&buf(REG_B, vec![])));
}

#[test]
fn writes_by_register() {
    let tinfo = info(zeroed_buffer());
    assert_eq!(tinfo.mmio_writes_by_addr.len(), 1);
    assert_eq!(tinfo.mmio_writes_by_addr[&REG_A].len(), 1);
    assert_eq!(tinfo.mmio_writes_by_addr[&REG_A][0].trace_ind, 5);
    assert_eq!(tinfo.mem.get_u32_at(BUF, 5), Some(0));
    assert_eq!(tinfo.mem.get_u8_at(REG_A, 6), None);
}

#[test]
fn a_zeroed_buffer_holds_a_pattern() {
    let tinfo = info(zeroed_buffer());
    let pattern = InitPattern {
        value: 0,
        pattern_len: 1,
        repetitions: 16,
        repetitions_before: 0,
    };
    assert_eq!(
        get_initialization_state(&tinfo, BUF, 0, 5, 0x800),
        Some(InitializationState::Pattern {
            latest_read_ind: None,
            latest_write_ind: Some(1),
            at_config: pattern,
            at_bulk_init: Some(pattern),
        })
    );
    // In the middle of the buffer
    assert_eq!(
        get_initialization_state(&tinfo, BUF + 4, 0, 5, 0x800),
        Some(InitializationState::Pattern {
            latest_read_ind: None,
            latest_write_ind: Some(2),
            at_config: InitPattern { repetitions: 12, ..pattern },
            at_bulk_init: Some(InitPattern {
                repetitions: 12,
                repetitions_before: 4,
                ..pattern
            }),
        })
    );
}

#[test]
fn patterns_of_several_bytes() {
    let tinfo = info(vec![
        load(0x2000_8000, 4),
        write(BUF, 4, 0x0102_0102),
        write(BUF + 4, 4, 0x0102_0102),
        set(REG_A, BUF),
    ]);
    let pattern = InitPattern {
        value: 0x0102,
        pattern_len: 2,
        repetitions: 4,
        repetitions_before: 0,
    };
    assert_eq!(
        get_initialization_state(&tinfo, BUF, 0, 3, 0x800),
        Some(InitializationState::Pattern {
            latest_read_ind: None,
            latest_write_ind: Some(1),
            at_config: pattern,
            at_bulk_init: Some(pattern),
        })
    );
}

#[test]
fn repetitions_on_both_sides() {
    let mut memory = MemoryHistory::new();
    memory.load_trace(&Trace {
        events: vec![write(0x100, 4, 0x01020304), write(0x104, 4, 0x01020304)],
    });
    let view = memory.mem_view_at(TimeRange::between(0, 2));
    let pattern = InitPattern {
        value: 0x01020304,
        pattern_len: 4,
        repetitions: 1,
        repetitions_before: 1,
    };
    assert_eq!(find_pattern(&view, 0x100, 0x108, 4), Some(pattern));
    assert_eq!(
        find_pattern(&view, 0x100, 0x108, 0),
        Some(InitPattern { repetitions: 2, repetitions_before: 0, ..pattern })
    );
    // One word alone is no pattern
    assert_eq!(find_pattern(&view, 0x104, 0x108, 0), None);
    assert_eq!(find_pattern(&view, 0x104, 0x104, 0), None);
}

#[test]
fn a_pattern_is_no_larger_than_what_holds_it() {
    let snippet = detect(vec![
        load(0x2000_8000, 4),
        write(BUF, 4, 0x01020304),
        write(BUF + 4, 4, 0x01020304),
        set(REG_A, BUF),
        load(BUF, 1),
    ])
    .unwrap();
    assert_eq!(
        snippet.detected_candidates[&REG_A].dma_buf.known_sizes,
        FxHashMap::from_iter([(BUF, SizeRange { min: 1, max: 8 })])
    );
}

#[test]
fn fresh_and_used_buffers() {
    let tinfo = info(vec![
        load(BUF, 4),
        write(BUF, 4, 0x11223344),
        set(REG_A, BUF),
        write(BUF + 0x20, 1, 1),
    ]);
    assert_eq!(
        get_initialization_state(&tinfo, BUF, 0, 2, 8),
        Some(InitializationState::Used {
            latest_read_ind: Some(0),
            latest_write_ind: Some(1),
        })
    );
    assert_eq!(
        get_initialization_state(&tinfo, BUF + 6, 0, 2, 8),
        Some(InitializationState::Uninitialized { len: 8, len_before: 2 })
    );
    // The scan in front of the address leaves the address space
    assert_eq!(get_initialization_state(&tinfo, 4, 0, 2, 8), None);
    assert_eq!(get_initialization_state(&tinfo, u32::MAX - 3, 0, 2, 8), None);
}

#[test]
fn accesses_after_a_pointer_write() {
    let tinfo = info(vec![
        load(BUF, 1),
        write(BUF, 1, 1),
        load(BUF + 2, 1),
        write(BUF + 3, 4, 1),
    ]);
    let state = |address, start| get_access_state(&tinfo, address, &TimeRange::between(start, 9));
    assert_eq!(
        state(BUF, 0),
        Some(AccessState::ReadBeforeWrite { read_time: 0, write_time: Some(1), offset: 0 })
    );
    assert_eq!(
        state(BUF, 1),
        Some(AccessState::WriteBeforeRead { write_time: 1, read_time: None })
    );
    assert_eq!(
        state(BUF + 1, 1),
        Some(AccessState::ReadBeforeWrite { read_time: 2, write_time: None, offset: 1 })
    );
    // A single byte is too small to be taken from this far away
    assert_eq!(state(BUF, 2), Some(AccessState::NoAccesses));
    assert_eq!(
        state(BUF + 3, 2),
        Some(AccessState::WriteBeforeRead { write_time: 3, read_time: None })
    );
    assert_eq!(state(BUF + 0x100, 0), Some(AccessState::NoAccesses));
    assert_eq!(state(u32::MAX, 0), None);
}

#[test]
fn the_types_of_fields() {
    let tinfo = info(vec![
        load(0x2000_8000, 4),
        write(BUF, 4, REG_B + 1),
        write(BUF + 4, 4, 0x2000_0200),
        write(BUF + 8, 4, 0x1234),
        set(REG_A, BUF),
        write(BUF + 12, 4, 0x5678),
    ]);
    let mut cache = InitStateCache::new(&tinfo, MAX_UNINIT_LEN_PROFILE, 0, 4);
    let guess = gather_type_info(&tinfo, BUF, 4, u32::MAX, &mut cache).unwrap();
    assert_eq!(guess.known_values, FxHashSet::from_iter([BUF]));
    assert_eq!(guess.to.len(), 16);
    match &guess.to[0] {
        FieldTypeGuess::Pointer { pointer } => {
            assert!(pointer.includes_mmio && pointer.includes_misaligned_mmio);
            assert!(pointer.known_values.is_empty() && pointer.to.is_empty());
        }
        other => panic!("{:?}", other),
    }
    match &guess.to[1] {
        FieldTypeGuess::Pointer { pointer } => {
            assert!(!pointer.includes_mmio);
            assert_eq!(pointer.known_values, FxHashSet::from_iter([0x2000_0200]));
            assert_eq!(pointer.to.len(), 16);
            assert!(pointer.init_state_profile.has_uninitialized);
            assert!(pointer.access_state_profile.has_no_access);
            assert_eq!(pointer.potential_pre_buf_sizes, FxHashMap::from_iter([(0x2000_0200, 0)]));
        }
        other => panic!("{:?}", other),
    }
    assert!(matches!(guess.to[2], FieldTypeGuess::HighEntropy { val: 0x1234 }));
    // A value that is written later counts where there is none yet
    assert!(matches!(guess.to[3], FieldTypeGuess::HighEntropy { val: 0x5678 }));
    assert!(matches!(guess.to[4], FieldTypeGuess::Zero));
}

#[test]
fn an_odd_pointer_may_lead_to_the_end_of_a_buffer() {
    let end = 0x2000_0207;
    let tinfo = info(vec![
        load(0x2000_8000, 4),
        write(BUF, 4, end),
        set(REG_A, BUF),
        load(0x2000_0204, 1),
        load(0x2000_0205, 1),
    ]);
    let mut cache = InitStateCache::new(&tinfo, MAX_UNINIT_LEN_PROFILE, 0, 2);
    let guess = gather_type_info(&tinfo, BUF, 2, u32::MAX, &mut cache).unwrap();
    match &guess.to[0] {
        FieldTypeGuess::Pointer { pointer } => {
            assert_eq!(pointer.potential_pre_buf_sizes, FxHashMap::from_iter([(end, 4)]));
        }
        other => panic!("{:?}", other),
    }
}

fn pointer(known: Vec<u32>, to: Vec<FieldTypeGuess>) -> PointerType {
    PointerType {
        known_values: known.into_iter().collect(),
        to,
        ..Default::default()
    }
}

#[test]
fn merged_guesses_keep_the_weakest_type() {
    let mut own = pointer(
        vec![0x10],
        vec![
            FieldTypeGuess::Zero,
            FieldTypeGuess::Pointer { pointer: pointer(vec![0x20], vec![]) },
            FieldTypeGuess::Pointer { pointer: pointer(vec![0x30], vec![]) },
            FieldTypeGuess::HighEntropy { val: 7 },
            FieldTypeGuess::Zero,
        ],
    );
    let other = pointer(
        vec![0x11],
        vec![
            FieldTypeGuess::Pointer { pointer: pointer(vec![0x40], vec![]) },
            FieldTypeGuess::Zero,
            FieldTypeGuess::HighEntropy { val: 9 },
            FieldTypeGuess::Zero,
        ],
    );
    assert!(own.merge(&other));
    assert_eq!(own.known_values, FxHashSet::from_iter([0x10, 0x11]));
    assert!(matches!(&own.to[0], FieldTypeGuess::Pointer { pointer } if pointer.known_values.contains(&0x40)));
    assert!(matches!(&own.to[1], FieldTypeGuess::Pointer { pointer } if pointer.includes_null));
    assert!(matches!(own.to[2], FieldTypeGuess::HighEntropy { val: 9 }));
    assert!(matches!(own.to[3], FieldTypeGuess::HighEntropy { val: 7 }));
    assert!(matches!(own.to[4], FieldTypeGuess::Zero));
    assert!(own.merge_field(&FieldTypeGuess::HighEntropy { val: 3 }, 4));
    assert!(matches!(own.to[4], FieldTypeGuess::HighEntropy { val: 3 }));
    assert!(!own.merge_field(&FieldTypeGuess::Zero, 5));
}

#[test]
fn merging_takes_the_smaller_size_in_front() {
    let mut own = pointer(vec![0x10], vec![]);
    own.potential_pre_buf_sizes.insert(0x10, 5);
    let mut other = pointer(vec![0x10], vec![]);
    other.potential_pre_buf_sizes.insert(0x10, 3);
    other.potential_pre_buf_sizes.insert(0x12, 9);
    own.merge(&other);
    assert_eq!(own.potential_pre_buf_sizes, FxHashMap::from_iter([(0x10, 3), (0x12, 9)]));
    // A pointer to registers alone takes over what the other one knows
    own.to.push(FieldTypeGuess::HighEntropy { val: 5 });
    let mut registers = PointerType { includes_mmio: true, ..Default::default() };
    assert!(registers.merge(&own));
    assert!(registers.includes_mmio);
    assert_eq!(registers.to.len(), 1);
    assert!(matches!(registers.to[0], FieldTypeGuess::HighEntropy { val: 5 }));
    assert_eq!(registers.known_values, FxHashSet::from_iter([0x10]));
    assert_eq!(registers.potential_pre_buf_sizes, own.potential_pre_buf_sizes);
}

#[test]
fn merging_a_guess_with_itself_changes_nothing() {
    let guess = || {
        pointer(
            vec![0x10],
            vec![
                FieldTypeGuess::Pointer { pointer: pointer(vec![0x20], vec![FieldTypeGuess::Zero]) },
                FieldTypeGuess::HighEntropy { val: 1 },
            ],
        )
    };
    let mut own = guess();
    own.merge(&guess());
    assert_eq!(own.known_values, guess().known_values);
    assert!(matches!(&own.to[0], FieldTypeGuess::Pointer { pointer } if !pointer.includes_null));
    assert!(matches!(own.to[1], FieldTypeGuess::HighEntropy { val: 1 }));
    assert_eq!(own.clone().to.len(), 2);
}

#[test]
fn tables_of_pointers_are_filled_in_over_time() {
    let tinfo = info(vec![
        load(0x2000_8000, 4),
        write(BUF, 4, 0x2000_0200),
        set(REG_A, BUF),
        write(BUF, 4, 0x2000_0300),
        write(BUF + 4, 4, 0x2000_0400),
    ]);
    let mut cache = InitStateCache::new(&tinfo, MAX_UNINIT_LEN_PROFILE, 0, 2);
    let guess = gather_type_info(&tinfo, BUF, 2, u32::MAX, &mut cache).unwrap();
    let table = gather_pointer_table_types(&tinfo, BUF, &guess, 2, 0, u32::MAX).unwrap();
    assert_eq!(table.len(), 2);
    assert_eq!(table[0].known_values, FxHashSet::from_iter([0x2000_0200, 0x2000_0300]));
    assert_eq!(table[1].known_values, FxHashSet::from_iter([0x2000_0400]));
    // Only a table that is handed over once is looked at, whatever the guess is
    let odd = pointer(vec![], vec![FieldTypeGuess::Zero]);
    assert!(gather_pointer_table_types(&tinfo, BUF, &odd, 2, 1, u32::MAX).unwrap().is_empty());
    assert!(gather_pointer_table_types(&tinfo, u32::MAX, &odd, 2, 0, 9).unwrap().is_empty());
    // A guess that nothing can be merged into
    let unknown = pointer(vec![], vec![FieldTypeGuess::Pointer { pointer: pointer(vec![], vec![]) }]);
    assert!(gather_pointer_table_types(&tinfo, BUF, &unknown, 2, 0, u32::MAX).is_none());
    // A field beyond the address space
    let two = pointer(vec![], vec![link(), link()]);
    assert!(gather_pointer_table_types(&tinfo, u32::MAX - 3, &two, 2, 0, u32::MAX).is_none());
    let value = pointer(vec![], vec![link(), FieldTypeGuess::HighEntropy { val: 1 }]);
    let table = gather_pointer_table_types(&tinfo, u32::MAX - 3, &value, 2, 0, u32::MAX).unwrap();
    assert_eq!(table.len(), 1);
}

fn link() -> FieldTypeGuess {
    FieldTypeGuess::Pointer { pointer: pointer(vec![0x10], vec![]) }
}

#[test]
fn a_zeroed_buffer_is_detected() {
    let snippet = detect(zeroed_buffer()).unwrap();
    assert_eq!(snippet.detected_candidates.len(), 1);
    let found = &snippet.detected_candidates[&REG_A];
    assert_eq!(found.mmio_address, REG_A);
    assert_eq!(
        found.dma_buf.known_sizes,
        FxHashMap::from_iter([(BUF, SizeRange { min: 1, max: 16 })])
    );
    assert_eq!((found.config_pc, found.access_pc), (0xa0, 0x90));
    assert_eq!(snippet.analysis_by_mmio_addr[&REG_A].len(), 1);
    let result = &snippet.analysis_by_mmio_addr[&REG_A][0];
    assert_eq!(
        result.trace_range,
        TraceIdRange { prev_id: 0, curr_id: 5, next_id: u32::MAX }
    );
    assert_eq!(
        result.access_state,
        AccessState::ReadBeforeWrite { read_time: 6, write_time: None, offset: 0 }
    );
    assert!(result.raw_type_guess.is_some());
    let guess = &snippet.guessed_type_by_mmio_addr[&REG_A];
    assert_eq!(guess.known_values, FxHashSet::from_iter([BUF]));
    assert!(guess.to.iter().all(|field| matches!(field, FieldTypeGuess::Zero)));
    assert!(snippet.mmio_pointer_counterexamples.is_empty());
    assert!(snippet.misaligned_mmio_writes.is_empty());
    assert!(snippet.discarded_candidates.is_empty());
    assert!(snippet.collided_descriptors.is_empty());
    assert!(snippet.ambiguous_candidate_mmio_addrs.is_empty());
    assert!(snippet.rx_tx_pairs.is_empty());
}

#[test]
fn a_buffer_that_is_overwritten_first_is_no_candidate() {
    let mut events = zeroed_buffer();
    events[6] = write(BUF, 1, 1);
    let snippet = detect(events).unwrap();
    assert!(snippet.detected_candidates.is_empty());
    assert_eq!(
        snippet.analysis_by_mmio_addr[&REG_A][0].access_state,
        AccessState::WriteBeforeRead { write_time: 6, read_time: None }
    );
}

#[test]
fn receiving_and_sending_registers_are_told_apart() {
    let snippet = detect(shared_buffer()).unwrap();
    let pair = RxTxPair { ram_addr: BUF, rx_reg: REG_A, tx_reg: REG_B };
    assert_eq!(snippet.rx_tx_pairs, vec![pair, pair]);
    assert_eq!(snippet.detected_candidates.len(), 1);
    assert_eq!(
        snippet.detected_candidates[&REG_A].dma_buf.known_sizes,
        FxHashMap::from_iter([(BUF, SizeRange { min: 1, max: u64::MAX })])
    );
    let results = &snippet.analysis_by_mmio_addr[&REG_A];
    assert_eq!(
        results.iter().map(|result| result.trace_range).collect::<Vec<TraceIdRange>>(),
        vec![
            TraceIdRange { prev_id: 0, curr_id: 3, next_id: 7 },
            TraceIdRange { prev_id: 3, curr_id: 7, next_id: u32::MAX },
        ]
    );
}

#[test]
fn counterexamples_of_registers() {
    let mut events = zeroed_buffer();
    events.push(access(AccessTarget::Mmio, AccessType::Write, 2, 0, 0x4000_0013, 1));
    events.push(set(0x4000_0020, 0x1234));
    events.push(access(AccessTarget::Mmio, AccessType::Write, 1, 0, 0x4000_0030, 1));
    events.push(set(0x4000_0040, 0));
    events.push(set(0x4000_0050, BUF + 1));
    events.push(set(0x4000_0060, REG_A));
    let snippet = detect(events).unwrap();
    let unaligned = |address, size| PointerCounterExample::UnalignedWrite { address, size };
    assert_eq!(
        snippet.mmio_pointer_counterexamples,
        FxHashMap::from_iter([
            (0x4000_0010, unaligned(0x4000_0013, 2)),
            (0x4000_0014, unaligned(0x4000_0013, 2)),
            (0x4000_0020, PointerCounterExample::NonPointerWrite(0x1234)),
            (0x4000_0030, unaligned(0x4000_0030, 1)),
        ])
    );
    assert_eq!(snippet.misaligned_mmio_writes.len(), 1);
    assert_eq!(snippet.misaligned_mmio_writes[&0x4000_0050].value, BUF + 1);
    let analysed: FxHashSet<u32> = snippet.analysis_by_mmio_addr.keys().copied().collect();
    assert_eq!(analysed, FxHashSet::from_iter([REG_A, 0x4000_0050]));
    // A misaligned pointer is no pointer to a descriptor
    assert!(!snippet.guessed_type_by_mmio_addr.contains_key(&0x4000_0050));
}

#[test]
fn a_candidate_with_a_counterexample_is_discarded() {
    let mut events = zeroed_buffer();
    events.push(access(AccessTarget::Mmio, AccessType::Write, 1, 0, REG_A + 1, 1));
    let snippet = detect(events).unwrap();
    assert!(snippet.detected_candidates.is_empty());
    assert_eq!(snippet.discarded_candidates.len(), 1);
    assert_eq!(snippet.discarded_candidates[0].mmio_address, REG_A);
}

#[test]
fn classes_of_registers() {
    let tinfo = info(vec![set(REG_A, BUF), set(REG_A, 0), set(REG_B, 1)]);
    let classes = classify_registers(&tinfo).unwrap();
    let in_order = classify_registers_in_order(&tinfo, &vec![REG_B, REG_A]).unwrap();
    for classes in [classes, in_order] {
        assert_eq!(classes.mmio_written_ram_addrs.len(), 1);
        assert_eq!(classes.mmio_written_ram_addrs[&REG_A].len(), 1);
        assert_eq!(classes.mmio_non_pointers.len(), 1);
    }
}

#[test]
fn the_analysis_of_one_register() {
    let tinfo = info(zeroed_buffer());
    let writes = tinfo.mmio_writes_by_addr[&REG_A].clone();
    let analysis = analyze_register(&tinfo, &writes, false).unwrap();
    assert_eq!(analysis.results.len(), 1);
    assert!(analysis.guessed_type.is_none());
    assert!(analysis.init_profile.has_pattern && !analysis.init_profile.has_used);
    assert!(analyze_register(&tinfo, &writes, true).unwrap().guessed_type.is_some());
}

fn result(trace_ind: u32, read_time: u32, write_ind: u32) -> AccessAnalysisResult {
    AccessAnalysisResult {
        trace_range: TraceIdRange { prev_id: 0, curr_id: trace_ind, next_id: u32::MAX },
        mmio_access: AccessHistEntry {
            trace_ind,
            access: Access {
                target: AccessTarget::Mmio,
                access_type: AccessType::Write,
                size: 4,
                pc: 0,
                address: REG_A,
                value: BUF,
            },
        },
        init_state: InitializationState::Used {
            latest_read_ind: None,
            latest_write_ind: Some(write_ind),
        },
        access_state: AccessState::ReadBeforeWrite { read_time, write_time: None, offset: 0 },
        raw_type_guess: None,
    }
}

#[test]
fn pairs_need_repeated_writes() {
    let registers = FxHashMap::from_iter([(BUF, FxHashSet::from_iter([REG_A, REG_B]))]);
    let twice = FxHashMap::from_iter([
        (REG_A, vec![result(10, 11, 5), result(20, 21, 15)]),
        (REG_B, vec![result(10, 15, 9), result(20, 25, 19)]),
    ]);
    let pair = RxTxPair { ram_addr: BUF, rx_reg: REG_A, tx_reg: REG_B };
    let pairs = find_rx_tx_pairs(&twice, &registers);
    assert_eq!(pairs, FxHashMap::from_iter([(REG_A, pair), (REG_B, pair)]));
    assert_eq!(find_rx_tx_pairs_in_order(&twice, &registers, &vec![BUF]), pairs);
    let once = FxHashMap::from_iter([
        (REG_A, vec![result(10, 11, 5)]),
        (REG_B, vec![result(10, 15, 9), result(20, 25, 19)]),
    ]);
    assert!(find_rx_tx_pairs(&once, &registers).is_empty());
}

#[test]
fn colliding_pairs_are_dropped() {
    let results = FxHashMap::from_iter([
        (REG_A, vec![result(10, 11, 5), result(20, 21, 15)]),
        (REG_B, vec![result(10, 15, 9), result(20, 25, 19)]),
    ]);
    let both = FxHashSet::from_iter([REG_A, REG_B]);
    let registers = FxHashMap::from_iter([(BUF, both.clone()), (BUF + 4, both)]);
    assert!(find_rx_tx_pairs(&results, &registers).is_empty());
}

#[test]
fn an_access_beyond_the_address_space_is_not_supported() {
    let res = detect(vec![write(0xffff_fffe, 4, 0)]);
    assert_eq!(res.err(), Some(DetectError::UnsupportedTrace));
    assert!(detect(vec![write(0xffff_fffc, 4, 0)]).is_ok());
}

#[test]
fn a_buffer_at_the_edge_is_out_of_reach() {
    let map = MemoryMap::new(vec![(0, 0xff)], vec![(0x4000_0000, 0x4fff_ffff)]);
    let res = detect_dma(map, Trace { events: vec![set(REG_A, 0x10)] });
    assert_eq!(res.err(), Some(DetectError::OutOfReach));
}

#[test]
fn an_empty_trace_tells_nothing() {
    let snippet = detect(vec![]).unwrap();
    assert!(snippet.analysis_by_mmio_addr.is_empty());
    assert!(snippet.detected_candidates.is_empty());
}

#[test]
fn snippets_are_minimized() {
    let mut snippet = DmaAnalysisSnippet::new();
    snippet
        .analysis_by_mmio_addr
        .insert(REG_A, vec![result(1, 1, 1), result(2, 2, 2), result(3, 3, 3), result(4, 4, 4)]);
    snippet.analysis_by_mmio_addr.insert(REG_B, vec![result(1, 1, 1), result(2, 2, 2)]);
    snippet.minimize(3);
    let kept: Vec<u32> = snippet.analysis_by_mmio_addr[&REG_A]
        .iter()
        .map(|result| result.trace_range.curr_id)
        .collect();
    assert_eq!(kept, vec![1, 4]);
    assert_eq!(snippet.analysis_by_mmio_addr[&REG_B].len(), 2);
    snippet.minimize(2);
    assert_eq!(snippet.analysis_by_mmio_addr[&REG_A].len(), 2);
    snippet.minimize(0);
    assert!(snippet.analysis_by_mmio_addr[&REG_A].is_empty());
    let pair = RxTxPair { ram_addr: BUF, rx_reg: REG_A, tx_reg: REG_B };
    snippet.set_rx_tx_pairs(&FxHashMap::from_iter([(REG_A, pair)]));
    assert_eq!(snippet.rx_tx_pairs, vec![pair]);
    assert!(DmaAnalysisSnippet::default().rx_tx_pairs.is_empty());
}

#[test]
fn profiles_are_merged_in_any_order() {
    let first = AccessStateProfile::new(&AccessState::NoAccesses);
    let second = AccessStateProfile::new(&AccessState::ReadBeforeWrite {
        read_time: 1,
        write_time: None,
        offset: 0,
    });
    let (mut one, mut other) = (first, second);
    one.merge(&second);
    other.merge(&first);
    assert_eq!(one, other);
    let fresh = InitializationState::Uninitialized { len: 1, len_before: 0 };
    let used = InitializationState::Used { latest_read_ind: None, latest_write_ind: None };
    let (first, second) =
        (InitializationStateProfile::new(&fresh), InitializationStateProfile::new(&used));
    let (mut one, mut other) = (first, second);
    one.merge(&second);
    other.merge(&first);
    assert_eq!(one, other);
    one.merge(&other);
    assert_eq!(one, other);
}

#[test]
fn what_is_detected_can_be_summarized() {
    let descriptor = 0x2000_0300;
    let events = || {
        vec![
            load(0x2000_8000, 4),
            write(descriptor, 4, REG_B),
            write(descriptor + 4, 4, BUF),
            set(REG_A, descriptor),
            load(BUF, 1),
        ]
    };
    let snippets = [detect(events()).unwrap(), detect(events()).unwrap()];
    assert!(snippets[0].detected_candidates.is_empty());
    let config = summarize_snippets(&snippets).unwrap().unwrap();
    assert_eq!(config.descriptor_heads.len(), 1);
    assert_eq!(config.descriptor_heads[0].addr, REG_A);
    let head = &config.descriptor_heads[0].descriptor;
    assert_eq!(head.known_values, vec![SymbolizedValue::Address(descriptor)]);
    let field = match &*head.to {
        DmaDescriptorField::Descriptor(descriptor) => {
            assert_eq!(descriptor.fields.len(), 1);
            &descriptor.fields[0]
        }
        other => panic!("{:?}", other),
    };
    assert_eq!(field.offset, 4);
    match &field.descriptor {
        DmaDescriptorField::Pointer(pointer) => {
            assert_eq!(pointer.known_values, vec![SymbolizedValue::Address(BUF)]);
        }
        other => panic!("{:?}", other),
    }
}
