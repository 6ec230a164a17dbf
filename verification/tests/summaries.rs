use dma_modeling::dma_analysis::merge::is_mergeable;
use dma_modeling::dma_analysis::{
    AccessStateProfile, DmaBuf, DmaBufMeta, FieldTypeGuess, InitializationStateProfile,
    PointerCounterExample, PointerType, RxTxPair, SizeRange,
};
use dma_modeling::dma_config::{
    DmaConfig, DmaDescriptor, DmaDescriptorField, DmaDescriptorPointer, SymbolizedValue,
};
use dma_modeling::dma_snippet::DmaAnalysisSnippet;
use dma_modeling::fuzzware::fuzzware_dma_config::FuzzwareDmaConfig;
use dma_modeling::hoedur::bintrace::{Access, AccessTarget, AccessType};
use dma_modeling::summary::descriptors::{
    keep_compatible, synthesize_descriptor_pointer_table, synthesize_ram_based_descriptor_table,
    synthesize_ram_based_linked_descriptors,
};
use dma_modeling::summary::layout::determine_best_descriptor_candidate;
use dma_modeling::summary::ranking::most_voted_register;
use dma_modeling::summary::senders::extract_tx_registers;
use dma_modeling::summary::types::{
    extract_analyzed_mmio_addrs, extract_misaligned_pointer_regs, extract_pointer_counterexamples,
    gather_common_types,
};
use dma_modeling::summary::votes::{extract_buf_votes_from_fuzzware_snippets, tally_votes};
use dma_modeling::summary::{
    summarize_snippets, BufVoteEntry, DescriptorLayoutCandidate, SummaryError,
};
use fxhash::{FxHashMap, FxHashSet};

const REG: u32 = 0x4000_0000;
const OTHER_REG: u32 = 0x4000_0010;

fn pointer(known: Vec<u32>, to: Vec<FieldTypeGuess>) -> PointerType {
    PointerType {
        known_values: known.into_iter().collect(),
        to,
        ..Default::default()
    }
}

/// A field that points to a register.
fn source() -> FieldTypeGuess {
    FieldTypeGuess::Pointer {
        pointer: PointerType {
            includes_mmio: true,
            ..Default::default()
        },
    }
}

/// A field that points to a buffer that is read before it is written.
fn destination(address: u32) -> FieldTypeGuess {
    FieldTypeGuess::Pointer {
        pointer: PointerType {
            init_state_profile: InitializationStateProfile {
                has_uninitialized: true,
                ..Default::default()
            },
            access_state_profile: AccessStateProfile {
                has_read_before_write: true,
                ..Default::default()
            },
            potential_pre_buf_sizes: FxHashMap::from_iter([(address, 0)]),
            ..pointer(vec![address], vec![])
        },
    }
}

fn link(address: u32, to: Vec<FieldTypeGuess>) -> FieldTypeGuess {
    FieldTypeGuess::Pointer {
        pointer: pointer(vec![address], to),
    }
}

fn layout(src: usize, dst: usize, link: Option<usize>) -> DescriptorLayoutCandidate {
    DescriptorLayoutCandidate {
        src_ptr_index: src,
        dst_ptr_index: dst,
        link_ptr_index: link,
    }
}

fn buf(mmio_address: u32, sizes: Vec<(u32, u64)>) -> DmaBufMeta {
    DmaBufMeta {
        mmio_address,
        dma_buf: DmaBuf {
            known_sizes: sizes
                .into_iter()
                .map(|(address, max)| (address, SizeRange { min: 1, max }))
                .collect(),
        },
        config_pc: 1,
        access_pc: 2,
    }
}

fn snippet_with_buf(register: u32, sizes: Vec<(u32, u64)>) -> DmaAnalysisSnippet {
    let mut snippet = DmaAnalysisSnippet::new();
    snippet.detected_candidates.insert(register, buf(register, sizes));
    snippet
}

fn snippet_with_type(register: u32, guess: PointerType) -> DmaAnalysisSnippet {
    let mut snippet = DmaAnalysisSnippet::new();
    snippet.guessed_type_by_mmio_addr.insert(register, guess);
    snippet
}

fn addresses(values: &Vec<SymbolizedValue>) -> FxHashSet<u32> {
    values
        .iter()
        .map(|value| match value {
            SymbolizedValue::Address(address) => *address,
            SymbolizedValue::Symbol(name) => panic!("{}", name),
        })
        .collect()
}

fn descriptor(pointer: &DmaDescriptorPointer) -> &DmaDescriptor {
    match &*pointer.to {
        DmaDescriptorField::Descriptor(descriptor) => descriptor,
        other => panic!("{:?}", other),
    }
}

fn pointer_field(descriptor: &DmaDescriptor, index: usize) -> (usize, &DmaDescriptorPointer) {
    match &descriptor.fields[index].descriptor {
        DmaDescriptorField::Pointer(pointer) => (descriptor.fields[index].offset, pointer),
        other => panic!("{:?}", other),
    }
}

#[test]
fn votes_decide_who_sends() {
    let pair = RxTxPair { ram_addr: 1, rx_reg: 2, tx_reg: 3 };
    let snippet = |pairs| DmaAnalysisSnippet {
        rx_tx_pairs: pairs,
        ..DmaAnalysisSnippet::new()
    };
    let reverse = pair.create_reverse();
    assert_eq!(
        extract_tx_registers(&[snippet(vec![pair, pair]), snippet(vec![reverse])]),
        FxHashSet::from_iter([3])
    );
    assert_eq!(
        extract_tx_registers(&[snippet(vec![pair]), snippet(vec![reverse])]),
        FxHashSet::from_iter([2])
    );
    let other = RxTxPair { ram_addr: 9, rx_reg: 4, tx_reg: 5 };
    assert_eq!(
        extract_tx_registers(&[snippet(vec![pair, other])]),
        FxHashSet::from_iter([3, 5])
    );
    assert!(extract_tx_registers(&[]).is_empty());
}

#[test]
fn votes_for_buffers() {
    let bufs = vec![
        buf(REG, vec![(0x10, 8), (0x20, 4)]),
        buf(REG, vec![(0x10, 8)]),
        buf(REG, vec![(0x10, 6)]),
        buf(OTHER_REG, vec![(0x30, 1)]),
    ];
    let votes = tally_votes(&bufs, &FxHashSet::default(), &FxHashSet::default());
    assert_eq!(votes.len(), 2);
    assert_eq!(votes[&REG].num_votes, 3);
    assert!(votes[&REG].conflicts.is_empty());
    assert_eq!(
        votes[&REG].highest_voted_sizes(),
        FxHashMap::from_iter([
            (0x10, SizeRange { min: 1, max: 8 }),
            (0x20, SizeRange { min: 1, max: 4 }),
        ])
    );
    let skipped = FxHashSet::from_iter([REG]);
    assert_eq!(tally_votes(&bufs, &skipped, &FxHashSet::default()).len(), 1);
    assert_eq!(tally_votes(&bufs, &FxHashSet::default(), &skipped)[&OTHER_REG].num_votes, 1);
}

#[test]
fn votes_of_snippets() {
    let snippets = [
        snippet_with_buf(REG, vec![(0x10, 8)]),
        snippet_with_buf(REG, vec![(0x10, 8)]),
        snippet_with_buf(OTHER_REG, vec![(0x10, 8)]),
    ];
    let none = FxHashSet::default();
    let votes = extract_buf_votes_from_fuzzware_snippets(&snippets, &none, &none);
    assert_eq!(votes[&REG].num_votes, 2);
    assert_eq!(votes[&OTHER_REG].num_votes, 1);
    let mut entry = BufVoteEntry::from_buf(&buf(REG, vec![(0x10, 8)]));
    assert_eq!(entry.num_votes, 1);
    assert!(entry.add_buf(&buf(REG, vec![(0x10, 7)])));
    assert_eq!(entry.num_votes, 2);
    assert_eq!(entry.size_votes[&0x10].len(), 2);
}

#[test]
fn the_first_of_the_most_voted_registers() {
    assert_eq!(most_voted_register(vec![(1, 3), (2, 5), (3, 5), (4, 1)]), Some(2));
    assert_eq!(most_voted_register(vec![(7, 0)]), Some(7));
    assert_eq!(most_voted_register(vec![]), None);
}

#[test]
fn registers_that_snippets_name() {
    let mut first = DmaAnalysisSnippet::new();
    first
        .mmio_pointer_counterexamples
        .insert(1, PointerCounterExample::NonPointerWrite(7));
    first.analysis_by_mmio_addr.insert(2, vec![]);
    let mut second = DmaAnalysisSnippet::new();
    second
        .mmio_pointer_counterexamples
        .insert(3, PointerCounterExample::UnalignedWrite { address: 3, size: 1 });
    second.misaligned_mmio_writes.insert(
        4,
        Access {
            target: AccessTarget::Mmio,
            access_type: AccessType::Write,
            size: 4,
            pc: 0,
            address: 4,
            value: 1,
        },
    );
    let snippets = [first, second];
    assert_eq!(extract_pointer_counterexamples(&snippets), FxHashSet::from_iter([1, 3]));
    assert_eq!(extract_misaligned_pointer_regs(&snippets), FxHashSet::from_iter([4]));
    assert_eq!(extract_analyzed_mmio_addrs(&snippets), FxHashSet::from_iter([2]));
}

#[test]
fn guesses_of_several_snippets_are_merged() {
    let snippets = [
        snippet_with_type(REG, pointer(vec![0x10], vec![FieldTypeGuess::Zero])),
        snippet_with_type(REG, pointer(vec![0x20], vec![source()])),
        snippet_with_type(OTHER_REG, pointer(vec![0x30], vec![])),
    ];
    let none = FxHashSet::default();
    let types = gather_common_types(&snippets, &none, &none, &none).unwrap();
    assert_eq!(types.len(), 2);
    assert_eq!(types[&REG].known_values, FxHashSet::from_iter([0x10, 0x20]));
    assert!(matches!(&types[&REG].to[0], FieldTypeGuess::Pointer { pointer } if pointer.includes_mmio));
    let skipped = FxHashSet::from_iter([REG]);
    assert_eq!(gather_common_types(&snippets, &skipped, &none, &none).unwrap().len(), 1);
    assert_eq!(gather_common_types(&snippets, &none, &skipped, &none).unwrap().len(), 1);
    assert_eq!(gather_common_types(&snippets, &none, &none, &skipped).unwrap().len(), 1);
}

#[test]
fn layouts_without_links() {
    let fields = vec![source(), destination(0x10), FieldTypeGuess::Zero];
    assert_eq!(
        DescriptorLayoutCandidate::synthesize_from(&pointer(vec![1], fields), 0),
        Some(vec![layout(0, 1, None)])
    );
    let mut far = vec![source()];
    far.extend((0..4).map(|_| FieldTypeGuess::Zero));
    far.push(destination(0x10));
    assert_eq!(
        DescriptorLayoutCandidate::synthesize_from(&pointer(vec![1], far), 0),
        Some(vec![])
    );
    let fields = vec![source(), destination(0x10)];
    assert_eq!(
        DescriptorLayoutCandidate::synthesize_from(&pointer(vec![1], fields), 1),
        Some(vec![])
    );
}

#[test]
fn layouts_with_links() {
    let fields = vec![source(), destination(0x10), link(0x20, vec![])];
    assert_eq!(
        DescriptorLayoutCandidate::synthesize_from(&pointer(vec![1], fields), 0),
        Some(vec![layout(0, 1, Some(2)), layout(0, 1, None)])
    );
    // What the link leads to is no such descriptor
    let next = vec![FieldTypeGuess::Zero, destination(0x11), FieldTypeGuess::Zero];
    let fields = vec![source(), destination(0x10), link(0x20, next)];
    assert_eq!(
        DescriptorLayoutCandidate::synthesize_from(&pointer(vec![1], fields), 0),
        Some(vec![layout(0, 1, None)])
    );
    // What the link leads to has too few fields
    let fields = vec![source(), destination(0x10), link(0x20, vec![FieldTypeGuess::Zero])];
    assert_eq!(
        DescriptorLayoutCandidate::synthesize_from(&pointer(vec![1], fields), 0),
        None
    );
}

#[test]
fn the_best_layout() {
    let best = |candidates: Vec<DescriptorLayoutCandidate>| {
        determine_best_descriptor_candidate(&candidates)
    };
    assert_eq!(best(vec![layout(3, 4, None)]), layout(3, 4, None));
    // A link is better than none
    assert_eq!(best(vec![layout(0, 1, None), layout(2, 3, Some(4))]), layout(2, 3, Some(4)));
    assert_eq!(best(vec![layout(0, 4, Some(9)), layout(0, 1, None)]), layout(0, 4, Some(9)));
    // Then the distance of source and destination counts
    assert_eq!(best(vec![layout(0, 2, None), layout(5, 4, None)]), layout(5, 4, None));
    assert_eq!(best(vec![layout(0, 2, Some(3)), layout(0, 1, Some(7))]), layout(0, 1, Some(7)));
    // Then the size with the link
    assert_eq!(best(vec![layout(2, 3, Some(7)), layout(5, 6, Some(4))]), layout(5, 6, Some(4)));
    // Then the highest index
    assert_eq!(best(vec![layout(3, 4, None), layout(1, 2, None)]), layout(1, 2, None));
    assert_eq!(best(vec![layout(1, 2, Some(3)), layout(1, 2, Some(0))]), layout(1, 2, Some(0)));
    // Then the first index, and the link
    assert_eq!(best(vec![layout(3, 4, Some(1)), layout(1, 2, Some(4))]), layout(1, 2, Some(4)));
    assert_eq!(best(vec![layout(0, 4, Some(3)), layout(0, 4, Some(2))]), layout(0, 4, Some(2)));
    // The first of equals
    assert_eq!(best(vec![layout(1, 0, Some(3)), layout(0, 1, Some(3))]), layout(1, 0, Some(3)));
    assert_eq!(best(vec![layout(1, 0, None), layout(0, 1, None)]), layout(1, 0, None));
    assert_eq!((layout(5, 3, Some(1)).max_ind(), layout(5, 3, Some(1)).max_diff()), (5, 4));
    assert_eq!((layout(5, 3, Some(8)).max_ind(), layout(5, 3, Some(8)).max_diff()), (8, 5));
    assert_eq!((layout(5, 3, None).min_ind(), layout(5, 3, None).min_diff()), (3, 2));
}

#[test]
fn compatible_layouts() {
    assert!(layout(0, 1, None).is_compatible_with(&layout(0, 1, None)));
    assert!(layout(0, 1, None).is_compatible_with(&layout(1, 0, Some(4))));
    assert!(!layout(0, 1, None).is_compatible_with(&layout(0, 1, Some(4))));
    let layouts = FxHashMap::from_iter([
        (0, layout(0, 1, None)),
        (1, layout(1, 0, None)),
        (2, layout(0, 2, None)),
    ]);
    assert_eq!(
        keep_compatible(&layouts, &layout(0, 1, None)),
        FxHashMap::from_iter([(0, layout(0, 1, None)), (1, layout(1, 0, None))])
    );
}

#[test]
fn descriptors_in_memory() {
    let descriptor_type = || pointer(vec![0x100], vec![source(), destination(0x10)]);
    let mut types = FxHashMap::from_iter([(REG, descriptor_type())]);
    let linked = synthesize_ram_based_linked_descriptors(&types).unwrap();
    assert_eq!(linked, FxHashMap::from_iter([(REG, layout(0, 1, None))]));
    // A table whose first descriptor is not set up
    let mut fields: Vec<FieldTypeGuess> = (0..8).map(|_| FieldTypeGuess::Zero).collect();
    fields.extend(vec![source(), destination(0x10)]);
    types.insert(OTHER_REG, pointer(vec![0x200], fields));
    let tables = synthesize_ram_based_descriptor_table(&types).unwrap();
    assert_eq!(tables[&OTHER_REG], layout(8, 9, None));
    assert_eq!(synthesize_ram_based_linked_descriptors(&types).unwrap().len(), 1);
    // Too many buffers
    let mut wide = descriptor_type();
    if let FieldTypeGuess::Pointer { pointer } = &mut wide.to[1] {
        pointer.known_values = FxHashSet::from_iter([1, 2, 3, 4, 5, 6]);
    }
    let types = FxHashMap::from_iter([(REG, wide)]);
    assert!(synthesize_ram_based_linked_descriptors(&types).unwrap().is_empty());
}

#[test]
fn tables_of_pointers_to_descriptors() {
    let entry = |address| link(address, vec![source(), destination(0x10)]);
    let types = FxHashMap::from_iter([(
        REG,
        pointer(vec![0x100], vec![entry(0x20), entry(0x40), FieldTypeGuess::Zero]),
    )]);
    let tables = synthesize_descriptor_pointer_table(&types).unwrap();
    assert_eq!(
        tables[&REG],
        FxHashMap::from_iter([(0, layout(0, 1, None)), (1, layout(0, 1, None))])
    );
    // No zero at the end
    let types = FxHashMap::from_iter([(
        REG,
        pointer(vec![0x100], vec![entry(0x20), entry(0x40), entry(0x60)]),
    )]);
    assert!(synthesize_descriptor_pointer_table(&types).unwrap().is_empty());
    // A value that is no pointer
    let types = FxHashMap::from_iter([(
        REG,
        pointer(vec![0x100], vec![entry(0x20), FieldTypeGuess::HighEntropy { val: 1 }]),
    )]);
    assert!(synthesize_descriptor_pointer_table(&types).unwrap().is_empty());
    // A misaligned pointer
    let types = FxHashMap::from_iter([(
        REG,
        pointer(vec![0x100], vec![entry(0x20), entry(0x41), FieldTypeGuess::Zero]),
    )]);
    assert!(synthesize_descriptor_pointer_table(&types).unwrap().is_empty());
}

#[test]
fn a_linked_descriptor_is_described() {
    let next = vec![source(), destination(0x11), FieldTypeGuess::Zero];
    let guess = pointer(vec![0x100], vec![source(), destination(0x10), link(0x200, next)]);
    let mut known = FxHashSet::default();
    let described =
        DmaDescriptorPointer::from_dma_descriptor(&guess, &layout(0, 1, Some(2)), &mut known)
            .unwrap();
    assert_eq!(known, FxHashSet::from_iter([0x100]));
    assert!(!described.is_buf_end_ptr);
    assert_eq!(addresses(&described.known_values), FxHashSet::from_iter([0x100]));
    let fields = descriptor(&described);
    assert_eq!(fields.fields.len(), 2);
    assert!(fields.typedef.is_none());
    let (offset, to_buffer) = pointer_field(fields, 0);
    assert_eq!(offset, 4);
    assert_eq!(addresses(&to_buffer.known_values), FxHashSet::from_iter([0x10]));
    let (offset, to_next) = pointer_field(fields, 1);
    assert_eq!(offset, 8);
    assert_eq!(addresses(&to_next.known_values), FxHashSet::from_iter([0x200]));
    assert_eq!(descriptor(to_next).fields.len(), 1);
    // A destination that is no pointer cannot be described
    assert!(
        DmaDescriptorPointer::from_dma_descriptor(&guess, &layout(0, 3, None), &mut known).is_none()
    );
}

#[test]
fn pointers_to_the_ends_of_buffers() {
    let mut end = pointer(vec![0x17, 0x1f], vec![]);
    end.potential_pre_buf_sizes = FxHashMap::from_iter([(0x17, 8), (0x1f, 16)]);
    let guess = pointer(
        vec![0x100],
        vec![source(), FieldTypeGuess::Pointer { pointer: end }],
    );
    let described = DmaDescriptorPointer::from_dma_descriptor(
        &guess,
        &layout(0, 1, None),
        &mut FxHashSet::default(),
    )
    .unwrap();
    let (_, to_buffer) = pointer_field(descriptor(&described), 0);
    assert!(to_buffer.is_buf_end_ptr);
    assert!(to_buffer.known_values.is_empty());
    match &*to_buffer.to {
        DmaDescriptorField::Buffer(buffer) => {
            // Both end pointers lead to the same start
            assert_eq!(
                buffer.known_sizes,
                vec![(SymbolizedValue::Address(0x10), SizeRange { min: 16, max: 16 })]
            );
        }
        other => panic!("{:?}", other),
    }
}

#[test]
fn sizes_of_buffers_in_configurations() {
    let mut config = DmaConfig::default();
    config.add_known_buf_size(0x10, SizeRange { min: 1, max: 2 });
    config.add_known_buf_size(0x20, SizeRange { min: 1, max: 3 });
    config.add_known_buf_size(0x10, SizeRange { min: 4, max: 5 });
    config.add_known_buf_sizes(FxHashMap::from_iter([(0x20, SizeRange { min: 6, max: 7 })]));
    assert_eq!(
        config.known_sizes,
        vec![
            (SymbolizedValue::Address(0x10), SizeRange { min: 4, max: 5 }),
            (SymbolizedValue::Address(0x20), SizeRange { min: 6, max: 7 }),
        ]
    );
    let sizes = FxHashMap::from_iter([(0x10, SizeRange { min: 1, max: 2 })]);
    config.add_descriptor(REG, DmaDescriptorPointer::from_known_sizes(&sizes));
    assert_eq!(config.descriptor_heads[0].addr, REG);
    let config = FuzzwareDmaConfig::from_dma_config(config);
    assert_eq!(config.peripherals.len(), 1);
    assert_eq!(config.peripherals[0].0, "my_dma_periph");
    assert_eq!(
        config.peripherals[0].1.class.as_deref(),
        Some("fuzzware_harness.peripherals.generic_dma.GenericDMAC")
    );
    assert_eq!(config.peripherals[0].1.descriptors.descriptor_heads.len(), 1);
}

#[test]
fn the_most_voted_buffer_is_configured() {
    let snippets = [
        snippet_with_buf(REG, vec![(0x10, 8)]),
        snippet_with_buf(OTHER_REG, vec![(0x20, 4)]),
        snippet_with_buf(OTHER_REG, vec![(0x20, 4)]),
    ];
    let config = summarize_snippets(&snippets).unwrap().unwrap();
    assert_eq!(config.descriptor_heads.len(), 1);
    assert_eq!(config.descriptor_heads[0].addr, OTHER_REG);
    assert_eq!(
        config.known_sizes,
        vec![(SymbolizedValue::Address(0x20), SizeRange { min: 1, max: 4 })]
    );
    let head = &config.descriptor_heads[0].descriptor;
    assert_eq!(addresses(&head.known_values), FxHashSet::from_iter([0x20]));
    assert!(matches!(&*head.to, DmaDescriptorField::Buffer(buffer) if buffer.known_sizes.is_empty()));
}

#[test]
fn a_descriptor_is_configured_once() {
    let mut snippet =
        snippet_with_type(REG, pointer(vec![0x100], vec![source(), destination(0x10)]));
    // A register of a descriptor is not taken as one of a buffer
    snippet.detected_candidates.insert(REG, buf(REG, vec![(0x100, 8)]));
    let config = summarize_snippets(&[snippet]).unwrap().unwrap();
    assert_eq!(config.descriptor_heads.len(), 1);
    assert!(config.known_sizes.is_empty());
    let head = &config.descriptor_heads[0];
    assert_eq!(head.addr, REG);
    assert_eq!(pointer_field(descriptor(&head.descriptor), 0).0, 4);
}

#[test]
fn registers_with_counterexamples_are_left_out() {
    let mut snippet = snippet_with_buf(REG, vec![(0x10, 8)]);
    snippet
        .mmio_pointer_counterexamples
        .insert(REG, PointerCounterExample::NonPointerWrite(1));
    assert!(summarize_snippets(&[snippet]).unwrap().is_none());
    assert!(summarize_snippets(&[]).unwrap().is_none());
}

#[test]
fn guesses_that_cannot_be_merged() {
    let nothing_known = || PointerType::default();
    assert!(!is_mergeable(&nothing_known(), &nothing_known()));
    assert!(is_mergeable(&pointer(vec![1], vec![]), &nothing_known()));
    let snippets = [
        snippet_with_type(REG, nothing_known()),
        snippet_with_type(REG, nothing_known()),
    ];
    let none = FxHashSet::default();
    assert!(gather_common_types(&snippets, &none, &none, &none).is_none());
    assert_eq!(summarize_snippets(&snippets).err(), Some(SummaryError::IncompatibleTypes));
}

#[test]
fn guesses_with_missing_fields() {
    let fields = vec![source(), destination(0x10), link(0x20, vec![FieldTypeGuess::Zero])];
    let snippets = [snippet_with_type(REG, pointer(vec![1], fields))];
    assert_eq!(summarize_snippets(&snippets).err(), Some(SummaryError::MalformedTypes));
}
