use dma_modeling::fuzzware::fuzzware_trace::{
    parse_matches, parse_mmio_line, parse_mmio_trace, parse_mmio_trace_it, parse_ram_trace,
    parse_ram_trace_regex, parse_ram_trace_slow, MalformedTrace, TraceIterator,
};
use dma_modeling::hoedur::bintrace::{Access, AccessTarget, AccessType, Trace, TraceEvent};

const RAM_TRACE: &str = "0: 12b6 1617 w 4 0x20000010:7c6e5ef4
1f: 8000abc 1617 r 1 0x20000011:5e
20: 12b6 0 w 2 0x2000fffe:1 2 abcd
21: ffffffff 1 r 4 0x0:ffffffff
";

fn ram(access_type: AccessType, size: u8, pc: u32, address: u32, value: u32) -> Access {
    Access {
        target: AccessTarget::Ram,
        access_type,
        size,
        pc,
        address,
        value,
    }
}

fn lines(text: &str) -> Vec<Vec<u8>> {
    text.lines().map(|line| line.as_bytes().to_vec()).collect()
}

#[test]
fn test_fuzzware_ram_trace_parsing() {
    let ram_trace = parse_ram_trace(RAM_TRACE.as_bytes()).unwrap();
    let ram_trace_reference = parse_ram_trace_slow(RAM_TRACE).unwrap();

    assert_eq!(ram_trace, ram_trace_reference);

    let mmio_trace =
        parse_mmio_trace(&lines("1ffe: 12b6 1617 r 4 64 4 0x40094008:7c6e5ef4 7c7c7c7c")).unwrap();

    assert!(!mmio_trace.is_empty());
}

#[test]
fn the_entries_of_a_memory_trace() {
    assert_eq!(
        parse_ram_trace(RAM_TRACE.as_bytes()),
        Ok(vec![
            (0, ram(AccessType::Write, 4, 0x12b6, 0x2000_0010, 0x7c6e5ef4)),
            (0x1f, ram(AccessType::Read, 1, 0x8000abc, 0x2000_0011, 0x5e)),
            (0x20, ram(AccessType::Write, 2, 0x12b6, 0x2000_fffe, 0xabcd)),
            (0x21, ram(AccessType::Read, 4, 0xffff_ffff, 0, 0xffff_ffff)),
        ])
    );
    assert_eq!(parse_ram_trace(b""), Ok(vec![]));
}

#[test]
fn a_memory_trace_may_end_without_a_line_break() {
    let entries = parse_ram_trace(b"1: 2 3 r 4 0x5:6").unwrap();
    assert_eq!(entries, vec![(1, ram(AccessType::Read, 4, 2, 5, 6))]);
    assert_eq!(parse_ram_trace_regex("1: 2 3 r 4 0x5:6"), Ok(entries));
}

#[test]
fn long_numbers_keep_their_lowest_bits() {
    let entries = parse_ram_trace(b"1: 2 3 w 4 0xA5:123456789\n").unwrap();
    assert_eq!(entries, vec![(1, ram(AccessType::Write, 4, 2, 0xa5, 0x2345_6789))]);
    assert_eq!(
        parse_ram_trace_regex("1: 2 3 w 4 0xa5:123456789\n"),
        Err(MalformedTrace)
    );
}

#[test]
fn cut_memory_traces_are_malformed() {
    for text in ["1", "1:", "1: 2", "1: 2 3", "1: 2 3 r 4", "1: 2 3 r 4 0x", "1: 2 3 r 4 0x5", "\n"] {
        assert_eq!(parse_ram_trace(text.as_bytes()), Err(MalformedTrace));
    }
    // A size has to be one of the bytes from `0` on
    assert_eq!(parse_ram_trace(b"1: 2 3 r / 0x5:6\n"), Err(MalformedTrace));
}

#[test]
fn a_cursor_reads_line_by_line() {
    let text = b"1: 2 3 r 4 0x5:6\n7: 8 9 w 1 0xa:b\nc";
    let mut cursor = TraceIterator::new(text);
    assert_eq!(cursor.next(), Ok(Some((1, ram(AccessType::Read, 4, 2, 5, 6)))));
    assert_eq!(cursor.parse_ind, 17);
    assert_eq!(cursor.next(), Ok(Some((7, ram(AccessType::Write, 1, 8, 0xa, 0xb)))));
    assert_eq!(cursor.next(), Err(MalformedTrace));
    assert_eq!(cursor.parse_ind, 34);
    let mut cursor = TraceIterator::new(b"");
    assert_eq!(cursor.next(), Ok(None));
}

#[test]
fn lines_that_do_not_match_are_passed_over() {
    let text = "some text\n1: 2 3 r 4 0x5:6\n1: 2 3 x 4 0x5:6\n";
    assert_eq!(
        parse_ram_trace_slow(text),
        Ok(vec![(1, ram(AccessType::Read, 4, 2, 5, 6))])
    );
    assert_eq!(parse_ram_trace_slow(""), Ok(vec![]));
}

#[test]
fn groups_of_matches() {
    let group = |text: &str| Some(text.as_bytes().to_vec());
    let groups = vec![
        group("whole"),
        group("1f"),
        group("20"),
        group("3"),
        group("r"),
        group("4"),
        group("ab"),
        group("1 +c"),
    ];
    assert_eq!(
        parse_matches(&vec![groups]),
        Ok(vec![(0x1f, ram(AccessType::Read, 4, 0x20, 0xab, 0xc))])
    );
    let missing = vec![None, group("1f"), None];
    assert_eq!(parse_matches(&vec![missing]), Err(MalformedTrace));
    assert_eq!(parse_matches(&vec![]), Ok(vec![]));
}

#[test]
fn the_entry_of_a_register_line() {
    assert_eq!(
        parse_mmio_line(b"1ffe: 12b6 1617 r 4 64 4 0x40094008:7c6e5ef4 7c7c7c7c"),
        Ok((
            0x1ffe,
            Access {
                target: AccessTarget::Mmio,
                access_type: AccessType::Read,
                size: 4,
                pc: 0x12b6,
                address: 0x4009_4008,
                value: 0x7c7c_7c7c,
            }
        ))
    );
    let entry = parse_mmio_line(b"+F: a  w 255 x y 0x1:2").unwrap();
    assert_eq!((entry.0, entry.1.access_type, entry.1.size), (15, AccessType::Write, 255));
    assert_eq!((entry.1.pc, entry.1.address, entry.1.value), (10, 1, 2));
}

#[test]
fn malformed_register_lines() {
    for line in [
        "",
        "1 2 3 r 4 5 6 0x7:8",
        "1: 2 3 r 4 5 6 0x7",
        "1: 2 3 r 4 5 6:8",
        "1: 2 3 r 4 5 6 0:8",
        "1: 2 3  4 5 6 0x7:8",
        "1: 2 3 r 256 5 6 0x7:8",
        "1: 2 3 r a 5 6 0x7:8",
        "1: 2 3 r 4 5 6 0x123456789:8",
        "x: 2 3 r 4 5 6 0x7:8",
        "1: + 3 r 4 5 6 0x7:8",
        "1: 2 3 r 4 5 6 0x7:8 ",
    ] {
        assert_eq!(parse_mmio_line(line.as_bytes()), Err(MalformedTrace));
    }
    assert_eq!(
        parse_mmio_trace_it(&lines("1: 2 3 r 4 5 6 0x7:8\nbad")),
        Err(MalformedTrace)
    );
}

#[test]
fn both_traces_in_one_order() {
    let ram_trace = b"1: 1 0 r 4 0x10:1\n3: 3 0 r 4 0x10:1\n3: 4 0 r 4 0x10:1\n";
    let mmio_lines = lines("2: 2 0 w 4 0 0 0x40:1\n3: 5 0 w 4 0 0 0x40:1\n9: 6 0 w 4 0 0 0x40:1");
    let trace = Trace::from_fuzzware_traces(ram_trace, &mmio_lines).unwrap();
    let pcs: Vec<u32> = trace
        .events
        .iter()
        .map(|event| match event {
            TraceEvent::Access(access) => access.pc,
        })
        .collect();
    assert_eq!(pcs, vec![1, 2, 3, 4, 5, 6]);
    assert_eq!(
        Trace::from_fuzzware_traces(b"x", &mmio_lines),
        Err(MalformedTrace)
    );
    assert_eq!(
        Trace::from_fuzzware_traces(ram_trace, &lines("x")),
        Err(MalformedTrace)
    );
}

#[test]
fn the_text_of_accesses() {
    let access = ram(AccessType::Write, 4, 0x12b6, 0x2000_0010, 0xab);
    let text = "RAM Access (Write) [ pc: 000012b6, size: 4, address: 20000010, value: 000000ab ]";
    assert_eq!(access.to_string(), text);
    let register = Access {
        target: AccessTarget::Mmio,
        access_type: AccessType::Read,
        ..access
    };
    assert_eq!(
        register.to_string(),
        "MMIO Access (Read) [ pc: 000012b6, size: 4, address: 20000010, value: 000000ab ]"
    );
    let trace = Trace {
        events: vec![TraceEvent::Access(access), TraceEvent::Access(access)],
    };
    assert_eq!(trace.to_string(), format!("{}\n{}\n", text, text));
}

#[test]
fn both_readers_agree_with_and_without_the_last_line_break() {
    for text in [
        "0: 1 2 r 0 0x3:4\nabcdef01: ffffffff 0 w 9 0x20000000:1 22 deadbeef\n",
        "0: 1 2 r 0 0x3:4\nabcdef01: ffffffff 0 w 9 0x20000000:1 22 deadbeef",
        "f: e d w 4 0xc: b",
        "",
    ] {
        let entries = parse_ram_trace(text.as_bytes()).unwrap();
        assert_eq!(entries.len(), text.lines().count());
        assert!(entries.iter().all(|entry| entry.1.target == AccessTarget::Ram));
        assert_eq!(parse_ram_trace_slow(text), Ok(entries));
    }
}
