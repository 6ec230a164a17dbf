//! The text traces of the emulator.
//!
//! A line of a memory trace reads `event: pc lr mode size 0xaddress:values`, a line of a register
//! trace `event: pc lr mode size index consumed 0xaddress:values`. All numbers but the sizes are
//! hexadecimal; of several values, which stand apart by blanks, the last one counts.

use crate::fuzzware::trace_laws::{
    chars_of, is_plain_trace, lemma_plain_traces, line_groups, RamLine,
};
use crate::hoedur::bintrace::{Access, AccessTarget, AccessType, Trace, TraceEvent};
use crate::scan::{first_from, last_before, lemma_first_from, lemma_last_before};
use itertools::Itertools;
use vstd::prelude::*;
use vstd::slice::slice_subrange;

verus! {

/// An access with the number of its event.
pub type TraceEntry = (u32, Access);

/// A line of a trace does not read as it should.
#[derive(Debug, Clone, Copy, PartialEq, Eq, Structural)]
pub struct MalformedTrace;

/// The value of a hexadecimal digit, and zero for anything else.
pub open spec fn nibble(c: u8) -> u32 {
    if 48 <= c <= 57 {
        (c - 48) as u32
    } else if 97 <= c <= 102 {
        (c - 87) as u32
    } else if 65 <= c <= 70 {
        (c - 55) as u32
    } else {
        0
    }
}

/// The lowest 32 bits of the number that hexadecimal digits stand for.
pub open spec fn hex_bits(digits: Seq<u8>) -> u32
    decreases digits.len(),
{
    if digits.len() == 0 {
        0
    } else {
        ((hex_bits(digits.drop_last()) * 16 + nibble(digits.last())) % 0x1_0000_0000) as u32
    }
}

/// The places that hold the byte `c`.
pub open spec fn holds(text: Seq<u8>, c: u8) -> spec_fn(int) -> bool {
    |i: int| text[i] == c
}

/// The first place from `from` on that holds the byte `c`.
pub open spec fn find_from(text: Seq<u8>, from: int, c: u8) -> Option<int> {
    first_from(from, text.len() as int, holds(text, c))
}

/// What follows the last blank.
pub open spec fn last_word(text: Seq<u8>) -> Seq<u8> {
    match last_before(text.len() as int, holds(text, 32)) {
        Some(i) => text.skip(i + 1),
        None => text,
    }
}

/// The direction that a mode stands for.
pub open spec fn mode_type(mode: u8) -> AccessType {
    if mode == 114 {
        AccessType::Read
    } else {
        AccessType::Write
    }
}

/// The end of the line that the place `from` lies in.
pub open spec fn line_end(text: Seq<u8>, from: int) -> int {
    match find_from(text, from, 10) {
        Some(end) => end,
        None => text.len() as int,
    }
}

/// The entry of the line of a memory trace that starts at `start`, and the start of the next line.
/// None where the text does not read as it should.
pub open spec fn ram_line(text: Seq<u8>, start: int) -> Option<(TraceEntry, int)> {
    match find_from(text, start, 58) {
        Some(colon) => match find_from(text, colon + 2, 32) {
            Some(pc_end) => match find_from(text, pc_end + 1, 32) {
                Some(lr_end) => match find_from(text, lr_end + 7, 58) {
                    Some(address_end) => {
                        let end = line_end(text, address_end + 1);
                        if text[lr_end + 3] < 48 {
                            None
                        } else {
                            Some(
                                (
                                    (
                                        hex_bits(text.subrange(start, colon)),
                                        Access {
                                            target: AccessTarget::Ram,
                                            access_type: mode_type(text[lr_end + 1]),
                                            size: (text[lr_end + 3] - 48) as u8,
                                            pc: hex_bits(text.subrange(colon + 2, pc_end)),
                                            address: hex_bits(
                                                text.subrange(lr_end + 7, address_end),
                                            ),
                                            value: hex_bits(
                                                last_word(text.subrange(address_end + 1, end)),
                                            ),
                                        },
                                    ),
                                    if end < text.len() {
                                        end + 1
                                    } else {
                                        end
                                    },
                                ),
                            )
                        }
                    },
                    None => None,
                },
                None => None,
            },
            None => None,
        },
        None => None,
    }
}

/// The next line starts after this one.
pub proof fn lemma_ram_line_advances(text: Seq<u8>, start: int)
    ensures
        ram_line(text, start) matches Some((_, next)) ==> start < next <= text.len(),
{
    if let Some((_, next)) = ram_line(text, start) {
        lemma_first_from(start, text.len() as int, holds(text, 58));
        let colon = find_from(text, start, 58)->0;
        lemma_first_from(colon + 2, text.len() as int, holds(text, 32));
        let pc_end = find_from(text, colon + 2, 32)->0;
        lemma_first_from(pc_end + 1, text.len() as int, holds(text, 32));
        let lr_end = find_from(text, pc_end + 1, 32)->0;
        lemma_first_from(lr_end + 7, text.len() as int, holds(text, 58));
        let address_end = find_from(text, lr_end + 7, 58)->0;
        lemma_first_from(address_end + 1, text.len() as int, holds(text, 10));
    }
}

/// The entries of a memory trace from `start` on. None where the text does not read as it should.
pub open spec fn ram_entries(text: Seq<u8>, start: int) -> Option<Seq<TraceEntry>>
    decreases text.len() - start,
{
    if start >= text.len() {
        Some(Seq::empty())
    } else {
        match ram_line(text, start) {
            Some((entry, next)) => if start < next <= text.len() {
                match ram_entries(text, next) {
                    Some(rest) => Some(seq![entry] + rest),
                    None => None,
                }
            } else {
                None
            },
            None => None,
        }
    }
}

/// The value of a hexadecimal digit, and zero for anything else.
fn hex_decode(c: u8) -> (res: u32)
    ensures
        res == nibble(c),
        res < 16,
{
    if 48 <= c && c <= 57 {
        (c - 48) as u32
    } else if 97 <= c && c <= 102 {
        (c - 87) as u32
    } else if 65 <= c && c <= 70 {
        (c - 55) as u32
    } else {
        0
    }
}

/// Moves one more hexadecimal digit into the lowest bits.
fn push_nibble(acc: u32, c: u8) -> (res: u32)
    ensures
        res == (acc * 16 + nibble(c)) % 0x1_0000_0000,
{
    let d = hex_decode(c);
    let wide = acc as u64 * 16 + d as u64;
    (wide % 0x1_0000_0000) as u32
}

/// Reads hexadecimal digits up to the byte `stop`, which has to follow, and returns their lowest
/// bits and the place of that byte.
fn read_hex_until(text: &[u8], from: usize, stop: u8) -> (res: Option<(u32, usize)>)
    ensures
        res is Some <==> find_from(text@, from as int, stop) is Some,
        res matches Some((value, end)) ==> {
            &&& find_from(text@, from as int, stop) == Some(end as int)
            &&& from <= end < text@.len()
            &&& value == hex_bits(text@.subrange(from as int, end as int))
        },
{
    let mut value: u32 = 0;
    let mut i: usize = from;
    if from > text.len() {
        return None;
    }
    assert(text@.subrange(from as int, from as int) =~= Seq::empty());
    while i < text.len()
        invariant
            from <= i <= text@.len(),
            find_from(text@, from as int, stop) == first_from(
                i as int,
                text@.len() as int,
                holds(text@, stop),
            ),
            value == hex_bits(text@.subrange(from as int, i as int)),
        decreases text@.len() - i,
    {
        let c = text[i];
        if c == stop {
            return Some((value, i));
        }
        proof {
            let more = text@.subrange(from as int, i + 1);
            assert(more.drop_last() =~= text@.subrange(from as int, i as int));
            assert(more.last() == c);
        }
        value = push_nibble(value, c);
        i += 1;
    }
    None
}

/// Finds the byte `c` from `from` on.
fn find_byte(text: &[u8], from: usize, c: u8) -> (res: Option<usize>)
    ensures
        res is Some <==> find_from(text@, from as int, c) is Some,
        res matches Some(i) ==> find_from(text@, from as int, c) == Some(i as int) && from <= i
            < text@.len() && text@[i as int] == c,
{
    let mut i: usize = from;
    while i < text.len()
        invariant
            from <= i,
            find_from(text@, from as int, c) == first_from(
                i as int,
                text@.len() as int,
                holds(text@, c),
            ),
        decreases text@.len() - i,
    {
        if text[i] == c {
            return Some(i);
        }
        i += 1;
    }
    None
}

/// A cursor into a memory trace.
#[derive(Debug)]
pub struct TraceIterator<'a> {
    pub map: &'a [u8],
    pub parse_ind: usize,
}

impl<'a> TraceIterator<'a> {
    /// A cursor at the start of a trace.
    pub fn new(map: &'a [u8]) -> (res: TraceIterator<'a>)
        ensures
            res.map@ == map@,
            res.parse_ind == 0,
    {
        TraceIterator { map, parse_ind: 0 }
    }

    /// Reads the next line, where there is one. Of several values, the last one is taken.
    pub fn next(&mut self) -> (res: Result<Option<TraceEntry>, MalformedTrace>)
        ensures
            final(self).map == old(self).map,
            old(self).parse_ind >= old(self).map@.len() ==> res == Ok::<
                Option<TraceEntry>,
                MalformedTrace,
            >(None) && final(self).parse_ind == old(self).parse_ind,
            old(self).parse_ind < old(self).map@.len() ==> (match ram_line(
                old(self).map@,
                old(self).parse_ind as int,
            ) {
                Some((entry, next)) => res == Ok::<Option<TraceEntry>, MalformedTrace>(Some(entry))
                    && final(self).parse_ind == next,
                None => res is Err && final(self).parse_ind == old(self).parse_ind,
            }),
    {
        let text = self.map;
        let start = self.parse_ind;
        let len = text.len();
        if start >= len {
            return Ok(None);
        }
        proof {
            lemma_ram_line_advances(text@, start as int);
        }
        let (event_id, colon) = match read_hex_until(text, start, 58) {
            Some(found) => found,
            None => {
                return Err(MalformedTrace);
            },
        };
        if len - colon < 2 {
            return Err(MalformedTrace);
        }
        let (pc, pc_end) = match read_hex_until(text, colon + 2, 32) {
            Some(found) => found,
            None => {
                return Err(MalformedTrace);
            },
        };
        let lr_end = match find_byte(text, pc_end + 1, 32) {
            Some(end) => end,
            None => {
                return Err(MalformedTrace);
            },
        };
        if len - lr_end < 7 {
            return Err(MalformedTrace);
        }
        let (address, address_end) = match read_hex_until(text, lr_end + 7, 58) {
            Some(found) => found,
            None => {
                return Err(MalformedTrace);
            },
        };
        let mode = text[lr_end + 1];
        let size = text[lr_end + 3];
        if size < 48 {
            return Err(MalformedTrace);
        }
        let (value, end) = read_last_value(text, address_end + 1);
        self.parse_ind = if end < len {
            end + 1
        } else {
            end
        };
        Ok(
            Some(
                (
                    event_id,
                    Access {
                        target: AccessTarget::Ram,
                        access_type: if mode == 114 {
                            AccessType::Read
                        } else {
                            AccessType::Write
                        },
                        size: size - 48,
                        pc,
                        address,
                        value,
                    },
                ),
            ),
        )
    }
}

/// Reads the values up to the end of the line, and returns the last one and the place of the end.
fn read_last_value(text: &[u8], from: usize) -> (res: (u32, usize))
    requires
        from <= text@.len(),
    ensures
        res.1 == line_end(text@, from as int),
        res.1 <= text@.len(),
        res.0 == hex_bits(last_word(text@.subrange(from as int, res.1 as int))),
{
    let mut value: u32 = 0;
    let mut i: usize = from;
    proof {
        let none = text@.subrange(from as int, from as int);
        assert(none =~= Seq::empty());
        assert(last_word(none) =~= Seq::empty());
    }
    while i < text.len()
        invariant
            from <= i <= text@.len(),
            find_from(text@, from as int, 10) == first_from(
                i as int,
                text@.len() as int,
                holds(text@, 10),
            ),
            value == hex_bits(last_word(text@.subrange(from as int, i as int))),
        decreases text@.len() - i,
    {
        let c = text[i];
        if c == 10 {
            return (value, i);
        }
        proof {
            lemma_last_word_grows(text@, from as int, i as int);
        }
        if c == 32 {
            value = 0;
        } else {
            value = push_nibble(value, c);
        }
        i += 1;
    }
    (value, i)
}

/// The last word with one more byte.
proof fn lemma_last_word_grows(text: Seq<u8>, from: int, i: int)
    requires
        0 <= from <= i < text.len(),
    ensures
        ({
            let before = last_word(text.subrange(from, i));
            let after = last_word(text.subrange(from, i + 1));
            &&& text[i] == 32 ==> after == Seq::<u8>::empty()
            &&& text[i] != 32 ==> after == before.push(text[i]) && hex_bits(after) == (hex_bits(
                before,
            ) * 16 + nibble(text[i])) % 0x1_0000_0000
        }),
{
    let now = text.subrange(from, i);
    let more = text.subrange(from, i + 1);
    let p = holds(now, 32);
    let q = holds(more, 32);
    lemma_last_before(now.len() as int, p);
    lemma_last_before(more.len() as int, q);
    assert(more.len() == now.len() + 1);
    assert forall|j: int| 0 <= j < now.len() implies #[trigger] p(j) == q(j) by {
        assert(more[j] == now[j]);
    }
    assert(more[now.len() as int] == text[i]);
    assert(q(now.len() as int) == (text[i] == 32));
    if text[i] == 32 {
        assert(last_word(more) =~= Seq::empty());
    } else {
        assert(last_before(more.len() as int, q) == last_before(now.len() as int, p)) by {
            match (last_before(more.len() as int, q), last_before(now.len() as int, p)) {
                (Some(a), Some(b)) => {
                    assert(q(a) && p(b));
                    assert(a < now.len());
                    assert(p(a) && q(b));
                },
                (Some(a), None) => {
                    assert(q(a));
                    assert(p(a));
                },
                (None, Some(b)) => {
                    assert(p(b));
                    assert(q(b));
                },
                (None, None) => {},
            }
        }
        assert(last_word(more) =~= last_word(now).push(text[i]));
        assert(last_word(more).drop_last() =~= last_word(now));
    }
}

/// Reads a memory trace.
pub fn parse_ram_trace(text: &[u8]) -> (res: Result<Vec<TraceEntry>, MalformedTrace>)
    ensures
        res is Ok <==> ram_entries(text@, 0) is Some,
        res matches Ok(entries) ==> ram_entries(text@, 0) == Some(entries@),
{
    let mut it = TraceIterator::new(text);
    let mut res: Vec<TraceEntry> = Vec::new();
    let ghost whole = ram_entries(text@, 0);
    assert(whole is Some ==> whole->0 =~= res@ + whole->0);
    while it.parse_ind < text.len()
        invariant
            it.map@ == text@,
            it.parse_ind <= text@.len(),
            whole == ram_entries(text@, 0),
            whole is Some <==> ram_entries(text@, it.parse_ind as int) is Some,
            whole is Some ==> whole->0 == res@ + ram_entries(text@, it.parse_ind as int)->0,
        decreases text@.len() - it.parse_ind,
    {
        let ghost start = it.parse_ind as int;
        let ghost before = res@;
        proof {
            lemma_ram_line_advances(text@, start);
        }
        match it.next() {
            Ok(Some(entry)) => {
                res.push(entry);
                proof {
                    let rest = ram_entries(text@, it.parse_ind as int);
                    if rest is Some {
                        assert(before + (seq![entry] + rest->0) =~= res@ + rest->0);
                    }
                }
            },
            _ => {
                return Err(MalformedTrace);
            },
        }
    }
    assert(res@ + Seq::<TraceEntry>::empty() =~= res@);
    Ok(res)
}

/// The value of a digit in the given base.
pub open spec fn digit_in(c: u8, base: nat) -> Option<nat> {
    let value: int = if 48 <= c <= 57 {
        c - 48
    } else if 97 <= c <= 122 {
        c - 87
    } else if 65 <= c <= 90 {
        c - 55
    } else {
        36
    };
    if value < base {
        Some(value as nat)
    } else {
        None
    }
}

/// The number that digits in the given base stand for. None where one of them is no such digit.
pub open spec fn digits_number(digits: Seq<u8>, base: nat) -> Option<nat>
    decreases digits.len(),
{
    if digits.len() == 0 {
        Some(0)
    } else {
        match (digits_number(digits.drop_last(), base), digit_in(digits.last(), base)) {
            (Some(before), Some(digit)) => Some(before * base + digit),
            _ => None,
        }
    }
}

/// The digits behind a plus sign, where there is one.
pub open spec fn unsigned(text: Seq<u8>) -> Seq<u8> {
    if text.len() > 1 && text[0] == 43 {
        text.skip(1)
    } else {
        text
    }
}

/// The number up to `max` that the text stands for, in the given base. A plus sign may stand in
/// front of it.
pub open spec fn number_of_text(text: Seq<u8>, base: nat, max: nat) -> Option<nat> {
    match digits_number(unsigned(text), base) {
        Some(value) if text.len() > 0 && value <= max => Some(value),
        _ => None,
    }
}

/// The word of the text with the index `k`; words stand apart by single blanks.
pub open spec fn nth_word(text: Seq<u8>, k: nat) -> Option<Seq<u8>>
    decreases k,
{
    match find_from(text, 0, 32) {
        Some(end) => if k == 0 {
            Some(text.take(end))
        } else {
            nth_word(text.skip(end + 1), (k - 1) as nat)
        },
        None => if k == 0 {
            Some(text)
        } else {
            None
        },
    }
}

/// The places of a colon before a blank.
pub open spec fn colon_blank(text: Seq<u8>) -> spec_fn(int) -> bool {
    |i: int| text[i] == 58 && text[i + 1] == 32
}

/// The first place of a colon before a blank.
pub open spec fn find_colon_blank(text: Seq<u8>) -> Option<int> {
    first_from(0, text.len() - 1, colon_blank(text))
}

/// The entry that the parts of a line of a register trace stand for.
pub open spec fn mmio_entry(
    event: Seq<u8>,
    pc: Seq<u8>,
    mode: Seq<u8>,
    size: Seq<u8>,
    address: Seq<u8>,
    values: Seq<u8>,
) -> Option<TraceEntry> {
    match (
        number_of_text(event, 16, u32::MAX as nat),
        number_of_text(pc, 16, u32::MAX as nat),
        number_of_text(size, 10, u8::MAX as nat),
        number_of_text(address.skip(2), 16, u32::MAX as nat),
        number_of_text(last_word(values), 16, u32::MAX as nat),
    ) {
        (Some(event), Some(pc), Some(size), Some(number), Some(value)) if mode.len() > 0
            && address.len() >= 2 => Some(
            (
                event as u32,
                Access {
                    target: AccessTarget::Mmio,
                    access_type: mode_type(mode[0]),
                    size: size as u8,
                    pc: pc as u32,
                    address: number as u32,
                    value: value as u32,
                },
            ),
        ),
        _ => None,
    }
}

/// The entry of a line of a register trace. None where the line does not read as it should.
pub open spec fn mmio_line(line: Seq<u8>) -> Option<TraceEntry> {
    match find_colon_blank(line) {
        Some(event_end) => {
            let rest = line.skip(event_end + 2);
            match find_from(rest, 0, 58) {
                Some(head_end) => {
                    let head = rest.take(head_end);
                    match (
                        nth_word(head, 0),
                        nth_word(head, 2),
                        nth_word(head, 3),
                        nth_word(head, 6),
                    ) {
                        (Some(pc), Some(mode), Some(size), Some(address)) => mmio_entry(
                            line.take(event_end),
                            pc,
                            mode,
                            size,
                            address,
                            rest.skip(head_end + 1),
                        ),
                        _ => None,
                    }
                },
                None => None,
            }
        },
        None => None,
    }
}

/// The contents of each line.
pub open spec fn line_views(lines: Seq<Vec<u8>>) -> Seq<Seq<u8>> {
    lines.map_values(|line: Vec<u8>| line@)
}

/// The entries of a register trace. None where some line does not read as it should.
pub open spec fn mmio_entries(lines: Seq<Seq<u8>>) -> Option<Seq<TraceEntry>> {
    if exists|i: int| 0 <= i < lines.len() && mmio_line(#[trigger] lines[i]) is None {
        None
    } else {
        Some(Seq::new(lines.len(), |i: int| mmio_line(lines[i])->0))
    }
}

/// A number does not shrink with more digits.
pub proof fn lemma_digits_grow(digits: Seq<u8>, base: nat, n: int)
    requires
        0 <= n <= digits.len(),
        base >= 1,
    ensures
        digits_number(digits, base) matches Some(value) ==> (digits_number(digits.take(n), base)
            matches Some(part) && part <= value),
    decreases digits.len() - n,
{
    if n < digits.len() {
        lemma_digits_grow(digits, base, n + 1);
        assert(digits.take(n + 1).drop_last() =~= digits.take(n));
        if let Some(part) = digits_number(digits.take(n), base) {
            assert(part <= part * base) by (nonlinear_arith)
                requires
                    base >= 1,
                    part >= 0,
            ;
        }
    } else {
        assert(digits.take(n) =~= digits);
    }
}

/// The value of a digit in the given base.
fn parse_digit(c: u8, base: u32) -> (res: Option<u32>)
    requires
        base <= 36,
    ensures
        res is Some <==> digit_in(c, base as nat) is Some,
        res matches Some(value) ==> digit_in(c, base as nat) == Some(value as nat) && value < base,
{
    let value: u32 = if 48 <= c && c <= 57 {
        (c - 48) as u32
    } else if 97 <= c && c <= 122 {
        (c - 87) as u32
    } else if 65 <= c && c <= 90 {
        (c - 55) as u32
    } else {
        36
    };
    if value < base {
        Some(value)
    } else {
        None
    }
}

/// Reads a number up to `max` in the given base.
fn parse_number(text: &[u8], base: u32, max: u32) -> (res: Option<u32>)
    requires
        2 <= base <= 36,
    ensures
        res is Some <==> number_of_text(text@, base as nat, max as nat) is Some,
        res matches Some(value) ==> number_of_text(text@, base as nat, max as nat) == Some(
            value as nat,
        ),
{
    if text.len() == 0 {
        return None;
    }
    let start: usize = if text.len() > 1 && text[0] == 43 {
        1
    } else {
        0
    };
    let ghost digits = unsigned(text@);
    let ghost n = base as nat;
    assert(digits =~= text@.skip(start as int));
    let mut value: u64 = 0;
    let mut i: usize = start;
    assert(digits.take(0) =~= Seq::empty());
    while i < text.len()
        invariant
            2 <= base <= 36,
            n == base,
            digits == unsigned(text@),
            digits == text@.skip(start as int),
            text@.len() > 0,
            start <= i <= text@.len(),
            digits_number(digits.take(i - start), n) == Some(value as nat),
            value <= max,
        decreases text@.len() - i,
    {
        let ghost k = i - start;
        proof {
            assert(digits.take(k + 1).drop_last() =~= digits.take(k));
            assert(digits.take(k + 1).last() == text@[i as int]);
            lemma_digits_grow(digits, n, k + 1);
        }
        match parse_digit(text[i], base) {
            Some(digit) => {
                assert(value * base + digit <= 0xffff_ffff * 36 + 36) by (nonlinear_arith)
                    requires
                        0 <= value <= 0xffff_ffff,
                        0 <= base <= 36,
                        0 <= digit <= 36,
                ;
                value = value * base as u64 + digit as u64;
                if value > max as u64 {
                    return None;
                }
            },
            None => {
                return None;
            },
        }
        i += 1;
    }
    assert(digits.take(i - start) =~= digits);
    Some(value as u32)
}

/// Finds the word of the text with the index `k`.
fn find_word(text: &[u8], k: usize) -> (res: Option<&[u8]>)
    ensures
        res is Some <==> nth_word(text@, k as nat) is Some,
        res matches Some(word) ==> nth_word(text@, k as nat) == Some(word@),
    decreases k,
{
    match find_byte(text, 0, 32) {
        Some(end) => if k == 0 {
            let word = slice_subrange(text, 0, end);
            assert(word@ =~= text@.take(end as int));
            Some(word)
        } else {
            let len = text.len();
            let rest = slice_subrange(text, end + 1, len);
            assert(rest@ =~= text@.skip(end + 1));
            find_word(rest, k - 1)
        },
        None => if k == 0 {
            Some(text)
        } else {
            None
        },
    }
}

/// What follows the last blank.
fn find_last_word(text: &[u8]) -> (res: &[u8])
    ensures
        res@ == last_word(text@),
{
    let len = text.len();
    let mut i: usize = len;
    while i > 0
        invariant
            i <= len,
            len == text@.len(),
            last_before(len as int, holds(text@, 32)) == last_before(i as int, holds(text@, 32)),
        decreases i,
    {
        if text[i - 1] == 32 {
            let res = slice_subrange(text, i, len);
            assert(res@ =~= last_word(text@));
            return res;
        }
        i -= 1;
    }
    text
}

/// Finds the first colon before a blank.
fn find_event_end(text: &[u8]) -> (res: Option<usize>)
    ensures
        res is Some <==> find_colon_blank(text@) is Some,
        res matches Some(i) ==> find_colon_blank(text@) == Some(i as int) && i + 1 < text@.len(),
{
    let len = text.len();
    let mut i: usize = 0;
    while i < len && len - i > 1
        invariant
            len == text@.len(),
            i <= len,
            find_colon_blank(text@) == first_from(i as int, len - 1, colon_blank(text@)),
        decreases len - i,
    {
        if text[i] == 58 && text[i + 1] == 32 {
            return Some(i);
        }
        i += 1;
    }
    None
}

/// Reads the parts of a line of a register trace.
fn parse_mmio_parts(
    event: &[u8],
    pc: &[u8],
    mode: &[u8],
    size: &[u8],
    address: &[u8],
    values: &[u8],
) -> (res: Option<TraceEntry>)
    ensures
        res == mmio_entry(event@, pc@, mode@, size@, address@, values@),
{
    if mode.len() == 0 || address.len() < 2 {
        return None;
    }
    let digits = slice_subrange(address, 2, address.len());
    assert(digits@ =~= address@.skip(2));
    let event_id = parse_number(event, 16, u32::MAX)?;
    let pc = parse_number(pc, 16, u32::MAX)?;
    let size = parse_number(size, 10, 255)?;
    let address = parse_number(digits, 16, u32::MAX)?;
    let value = parse_number(find_last_word(values), 16, u32::MAX)?;
    Some(
        (
            event_id,
            Access {
                target: AccessTarget::Mmio,
                access_type: if mode[0] == 114 {
                    AccessType::Read
                } else {
                    AccessType::Write
                },
                size: size as u8,
                pc,
                address,
                value,
            },
        ),
    )
}

/// Reads a line of a register trace.
pub fn parse_mmio_line(line: &[u8]) -> (res: Result<TraceEntry, MalformedTrace>)
    ensures
        res is Ok <==> mmio_line(line@) is Some,
        res matches Ok(entry) ==> mmio_line(line@) == Some(entry),
{
    let event_end = match find_event_end(line) {
        Some(end) => end,
        None => {
            return Err(MalformedTrace);
        },
    };
    let event = slice_subrange(line, 0, event_end);
    let len = line.len();
    let rest = slice_subrange(line, event_end + 2, len);
    assert(event@ =~= line@.take(event_end as int));
    assert(rest@ =~= line@.skip(event_end + 2));
    let head_end = match find_byte(rest, 0, 58) {
        Some(end) => end,
        None => {
            return Err(MalformedTrace);
        },
    };
    let head = slice_subrange(rest, 0, head_end);
    let values = slice_subrange(rest, head_end + 1, rest.len());
    assert(head@ =~= rest@.take(head_end as int));
    assert(values@ =~= rest@.skip(head_end + 1));
    match (find_word(head, 0), find_word(head, 2), find_word(head, 3), find_word(head, 6)) {
        (Some(pc), Some(mode), Some(size), Some(address)) => match parse_mmio_parts(
            event,
            pc,
            mode,
            size,
            address,
            values,
        ) {
            Some(entry) => Ok(entry),
            None => Err(MalformedTrace),
        },
        _ => Err(MalformedTrace),
    }
}

/// Reads the lines of a register trace.
pub fn parse_mmio_trace_it(lines: &Vec<Vec<u8>>) -> (res: Result<Vec<TraceEntry>, MalformedTrace>)
    ensures
        res is Ok <==> mmio_entries(line_views(lines@)) is Some,
        res matches Ok(entries) ==> mmio_entries(line_views(lines@)) == Some(entries@),
{
    let ghost views = line_views(lines@);
    let mut res: Vec<TraceEntry> = Vec::new();
    let mut i: usize = 0;
    while i < lines.len()
        invariant
            views == line_views(lines@),
            i <= lines@.len(),
            res@.len() == i,
            forall|j: int| 0 <= j < i ==> mmio_line(#[trigger] views[j]) == Some(res@[j]),
        decreases lines.len() - i,
    {
        assert(views[i as int] == lines@[i as int]@);
        match parse_mmio_line(lines[i].as_slice()) {
            Ok(entry) => res.push(entry),
            Err(error) => {
                return Err(error);
            },
        }
        i += 1;
    }
    proof {
        assert forall|j: int| 0 <= j < views.len() implies mmio_line(#[trigger] views[j]) is Some by {
            assert(mmio_line(views[j]) == Some(res@[j]));
        }
        assert(res@ =~= mmio_entries(views)->0);
    }
    Ok(res)
}

/// The accesses of entries.
pub open spec fn accesses_of(entries: Seq<TraceEntry>) -> Seq<Access> {
    entries.map_values(|entry: TraceEntry| entry.1)
}

/// Reads the accesses of a register trace.
pub fn parse_mmio_trace(lines: &Vec<Vec<u8>>) -> (res: Result<Vec<Access>, MalformedTrace>)
    ensures
        res is Ok <==> mmio_entries(line_views(lines@)) is Some,
        res matches Ok(accesses) ==> accesses@ == accesses_of(mmio_entries(line_views(lines@))->0),
{
    let entries = match parse_mmio_trace_it(lines) {
        Ok(entries) => entries,
        Err(error) => {
            return Err(error);
        },
    };
    let mut res: Vec<Access> = Vec::new();
    let mut i: usize = 0;
    while i < entries.len()
        invariant
            i <= entries@.len(),
            res@.len() == i,
            forall|j: int| 0 <= j < i ==> #[trigger] res@[j] == entries@[j].1,
        decreases entries.len() - i,
    {
        res.push(entries[i].1);
        i += 1;
    }
    assert(res@ =~= accesses_of(entries@));
    Ok(res)
}

/// The pattern of a line of a memory trace.
pub const RAM_LINE_PATTERN: &'static str =
    "([0-9a-f]+): ([0-9a-f]+) ([0-9a-f]+) ([rw]) ([\\d]) 0x([0-9a-f]+)\\:(.*)";

/// The bytes of the groups of all matches of a pattern in a text, the whole match first, as
/// `regex::Regex` finds them. None where the pattern is not one.
pub uninterp spec fn capture_groups(pattern: Seq<char>, text: Seq<char>) -> Option<
    Seq<Seq<Option<Seq<u8>>>>,
>;

/// The contents of the groups of a match.
pub open spec fn group_views(groups: Seq<Option<Vec<u8>>>) -> Seq<Option<Seq<u8>>> {
    groups.map_values(
        |group: Option<Vec<u8>>|
            match group {
                Some(bytes) => Some(bytes@),
                None => None,
            },
    )
}

/// The contents of the groups of all matches.
pub open spec fn match_views(matches: Seq<Vec<Option<Vec<u8>>>>) -> Seq<Seq<Option<Seq<u8>>>> {
    matches.map_values(|groups: Vec<Option<Vec<u8>>>| group_views(groups@))
}

/// Where the text is that of plain lines, the matches are these lines.
pub open spec fn finds_plain_lines(
    text: Seq<char>,
    matches: Seq<Seq<Option<Seq<u8>>>>,
) -> bool {
    forall|bytes: Seq<u8>, lines: Seq<RamLine>|
        text == chars_of(bytes) && #[trigger] is_plain_trace(bytes, lines) ==> matches
            == line_groups(lines)
}

/// `regex::Regex::new` and `captures_iter`: the bytes of the groups of all matches, which depend on
/// the pattern and the text alone. The matches do not overlap and are the leftmost ones, each group
/// takes as many characters as it can, and a dot stands for anything but a line break. So the pattern
/// of a line, which is a valid one, finds every line of a text of plain lines as one match, and the
/// parts of the line as its groups.
#[verifier::external_body]
fn find_matches(pattern: &str, text: &str) -> (res: Option<Vec<Vec<Option<Vec<u8>>>>>)
    ensures
        res is Some <==> capture_groups(pattern@, text@) is Some,
        res matches Some(matches) ==> capture_groups(pattern@, text@) == Some(
            match_views(matches@),
        ),
        pattern@ == RAM_LINE_PATTERN@ ==> res is Some,
        pattern@ == RAM_LINE_PATTERN@ ==> finds_plain_lines(text@, match_views(res->0@)),
{
    let re = regex::Regex::new(pattern).ok()?;
    let bytes = |m: regex::Match<'_>| m.as_str().as_bytes().to_vec();
    Some(re.captures_iter(text).map(|c| c.iter().map(|m| m.map(bytes)).collect()).collect())
}

/// The entry that the groups of a match stand for. None where one of them is missing or not a
/// number.
pub open spec fn ram_match(groups: Seq<Option<Seq<u8>>>) -> Option<TraceEntry> {
    if groups.len() < 8 || exists|i: int| 1 <= i < 8 && (#[trigger] groups[i]) is None {
        None
    } else {
        match (
            number_of_text(groups[1]->0, 16, u32::MAX as nat),
            number_of_text(groups[2]->0, 16, u32::MAX as nat),
            number_of_text(groups[3]->0, 16, u32::MAX as nat),
            number_of_text(groups[5]->0, 10, u8::MAX as nat),
            number_of_text(groups[6]->0, 16, u32::MAX as nat),
            number_of_text(last_word(groups[7]->0), 16, u32::MAX as nat),
        ) {
            (
                Some(event),
                Some(pc),
                Some(_),
                Some(size),
                Some(address),
                Some(value),
            ) if groups[4]->0.len() > 0 => Some(
                (
                    event as u32,
                    Access {
                        target: AccessTarget::Ram,
                        access_type: mode_type(groups[4]->0[0]),
                        size: size as u8,
                        pc: pc as u32,
                        address: address as u32,
                        value: value as u32,
                    },
                ),
            ),
            _ => None,
        }
    }
}

/// The entries that matches stand for. None where one of them does not read as it should.
pub open spec fn ram_matches(matches: Seq<Seq<Option<Seq<u8>>>>) -> Option<Seq<TraceEntry>> {
    if exists|i: int| 0 <= i < matches.len() && ram_match(#[trigger] matches[i]) is None {
        None
    } else {
        Some(Seq::new(matches.len(), |i: int| ram_match(matches[i])->0))
    }
}

/// The group with the index `i`, where it is there.
fn group_at(groups: &Vec<Option<Vec<u8>>>, i: usize) -> (res: Option<&[u8]>)
    requires
        i < groups@.len(),
    ensures
        res is Some <==> group_views(groups@)[i as int] is Some,
        res matches Some(bytes) ==> group_views(groups@)[i as int] == Some(bytes@),
{
    match &groups[i] {
        Some(bytes) => Some(bytes.as_slice()),
        None => None,
    }
}

/// Reads the groups of a match.
fn parse_match(groups: &Vec<Option<Vec<u8>>>) -> (res: Option<TraceEntry>)
    ensures
        res == ram_match(group_views(groups@)),
{
    if groups.len() < 8 {
        return None;
    }
    let event = group_at(groups, 1)?;
    let pc = group_at(groups, 2)?;
    let lr = group_at(groups, 3)?;
    let mode = group_at(groups, 4)?;
    let size = group_at(groups, 5)?;
    let address = group_at(groups, 6)?;
    let values = group_at(groups, 7)?;
    let event_id = parse_number(event, 16, u32::MAX)?;
    let pc = parse_number(pc, 16, u32::MAX)?;
    let _lr = parse_number(lr, 16, u32::MAX)?;
    let size = parse_number(size, 10, 255)?;
    let address = parse_number(address, 16, u32::MAX)?;
    let value = parse_number(find_last_word(values), 16, u32::MAX)?;
    if mode.len() == 0 {
        return None;
    }
    Some(
        (
            event_id,
            Access {
                target: AccessTarget::Ram,
                access_type: if mode[0] == 114 {
                    AccessType::Read
                } else {
                    AccessType::Write
                },
                size: size as u8,
                pc,
                address,
                value,
            },
        ),
    )
}

/// Reads the groups of matches.
pub fn parse_matches(matches: &Vec<Vec<Option<Vec<u8>>>>) -> (res: Result<
    Vec<TraceEntry>,
    MalformedTrace,
>)
    ensures
        res is Ok <==> ram_matches(match_views(matches@)) is Some,
        res matches Ok(entries) ==> ram_matches(match_views(matches@)) == Some(entries@),
{
    let ghost views = match_views(matches@);
    let mut res: Vec<TraceEntry> = Vec::new();
    let mut i: usize = 0;
    while i < matches.len()
        invariant
            views == match_views(matches@),
            i <= matches@.len(),
            res@.len() == i,
            forall|j: int| 0 <= j < i ==> ram_match(#[trigger] views[j]) == Some(res@[j]),
        decreases matches.len() - i,
    {
        assert(views[i as int] == group_views(matches@[i as int]@));
        match parse_match(&matches[i]) {
            Some(entry) => res.push(entry),
            None => {
                return Err(MalformedTrace);
            },
        }
        i += 1;
    }
    proof {
        assert forall|j: int| 0 <= j < views.len() implies ram_match(#[trigger] views[j]) is Some by {
            assert(ram_match(views[j]) == Some(res@[j]));
        }
        assert(res@ =~= ram_matches(views)->0);
    }
    Ok(res)
}

/// The entries that the lines of a text stand for, where the lines are those that match the
/// pattern.
pub open spec fn matched_entries(text: Seq<char>) -> Option<Seq<TraceEntry>> {
    match capture_groups(RAM_LINE_PATTERN@, text) {
        Some(matches) => ram_matches(matches),
        None => None,
    }
}

/// Reads a memory trace by matching its lines against a pattern. On the text of plain lines, this
/// gives the same entries as reading its bytes one by one.
pub fn parse_ram_trace_regex(contents: &str) -> (res: Result<Vec<TraceEntry>, MalformedTrace>)
    ensures
        res is Ok <==> matched_entries(contents@) is Some,
        res matches Ok(entries) ==> matched_entries(contents@) == Some(entries@),
        forall|bytes: Seq<u8>, lines: Seq<RamLine>|
            contents@ == chars_of(bytes) && #[trigger] is_plain_trace(bytes, lines) ==> (
            res matches Ok(entries) && {
                &&& ram_entries(bytes, 0) == Some(entries@)
                &&& entries@.len() == lines.len()
            }),
{
    let found = find_matches(RAM_LINE_PATTERN, contents);
    proof {
        assert forall|bytes: Seq<u8>, lines: Seq<RamLine>|
            contents@ == chars_of(bytes) && #[trigger] is_plain_trace(bytes, lines) implies (
        found matches Some(matches) && {
            &&& ram_matches(match_views(matches@)) is Some
            &&& ram_entries(bytes, 0) == ram_matches(match_views(matches@))
            &&& ram_matches(match_views(matches@))->0.len() == lines.len()
        }) by {
            lemma_plain_traces(bytes, lines);
        }
    }
    match found {
        Some(matches) => parse_matches(&matches),
        None => Err(MalformedTrace),
    }
}

/// Reads a memory trace by matching its lines against a pattern.
pub fn parse_ram_trace_slow(contents: &str) -> (res: Result<Vec<TraceEntry>, MalformedTrace>)
    ensures
        res is Ok <==> matched_entries(contents@) is Some,
        res matches Ok(entries) ==> matched_entries(contents@) == Some(entries@),
        forall|bytes: Seq<u8>, lines: Seq<RamLine>|
            contents@ == chars_of(bytes) && #[trigger] is_plain_trace(bytes, lines) ==> (
            res matches Ok(entries) && {
                &&& ram_entries(bytes, 0) == Some(entries@)
                &&& entries@.len() == lines.len()
            }),
{
    parse_ram_trace_regex(contents)
}

/// Both lists in one: the first one goes ahead as long as its events do not have greater numbers.
pub open spec fn interleaved(a: Seq<TraceEntry>, b: Seq<TraceEntry>) -> Seq<TraceEntry>
    decreases a.len() + b.len(),
{
    if a.len() == 0 {
        b
    } else if b.len() == 0 {
        a
    } else if a[0].0 <= b[0].0 {
        seq![a[0]] + interleaved(a.skip(1), b)
    } else {
        seq![b[0]] + interleaved(a, b.skip(1))
    }
}

/// Whether the first entry goes ahead of the second.
fn goes_ahead(a: &TraceEntry, b: &TraceEntry) -> (res: bool)
    ensures
        res == (a.0 <= b.0),
{
    a.0 <= b.0
}

/// `Itertools::merge_by` with `goes_ahead`: the heads of both lists are compared, and the one that
/// goes ahead is taken; what is left of one list follows when the other one is empty.
#[verifier::external_body]
fn interleave(a: Vec<TraceEntry>, b: Vec<TraceEntry>) -> (res: Vec<TraceEntry>)
    ensures
        res@ == interleaved(a@, b@),
{
    a.into_iter().merge_by(b, |x, y| goes_ahead(x, y)).collect()
}

/// The events of entries.
pub open spec fn events_of(entries: Seq<TraceEntry>) -> Seq<TraceEvent> {
    entries.map_values(|entry: TraceEntry| TraceEvent::Access(entry.1))
}

/// The entries stand in the order of the numbers of their events.
pub open spec fn in_event_order(entries: Seq<TraceEntry>) -> bool {
    forall|i: int, j: int| 0 <= i <= j < entries.len() ==> entries[i].0 <= entries[j].0
}

/// Two lists in the order of their events make one in that order, with all of their entries.
pub proof fn lemma_interleaved(a: Seq<TraceEntry>, b: Seq<TraceEntry>)
    ensures
        interleaved(a, b).len() == a.len() + b.len(),
        interleaved(a, b).to_multiset() == a.to_multiset().add(b.to_multiset()),
        in_event_order(a) && in_event_order(b) ==> in_event_order(interleaved(a, b)),
        interleaved(a, b).len() > 0 ==> (a.len() > 0 && interleaved(a, b)[0] == a[0]) || (b.len()
            > 0 && interleaved(a, b)[0] == b[0]),
    decreases a.len() + b.len(),
{
    broadcast use vstd::seq_lib::group_to_multiset_ensures;

    let all = interleaved(a, b);
    if a.len() == 0 {
        assert(a =~= Seq::empty());
        assert(all.to_multiset() =~= a.to_multiset().add(b.to_multiset()));
    } else if b.len() == 0 {
        assert(b =~= Seq::empty());
        assert(all.to_multiset() =~= a.to_multiset().add(b.to_multiset()));
    } else if a[0].0 <= b[0].0 {
        let rest = interleaved(a.skip(1), b);
        lemma_interleaved(a.skip(1), b);
        assert(a =~= seq![a[0]] + a.skip(1));
        vstd::seq_lib::lemma_multiset_commutative(seq![a[0]], a.skip(1));
        vstd::seq_lib::lemma_multiset_commutative(seq![a[0]], rest);
        assert(all.to_multiset() =~= a.to_multiset().add(b.to_multiset()));
        lemma_ordered_front(a[0], rest, a, b, a.skip(1), b);
    } else {
        let rest = interleaved(a, b.skip(1));
        lemma_interleaved(a, b.skip(1));
        assert(b =~= seq![b[0]] + b.skip(1));
        vstd::seq_lib::lemma_multiset_commutative(seq![b[0]], b.skip(1));
        vstd::seq_lib::lemma_multiset_commutative(seq![b[0]], rest);
        assert(all.to_multiset() =~= a.to_multiset().add(b.to_multiset()));
        lemma_ordered_front(b[0], rest, a, b, a, b.skip(1));
    }
}

/// An entry that goes ahead of the heads of both lists goes in front.
proof fn lemma_ordered_front(
    front: TraceEntry,
    rest: Seq<TraceEntry>,
    a: Seq<TraceEntry>,
    b: Seq<TraceEntry>,
    c: Seq<TraceEntry>,
    d: Seq<TraceEntry>,
)
    requires
        a.len() > 0,
        b.len() > 0,
        (front == a[0] && c == a.skip(1) && d == b && a[0].0 <= b[0].0) || (front == b[0] && c == a
            && d == b.skip(1) && b[0].0 <= a[0].0),
        in_event_order(c) && in_event_order(d) ==> in_event_order(rest),
        rest.len() > 0 ==> (c.len() > 0 && rest[0] == c[0]) || (d.len() > 0 && rest[0] == d[0]),
    ensures
        in_event_order(a) && in_event_order(b) ==> in_event_order(seq![front] + rest),
{
    if in_event_order(a) && in_event_order(b) {
        let all = seq![front] + rest;
        if rest.len() > 0 {
            if c.len() > 0 && rest[0] == c[0] {
                assert(c[0] == a[a.len() - c.len()]);
            }
            if d.len() > 0 && rest[0] == d[0] {
                assert(d[0] == b[b.len() - d.len()]);
            }
            assert(front.0 <= rest[0].0);
        }
        assert forall|i: int, j: int| 0 <= i <= j < all.len() implies all[i].0 <= all[j].0 by {
            if i == 0 && j > 0 {
                assert(rest[0].0 <= rest[j - 1].0);
            } else if i > 0 {
                assert(rest[i - 1].0 <= rest[j - 1].0);
            }
        }
    }
}

impl Trace {
    /// Reads a memory trace and the lines of a register trace, and puts their events in one order.
    pub fn from_fuzzware_traces(ram_trace: &[u8], mmio_lines: &Vec<Vec<u8>>) -> (res: Result<
        Self,
        MalformedTrace,
    >)
        ensures
            res is Ok <==> ram_entries(ram_trace@, 0) is Some && mmio_entries(
                line_views(mmio_lines@),
            ) is Some,
            res matches Ok(trace) ==> trace.events@ == events_of(
                interleaved(
                    ram_entries(ram_trace@, 0)->0,
                    mmio_entries(line_views(mmio_lines@))->0,
                ),
            ),
    {
        let ram = match parse_ram_trace(ram_trace) {
            Ok(entries) => entries,
            Err(error) => {
                return Err(error);
            },
        };
        let mmio = match parse_mmio_trace_it(mmio_lines) {
            Ok(entries) => entries,
            Err(error) => {
                return Err(error);
            },
        };
        let merged = interleave(ram, mmio);
        let mut events: Vec<TraceEvent> = Vec::new();
        let mut i: usize = 0;
        while i < merged.len()
            invariant
                i <= merged@.len(),
                events@.len() == i,
                forall|j: int|
                    0 <= j < i ==> #[trigger] events@[j] == TraceEvent::Access(merged@[j].1),
            decreases merged.len() - i,
        {
            events.push(TraceEvent::Access(merged[i].1));
            i += 1;
        }
        assert(events@ =~= events_of(merged@));
        Ok(Trace { events })
    }
}

} // verus!
