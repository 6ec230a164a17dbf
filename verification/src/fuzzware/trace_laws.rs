//! What the two readers of memory traces have in common.

use crate::fuzzware::fuzzware_trace::{
    digit_in, digits_number, find_from, hex_bits, holds, last_word, lemma_digits_grow, nibble,
    number_of_text, ram_entries, ram_line, ram_match, ram_matches, unsigned, TraceEntry,
};
use crate::scan::lemma_first_from;
use vstd::prelude::*;

verus! {

/// The parts of a line of a memory trace.
pub struct RamLine {
    pub event: Seq<u8>,
    pub pc: Seq<u8>,
    pub lr: Seq<u8>,
    pub mode: u8,
    pub size: u8,
    pub address: Seq<u8>,
    pub values: Seq<u8>,
}

impl RamLine {
    /// The line that the parts make.
    #[verifier::opaque]
    pub open spec fn text(self) -> Seq<u8> {
        self.event + seq![58u8, 32u8] + self.pc + seq![32u8] + self.lr + seq![
            32u8,
            self.mode,
            32u8,
            self.size,
            32u8,
            48u8,
            120u8,
        ] + self.address + seq![58u8] + self.values
    }

    /// The groups of the match that the line is, the whole line first.
    pub open spec fn groups(self) -> Seq<Option<Seq<u8>>> {
        seq![
            Some(self.text()),
            Some(self.event),
            Some(self.pc),
            Some(self.lr),
            Some(seq![self.mode]),
            Some(seq![self.size]),
            Some(self.address),
            Some(self.values),
        ]
    }

    /// No part holds the byte that ends it.
    pub open spec fn is_separable(self) -> bool {
        &&& !self.event.contains(58)
        &&& !self.pc.contains(32)
        &&& !self.lr.contains(32)
        &&& !self.address.contains(58)
        &&& !self.values.contains(10)
    }

    /// All numbers have one to eight lower-case digits, the mode is that of a read or a write, the
    /// size is one digit, and the values stand apart by blanks, without one at the end.
    pub open spec fn is_plain(self) -> bool {
        &&& is_short_number(self.event)
        &&& is_short_number(self.pc)
        &&& is_short_number(self.lr)
        &&& self.mode == 114 || self.mode == 119
        &&& 48 <= self.size <= 57
        &&& is_short_number(self.address)
        &&& forall|i: int|
            0 <= i < self.values.len() ==> is_lower_hex(#[trigger] self.values[i])
                || self.values[i] == 32
        &&& is_short_number(last_word(self.values))
    }
}

/// A lower-case hexadecimal digit.
pub open spec fn is_lower_hex(c: u8) -> bool {
    48 <= c <= 57 || 97 <= c <= 102
}

/// One to eight lower-case hexadecimal digits.
pub open spec fn is_short_number(text: Seq<u8>) -> bool {
    &&& 1 <= text.len() <= 8
    &&& forall|i: int| 0 <= i < text.len() ==> is_lower_hex(#[trigger] text[i])
}

/// The text of a memory trace with the given lines.
pub open spec fn ram_text(lines: Seq<RamLine>) -> Seq<u8>
    decreases lines.len(),
{
    if lines.len() == 0 {
        Seq::empty()
    } else {
        ram_text(lines.drop_last()) + lines.last().text() + seq![10u8]
    }
}

/// The text is that of a memory trace with the given lines; the last line break may be missing.
pub open spec fn is_ram_text(text: Seq<u8>, lines: Seq<RamLine>) -> bool {
    text == ram_text(lines) || text.push(10) == ram_text(lines)
}

/// The bytes are those of a memory trace with the given lines, all of which are plain.
pub open spec fn is_plain_trace(bytes: Seq<u8>, lines: Seq<RamLine>) -> bool {
    &&& is_ram_text(bytes, lines)
    &&& forall|i: int| 0 <= i < lines.len() ==> (#[trigger] lines[i]).is_plain()
}

/// The characters that bytes below 128 stand for.
pub open spec fn chars_of(bytes: Seq<u8>) -> Seq<char> {
    bytes.map_values(|b: u8| b as char)
}

/// The groups of each line.
pub open spec fn line_groups(lines: Seq<RamLine>) -> Seq<Seq<Option<Seq<u8>>>> {
    lines.map_values(|line: RamLine| line.groups())
}

/// A search finds the first place.
proof fn lemma_find_from(text: Seq<u8>, from: int, c: u8, k: int)
    requires
        from <= k < text.len(),
        text[k] == c,
        forall|j: int| from <= j < k ==> text[j] != c,
    ensures
        find_from(text, from, c) == Some(k),
{
    let p = holds(text, c);
    lemma_first_from(from, text.len() as int, p);
    assert(p(k));
    match find_from(text, from, c) {
        Some(i) => {
            assert(p(i));
            if i < k {
                assert(text[i] != c);
            } else if i > k {
                assert(!p(k));
            }
        },
        None => {
            assert(!p(k));
        },
    }
}

/// The lowest bits of digits that stand for a small number are that number.
proof fn lemma_digits_bits(digits: Seq<u8>)
    ensures
        digits_number(digits, 16) matches Some(value) ==> value <= u32::MAX ==> hex_bits(digits)
            == value,
    decreases digits.len(),
{
    if digits.len() > 0 {
        let before = digits.drop_last();
        lemma_digits_bits(before);
        lemma_digits_grow(digits, 16, digits.len() - 1);
        assert(digits.take(digits.len() - 1) =~= before);
        if let Some(digit) = digit_in(digits.last(), 16) {
            assert(nibble(digits.last()) == digit);
        }
    }
}

/// A sign in front of digits does not change their bits.
proof fn lemma_sign_bits(text: Seq<u8>)
    requires
        text.len() > 0,
        text[0] == 43,
    ensures
        hex_bits(text) == hex_bits(text.skip(1)),
    decreases text.len(),
{
    if text.len() == 1 {
        assert(text.drop_last() =~= Seq::empty());
        assert(text.skip(1) =~= Seq::empty());
    } else {
        lemma_sign_bits(text.drop_last());
        assert(text.drop_last().skip(1) =~= text.skip(1).drop_last());
        assert(text.skip(1).last() == text.last());
    }
}

/// Where a text stands for a number of 32 bits, its bits are that number.
pub proof fn lemma_number_bits(text: Seq<u8>)
    ensures
        number_of_text(text, 16, u32::MAX as nat) matches Some(value) ==> hex_bits(text) == value,
{
    lemma_digits_bits(unsigned(text));
    if text.len() > 1 && text[0] == 43 {
        lemma_sign_bits(text);
    }
}

/// A digit as a size.
proof fn lemma_size(size: u8)
    ensures
        number_of_text(seq![size], 10, u8::MAX as nat) matches Some(value) ==> size >= 48 && value
            == size - 48,
{
    let text = seq![size];
    reveal_with_fuel(digits_number, 2);
    assert(text.drop_last() =~= Seq::empty());
    if let Some(value) = number_of_text(text, 10, u8::MAX as nat) {
        assert(digit_in(size, 10) == Some(value));
    }
}

/// Where the parts of a line stand in a text.
proof fn lemma_parts(before: Seq<u8>, line: RamLine, after: Seq<u8>)
    ensures
        ({
            let text = before + line.text() + after;
            let start = before.len() as int;
            let colon = start + line.event.len();
            let pc_end = colon + 2 + line.pc.len();
            let lr_end = pc_end + 1 + line.lr.len();
            let address_end = lr_end + 7 + line.address.len();
            let end = address_end + 1 + line.values.len();
            &&& line.text().len() == end - start
            &&& text.subrange(start, colon) == line.event
            &&& text[colon] == 58
            &&& text.subrange(colon + 2, pc_end) == line.pc
            &&& text[pc_end] == 32
            &&& text.subrange(pc_end + 1, lr_end) == line.lr
            &&& text[lr_end] == 32
            &&& text[lr_end + 1] == line.mode
            &&& text[lr_end + 3] == line.size
            &&& text.subrange(lr_end + 7, address_end) == line.address
            &&& text[address_end] == 58
            &&& text.subrange(address_end + 1, end) == line.values
        }),
{
    reveal(RamLine::text);
    let text = before + line.text() + after;
    let start = before.len() as int;
    let colon = start + line.event.len();
    let pc_end = colon + 2 + line.pc.len();
    let lr_end = pc_end + 1 + line.lr.len();
    let address_end = lr_end + 7 + line.address.len();
    let end = address_end + 1 + line.values.len();
    assert(text.subrange(start, colon) =~= line.event);
    assert(text.subrange(colon + 2, pc_end) =~= line.pc);
    assert(text.subrange(pc_end + 1, lr_end) =~= line.lr);
    assert(text.subrange(lr_end + 7, address_end) =~= line.address);
    assert(text.subrange(address_end + 1, end) =~= line.values);
}

/// A byte that a part does not hold does not stand between the ends of that part.
proof fn lemma_not_within(text: Seq<u8>, from: int, to: int, c: u8)
    requires
        0 <= from <= to <= text.len(),
        !text.subrange(from, to).contains(c),
    ensures
        forall|j: int| from <= j < to ==> text[j] != c,
{
    assert forall|j: int| from <= j < to implies text[j] != c by {
        assert(text.subrange(from, to)[j - from] == text[j]);
    }
}

/// A line that its groups give an entry reads as that entry, wherever it stands in a text.
proof fn lemma_ram_line(before: Seq<u8>, line: RamLine, after: Seq<u8>)
    requires
        line.is_separable(),
        ram_match(line.groups()) is Some,
        after.len() > 0 ==> after[0] == 10,
    ensures
        ({
            let end = (before.len() + line.text().len()) as int;
            ram_line(before + line.text() + after, before.len() as int) == Some(
                (
                    ram_match(line.groups())->0,
                    if after.len() > 0 {
                        end + 1
                    } else {
                        end
                    },
                ),
            )
        }),
{
    let text = before + line.text() + after;
    let start = before.len() as int;
    let colon = start + line.event.len();
    let pc_end = colon + 2 + line.pc.len();
    let lr_end = pc_end + 1 + line.lr.len();
    let address_end = lr_end + 7 + line.address.len();
    let end = address_end + 1 + line.values.len();
    lemma_parts(before, line, after);
    lemma_not_within(text, start, colon, 58);
    lemma_find_from(text, start, 58, colon);
    lemma_not_within(text, colon + 2, pc_end, 32);
    lemma_find_from(text, colon + 2, 32, pc_end);
    lemma_not_within(text, pc_end + 1, lr_end, 32);
    lemma_find_from(text, pc_end + 1, 32, lr_end);
    lemma_not_within(text, lr_end + 7, address_end, 58);
    lemma_find_from(text, lr_end + 7, 58, address_end);
    lemma_not_within(text, address_end + 1, end, 10);
    if after.len() > 0 {
        assert(text[end] == after[0]);
        lemma_find_from(text, address_end + 1, 10, end);
    } else {
        let p = holds(text, 10);
        lemma_first_from(address_end + 1, text.len() as int, p);
        if let Some(i) = find_from(text, address_end + 1, 10) {
            assert(p(i));
            assert(text[i] != 10);
        }
    }
    lemma_number_bits(line.event);
    lemma_number_bits(line.pc);
    lemma_number_bits(line.address);
    lemma_number_bits(last_word(line.values));
    lemma_size(line.size);
}

/// The text of the first lines is the start of the text.
proof fn lemma_ram_text_prefix(lines: Seq<RamLine>, n: int)
    requires
        0 <= n <= lines.len(),
    ensures
        ram_text(lines.take(n)).is_prefix_of(ram_text(lines)),
    decreases lines.len(),
{
    if n == lines.len() {
        assert(lines.take(n) =~= lines);
    } else {
        lemma_ram_text_prefix(lines.drop_last(), n);
        assert(lines.drop_last().take(n) =~= lines.take(n));
    }
}

/// Where a line stands in the text of all lines.
proof fn lemma_line_place(text: Seq<u8>, lines: Seq<RamLine>, n: int)
    requires
        0 <= n < lines.len(),
        is_ram_text(text, lines),
    ensures
        ({
            let before = ram_text(lines.take(n));
            let end = (before.len() + lines[n].text().len()) as int;
            &&& end <= text.len()
            &&& text == before + lines[n].text() + text.skip(end)
            &&& end < text.len() ==> text[end] == 10
            &&& ram_text(lines.take(n + 1)).len() == end + 1
        }),
{
    let whole = ram_text(lines);
    let before = ram_text(lines.take(n));
    let line = lines[n].text();
    let end = (before.len() + line.len()) as int;
    assert(lines.take(n + 1).drop_last() =~= lines.take(n));
    assert(lines.take(n + 1).last() == lines[n]);
    let first = ram_text(lines.take(n + 1));
    assert(first == before + line + seq![10u8]);
    lemma_ram_text_prefix(lines, n + 1);
    assert forall|i: int| 0 <= i < first.len() implies whole[i] == first[i] by {
        assert(whole.take(first.len() as int)[i] == whole[i]);
    }
    assert forall|i: int| 0 <= i < text.len() implies text[i] == whole[i] by {
        assert(text.push(10)[i] == text[i]);
    }
    assert(first[end] == 10);
    assert(text =~= before + line + text.skip(end));
}

/// From the start of a line on, the text reads as the entries of that line and of those behind it.
proof fn lemma_ram_lines_from(
    text: Seq<u8>,
    lines: Seq<RamLine>,
    entries: Seq<TraceEntry>,
    n: int,
)
    requires
        0 <= n <= lines.len() == entries.len(),
        is_ram_text(text, lines),
        forall|i: int|
            0 <= i < lines.len() ==> (#[trigger] lines[i]).is_separable() && ram_match(
                lines[i].groups(),
            ) == Some(entries[i]),
    ensures
        ram_entries(text, ram_text(lines.take(n)).len() as int) == Some(entries.skip(n)),
    decreases lines.len() - n,
{
    if n == lines.len() {
        assert(lines.take(n) =~= lines);
        assert(entries.skip(n) =~= Seq::empty());
    } else {
        lemma_ram_lines_from(text, lines, entries, n + 1);
        lemma_line_place(text, lines, n);
        let before = ram_text(lines.take(n));
        let end = (before.len() + lines[n].text().len()) as int;
        lemma_ram_line(before, lines[n], text.skip(end));
        if end == text.len() {
            assert(ram_entries(text, end) == ram_entries(text, end + 1));
        }
        lemma_parts(before, lines[n], text.skip(end));
        assert(entries.skip(n) =~= seq![entries[n]] + entries.skip(n + 1));
    }
}

/// Both readers of memory traces agree: where each line gives an entry by its groups, the text of
/// the lines reads as these entries.
pub proof fn lemma_readers_agree(text: Seq<u8>, lines: Seq<RamLine>)
    requires
        is_ram_text(text, lines),
        forall|i: int| 0 <= i < lines.len() ==> (#[trigger] lines[i]).is_separable(),
        ram_matches(line_groups(lines)) is Some,
    ensures
        ram_entries(text, 0) == ram_matches(line_groups(lines)),
{
    let groups = line_groups(lines);
    let entries = ram_matches(groups)->0;
    assert forall|i: int| 0 <= i < lines.len() implies (#[trigger] lines[i]).is_separable()
        && ram_match(lines[i].groups()) == Some(entries[i]) by {
        assert(groups[i] == lines[i].groups());
    }
    lemma_ram_lines_from(text, lines, entries, 0);
    assert(lines.take(0) =~= Seq::empty());
    assert(entries.skip(0) =~= entries);
}

/// The greatest number of `n` hexadecimal digits, and one more.
spec fn hex_bound(n: nat) -> nat
    decreases n,
{
    if n == 0 {
        1
    } else {
        16 * hex_bound((n - 1) as nat)
    }
}

/// Lower-case digits stand for a number below the bound of their count.
proof fn lemma_lower_hex(digits: Seq<u8>)
    requires
        forall|i: int| 0 <= i < digits.len() ==> is_lower_hex(#[trigger] digits[i]),
    ensures
        digits_number(digits, 16) matches Some(value) && value < hex_bound(digits.len()),
    decreases digits.len(),
{
    if digits.len() > 0 {
        assert(is_lower_hex(digits[digits.len() - 1]));
        assert forall|i: int| 0 <= i < digits.len() - 1 implies is_lower_hex(
            #[trigger] digits.drop_last()[i],
        ) by {
            assert(is_lower_hex(digits[i]));
        }
        lemma_lower_hex(digits.drop_last());
        assert(digit_in(digits.last(), 16) is Some);
    }
}

/// Up to eight lower-case digits stand for a number of 32 bits.
proof fn lemma_short_number(text: Seq<u8>)
    requires
        is_short_number(text),
    ensures
        number_of_text(text, 16, u32::MAX as nat) is Some,
        forall|c: u8| !is_lower_hex(c) ==> !#[trigger] text.contains(c),
{
    assert(is_lower_hex(text[0]));
    assert(unsigned(text) == text);
    lemma_lower_hex(text);
    assert(hex_bound(text.len()) <= 0x1_0000_0000) by {
        reveal_with_fuel(hex_bound, 9);
    }
}

/// A plain line gives an entry by its groups.
proof fn lemma_plain_line(line: RamLine)
    requires
        line.is_plain(),
    ensures
        line.is_separable(),
        ram_match(line.groups()) matches Some(entry) && entry.1.target is Ram,
{
    lemma_short_number(line.event);
    lemma_short_number(line.pc);
    lemma_short_number(line.lr);
    lemma_short_number(line.address);
    lemma_short_number(last_word(line.values));
    let size = seq![line.size];
    assert(number_of_text(size, 10, u8::MAX as nat) is Some) by {
        reveal_with_fuel(digits_number, 2);
        assert(size.drop_last() =~= Seq::empty());
        assert(digit_in(line.size, 10) == Some((line.size - 48) as nat));
    }
    let groups = line.groups();
    assert(groups[5]->0 == size);
    assert forall|i: int| 1 <= i < 8 implies (#[trigger] groups[i]) is Some by {}
}

/// Both readers of memory traces agree on plain traces: each line is read as one access to memory,
/// in the order of the lines, and with the last one of its values.
pub proof fn lemma_plain_traces(bytes: Seq<u8>, lines: Seq<RamLine>)
    requires
        is_plain_trace(bytes, lines),
    ensures
        ram_matches(line_groups(lines)) matches Some(entries) && {
            &&& ram_entries(bytes, 0) == Some(entries)
            &&& entries.len() == lines.len()
            &&& forall|i: int| 0 <= i < entries.len() ==> (#[trigger] entries[i]).1.target is Ram
        },
{
    let groups = line_groups(lines);
    assert forall|i: int| 0 <= i < lines.len() implies (#[trigger] lines[i]).is_separable()
        && ram_match(lines[i].groups()) is Some by {
        lemma_plain_line(lines[i]);
    }
    assert forall|i: int| 0 <= i < groups.len() implies ram_match(#[trigger] groups[i]) is Some by {
        assert(groups[i] == lines[i].groups());
        assert(lines[i].is_separable());
    }
    lemma_readers_agree(bytes, lines);
    let entries = ram_matches(groups)->0;
    assert forall|i: int| 0 <= i < entries.len() implies (#[trigger] entries[i]).1.target is Ram by {
        assert(groups[i] == lines[i].groups());
        lemma_plain_line(lines[i]);
    }
}

} // verus!
