//! What the readers of traces read of numbers and lines that are written out, and how two traces are
//! put together.

use crate::fuzzware::fuzzware_trace::{
    colon_blank, digit_in, digits_number, find_colon_blank, find_from, hex_bits, holds, interleaved,
    last_word, mmio_line, nibble, nth_word, number_of_text, ram_entries, ram_match, ram_matches,
    unsigned, TraceEntry,
};
use crate::fuzzware::trace_laws::{
    is_lower_hex, is_plain_trace, is_short_number, lemma_number_bits, lemma_plain_traces,
    line_groups, RamLine,
};
use crate::scan::{last_before, lemma_first_from, lemma_last_before};
use crate::text::{digit_char, hex_padded, number_text};
use vstd::arithmetic::power::{lemma_pow0, pow};
use vstd::prelude::*;

verus! {

/// The bytes of a text of digits.
pub open spec fn digit_bytes(text: Seq<char>) -> Seq<u8> {
    text.map_values(|c: char| c as u8)
}

/// A digit that is written out is read back.
proof fn lemma_digit(d: int, base: nat)
    requires
        0 <= d < base <= 16,
    ensures
        digit_in(digit_char(d) as u8, base) == Some(d as nat),
        is_lower_hex(digit_char(d) as u8),
{
}

/// A number that is written out is read back, by the reader of numbers in any base up to sixteen.
pub proof fn lemma_number_read_back(n: nat, base: nat)
    requires
        2 <= base <= 16,
    ensures
        digits_number(digit_bytes(number_text(n, base)), base) == Some(n),
        number_text(n, base).len() > 0,
        is_lower_hex(digit_bytes(number_text(n, base))[0]),
    decreases n,
{
    let text = number_text(n, base);
    let bytes = digit_bytes(text);
    if n < base {
        lemma_digit(n as int, base);
        assert(bytes.drop_last() =~= Seq::empty());
        assert(digits_number(bytes.drop_last(), base) == Some(0nat));
        assert(0 * base == 0) by (nonlinear_arith);
    } else {
        assert(n / base < n) by (nonlinear_arith)
            requires
                base >= 2,
                n >= base,
        ;
        lemma_number_read_back(n / base, base);
        let before = number_text(n / base, base);
        assert(bytes.drop_last() =~= digit_bytes(before));
        assert(0 <= n % base < base) by (nonlinear_arith)
            requires
                base >= 2,
        ;
        lemma_digit((n % base) as int, base);
        assert(n == n / base * base + n % base) by (nonlinear_arith)
            requires
                base >= 2,
        ;
        assert(bytes[0] == digit_bytes(before)[0]);
    }
}

/// A number of 32 bits that is written out in hexadecimal digits is read back by both readers of
/// hexadecimal numbers, with a plus sign in front or without.
pub proof fn lemma_hex_read_back(n: u32)
    ensures
        number_of_text(digit_bytes(number_text(n as nat, 16)), 16, u32::MAX as nat) == Some(
            n as nat,
        ),
        hex_bits(digit_bytes(number_text(n as nat, 16))) == n,
        number_of_text(
            seq![43u8] + digit_bytes(number_text(n as nat, 16)),
            16,
            u32::MAX as nat,
        ) == Some(n as nat),
{
    let bytes = digit_bytes(number_text(n as nat, 16));
    lemma_number_read_back(n as nat, 16);
    assert(unsigned(bytes) == bytes);
    lemma_number_bits(bytes);
    let signed = seq![43u8] + bytes;
    assert(signed.skip(1) =~= bytes);
    assert(unsigned(signed) == bytes);
}

/// A number in a fixed number of hexadecimal digits has so many, and is read back if they are
/// enough for it.
pub proof fn lemma_padded_read_back(n: nat, width: nat)
    ensures
        hex_padded(n, width).len() == width,
        n < pow(16, width) ==> digits_number(digit_bytes(hex_padded(n, width)), 16) == Some(n),
    decreases width,
{
    let bytes = digit_bytes(hex_padded(n, width));
    if width > 0 {
        lemma_padded_read_back(n / 16, (width - 1) as nat);
        assert(bytes.drop_last() =~= digit_bytes(hex_padded(n / 16, (width - 1) as nat)));
        lemma_digit((n % 16) as int, 16);
        reveal(pow);
        assert(pow(16, width) == 16 * pow(16, (width - 1) as nat));
    } else {
        lemma_pow0(16);
    }
}

/// Upper-case digits stand for the same as lower-case ones.
pub proof fn lemma_letter_case(c: u8)
    requires
        65 <= c <= 70,
    ensures
        nibble(c) == nibble((c + 32) as u8),
        nibble(c) == c - 55,
        digit_in(c, 16) == digit_in((c + 32) as u8, 16),
        digit_in(c, 16) == Some(nibble(c) as nat),
{
}

/// The last word is what follows the last blank.
pub proof fn lemma_last_word(text: Seq<u8>)
    ensures
        ({
            let word = last_word(text);
            let n = text.len() - word.len();
            &&& 0 <= n
            &&& text.skip(n) == word
            &&& forall|i: int| 0 <= i < word.len() ==> #[trigger] word[i] != 32
            &&& n == 0 || text[n - 1] == 32
        }),
{
    let p = holds(text, 32);
    lemma_last_before(text.len() as int, p);
    if let Some(k) = last_before(text.len() as int, p) {
        assert(p(k));
        assert forall|i: int| 0 <= i < last_word(text).len() implies #[trigger] last_word(text)[i]
            != 32 by {
            assert(!p(k + 1 + i));
        }
    } else {
        assert(text.skip(0) =~= text);
        assert forall|i: int| 0 <= i < text.len() implies #[trigger] text[i] != 32 by {
            assert(!p(i));
        }
    }
}

/// A plain trace is read as it stands: every line gives its event number and an access to memory
/// with its program counter, its size, its address and the last one of its values; a read where its
/// mode is `r`, and a write where it is `w`.
pub proof fn lemma_plain_entries(bytes: Seq<u8>, lines: Seq<RamLine>, i: int)
    requires
        is_plain_trace(bytes, lines),
        0 <= i < lines.len(),
    ensures
        ram_entries(bytes, 0) matches Some(entries) && {
            let line = lines[i];
            let (event, access) = entries[i];
            &&& entries.len() == lines.len()
            &&& digits_number(line.event, 16) == Some(event as nat)
            &&& access.target is Ram
            &&& line.mode == 114 ==> access.access_type is Read
            &&& line.mode == 119 ==> access.access_type is Write
            &&& access.size == line.size - 48
            &&& digits_number(line.pc, 16) == Some(access.pc as nat)
            &&& digits_number(line.address, 16) == Some(access.address as nat)
            &&& digits_number(last_word(line.values), 16) == Some(access.value as nat)
        },
{
    lemma_plain_traces(bytes, lines);
    let entries = ram_matches(line_groups(lines))->0;
    let line = lines[i];
    let groups = line.groups();
    assert(line_groups(lines)[i] == groups);
    assert(ram_match(line_groups(lines)[i]) is Some);
    assert(line.is_plain());
    lemma_unsigned(line.event);
    lemma_unsigned(line.pc);
    lemma_unsigned(line.address);
    lemma_unsigned(last_word(line.values));
    let size = seq![line.size];
    assert(groups[5]->0 == size);
    assert(number_of_text(size, 10, u8::MAX as nat) == Some((line.size - 48) as nat)) by {
        reveal_with_fuel(digits_number, 2);
        assert(size.drop_last() =~= Seq::empty());
        assert(digit_in(line.size, 10) == Some((line.size - 48) as nat));
    }
}

proof fn lemma_unsigned(text: Seq<u8>)
    requires
        is_short_number(text),
    ensures
        unsigned(text) == text,
{
    assert(is_lower_hex(text[0]));
}

/// Two traces that do not overlap are put one after the other; of events with the same number, those
/// of the first one come first.
pub proof fn lemma_interleaved_apart(a: Seq<TraceEntry>, b: Seq<TraceEntry>)
    ensures
        (forall|i: int, j: int|
            0 <= i < a.len() && 0 <= j < b.len() ==> (#[trigger] a[i]).0 <= (#[trigger] b[j]).0)
            ==> interleaved(a, b) == a + b,
        (forall|i: int, j: int|
            0 <= i < a.len() && 0 <= j < b.len() ==> (#[trigger] b[j]).0 < (#[trigger] a[i]).0)
            ==> interleaved(a, b) == b + a,
    decreases a.len() + b.len(),
{
    if a.len() == 0 {
        assert(a + b =~= b);
        assert(b + a =~= b);
    } else if b.len() == 0 {
        assert(a + b =~= a);
        assert(b + a =~= a);
    } else if a[0].0 <= b[0].0 {
        let rest = a.skip(1);
        lemma_interleaved_apart(rest, b);
        if forall|i: int, j: int|
            0 <= i < a.len() && 0 <= j < b.len() ==> (#[trigger] a[i]).0 <= (#[trigger] b[j]).0 {
            assert forall|i: int, j: int| 0 <= i < rest.len() && 0 <= j < b.len() implies (
            #[trigger] rest[i]).0 <= (#[trigger] b[j]).0 by {
                assert(rest[i] == a[i + 1]);
            }
            assert(seq![a[0]] + (rest + b) =~= a + b);
        }
    } else {
        let rest = b.skip(1);
        lemma_interleaved_apart(a, rest);
        if forall|i: int, j: int|
            0 <= i < a.len() && 0 <= j < b.len() ==> (#[trigger] b[j]).0 < (#[trigger] a[i]).0 {
            assert forall|i: int, j: int| 0 <= i < a.len() && 0 <= j < rest.len() implies (
            #[trigger] rest[j]).0 < (#[trigger] a[i]).0 by {
                assert(rest[j] == b[j + 1]);
            }
            assert(seq![b[0]] + (rest + a) =~= b + a);
        }
    }
}

/// The words, with single blanks between them.
pub open spec fn spaced(words: Seq<Seq<u8>>) -> Seq<u8>
    decreases words.len(),
{
    if words.len() == 0 {
        Seq::empty()
    } else if words.len() == 1 {
        words[0]
    } else {
        words[0] + seq![32u8] + spaced(words.skip(1))
    }
}

/// The first place of a byte that a front part does not hold, and that follows it.
proof fn lemma_find_behind(front: Seq<u8>, c: u8, rest: Seq<u8>)
    requires
        !front.contains(c),
    ensures
        find_from(front + seq![c] + rest, 0, c) == Some(front.len() as int),
{
    let text = front + seq![c] + rest;
    let p = holds(text, c);
    lemma_first_from(0, text.len() as int, p);
    assert(p(front.len() as int));
    let i = find_from(text, 0, c)->0;
    assert(p(i));
    if i < front.len() {
        assert(front[i] == c);
    }
}

/// Words that are written with single blanks between them are found again by their places.
pub proof fn lemma_words_read_back(words: Seq<Seq<u8>>, k: nat)
    requires
        k < words.len(),
        forall|i: int| 0 <= i < words.len() ==> !(#[trigger] words[i]).contains(32),
    ensures
        nth_word(spaced(words), k) == Some(words[k as int]),
    decreases k,
{
    let text = spaced(words);
    if words.len() == 1 {
        let p = holds(text, 32);
        lemma_first_from(0, text.len() as int, p);
        if let Some(i) = find_from(text, 0, 32) {
            assert(p(i));
            assert(words[0][i] == 32);
            assert(words[0].contains(32));
        }
    } else {
        let rest = words.skip(1);
        lemma_find_behind(words[0], 32, spaced(rest));
        let n = words[0].len() as int;
        assert(text.take(n) =~= words[0]);
        assert(text.skip(n + 1) =~= spaced(rest));
        if k > 0 {
            assert forall|i: int| 0 <= i < rest.len() implies !(#[trigger] rest[i]).contains(
                32,
            ) by {
                assert(rest[i] == words[i + 1]);
            }
            lemma_words_read_back(rest, (k - 1) as nat);
            assert(rest[k - 1] == words[k as int]);
        }
    }
}

/// The line of a register trace with the given event number, words and values.
pub open spec fn register_line(event: Seq<u8>, words: Seq<Seq<u8>>, values: Seq<u8>) -> Seq<u8> {
    event + seq![58u8, 32u8] + spaced(words) + seq![58u8] + values
}

/// A line of a register trace is read by its words: the first one is the program counter, the third
/// one the mode, the fourth one the size, and the seventh one the address, with two characters in
/// front of its digits. The value is the last one of those that stand behind the words. Where all of
/// them are numbers, the line is one access to a register: a read where the mode starts with `r`, and
/// a write otherwise.
pub proof fn lemma_register_line(event: Seq<u8>, words: Seq<Seq<u8>>, values: Seq<u8>)
    requires
        !event.contains(58),
        words.len() >= 7,
        forall|i: int| 0 <= i < words.len() ==> !(#[trigger] words[i]).contains(32),
        !spaced(words).contains(58),
        words[2].len() > 0,
        words[6].len() >= 2,
    ensures
        ({
            let number = |text: Seq<u8>| number_of_text(text, 16, u32::MAX as nat);
            let size = number_of_text(words[3], 10, u8::MAX as nat);
            match mmio_line(register_line(event, words, values)) {
                Some((event_number, access)) => {
                    &&& number(event) == Some(event_number as nat)
                    &&& access.target is Mmio
                    &&& access.access_type is Read <==> words[2][0] == 114
                    &&& size == Some(access.size as nat)
                    &&& number(words[0]) == Some(access.pc as nat)
                    &&& number(words[6].skip(2)) == Some(access.address as nat)
                    &&& number(last_word(values)) == Some(access.value as nat)
                },
                None => number(event) is None || size is None || number(words[0]) is None || number(
                    words[6].skip(2),
                ) is None || number(last_word(values)) is None,
            }
        }),
{
    let line = register_line(event, words, values);
    let head = spaced(words);
    let p = colon_blank(line);
    lemma_first_from(0, line.len() - 1, p);
    let n = event.len() as int;
    assert(p(n));
    let k = find_colon_blank(line)->0;
    assert(p(k));
    if k < n {
        assert(event[k] == 58);
    }
    assert(k == n);
    let rest = line.skip(n + 2);
    assert(rest =~= head + seq![58u8] + values);
    lemma_find_behind(head, 58, values);
    assert(rest.take(head.len() as int) =~= head);
    assert(rest.skip(head.len() as int + 1) =~= values);
    assert(line.take(n) =~= event);
    lemma_words_read_back(words, 0);
    lemma_words_read_back(words, 2);
    lemma_words_read_back(words, 3);
    lemma_words_read_back(words, 6);
}

} // verus!
