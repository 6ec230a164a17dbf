//! Numbers as text.

use vstd::prelude::*;
use vstd::string::StringExecFns;

verus! {

/// The character of a hexadecimal digit.
pub open spec fn digit_char(d: int) -> char {
    if d < 10 {
        (48 + d) as char
    } else {
        (87 + d) as char
    }
}

/// The value of the character of a lower-case hexadecimal digit.
pub open spec fn char_value(c: char) -> int {
    if c <= '9' {
        c as int - 48
    } else {
        c as int - 87
    }
}

/// A number in the given base, without leading zeros.
pub open spec fn number_text(n: nat, base: nat) -> Seq<char>
    decreases n,
{
    if n < base || base < 2 {
        seq![digit_char(n as int)]
    } else {
        proof {
            assert(n / base < n) by (nonlinear_arith)
                requires
                    base >= 2,
                    n >= base,
            ;
        }
        number_text(n / base, base).push(digit_char((n % base) as int))
    }
}

/// A number in hexadecimal digits, without leading zeros.
pub open spec fn hex_text(n: nat) -> Seq<char> {
    number_text(n, 16)
}

/// A number in decimal digits, without leading zeros.
pub open spec fn dec_text(n: nat) -> Seq<char> {
    number_text(n, 10)
}

/// The lowest hexadecimal digits of a number, `width` of them.
pub open spec fn hex_padded(n: nat, width: nat) -> Seq<char>
    decreases width,
{
    if width == 0 {
        Seq::empty()
    } else {
        hex_padded(n / 16, (width - 1) as nat).push(digit_char((n % 16) as int))
    }
}

/// The number that digits in the given base stand for.
pub open spec fn text_number(text: Seq<char>, base: nat) -> int
    decreases text.len(),
{
    if text.len() == 0 {
        0
    } else {
        text_number(text.drop_last(), base) * base + char_value(text.last())
    }
}

/// The text of a number stands for that number.
pub proof fn lemma_number_text(n: nat, base: nat)
    requires
        2 <= base <= 16,
    ensures
        text_number(number_text(n, base), base) == n,
        number_text(n, base).len() > 0,
    decreases n,
{
    let text = number_text(n, base);
    if n < base {
        assert(text.drop_last() =~= Seq::empty());
        assert(text_number(text.drop_last(), base) == 0);
        assert(0 * base == 0) by (nonlinear_arith);
    } else {
        assert(n / base < n) by (nonlinear_arith)
            requires
                base >= 2,
                n >= base,
        ;
        lemma_number_text(n / base, base);
        assert(text.drop_last() =~= number_text(n / base, base));
        assert(n % base < 16) by (nonlinear_arith)
            requires
                2 <= base <= 16,
        ;
        assert(n == (n / base) * base + n % base) by (nonlinear_arith)
            requires
                base > 0,
        ;
    }
}

/// The digit as text.
fn digit_str(d: u64) -> (res: &'static str)
    requires
        d < 16,
    ensures
        res@ == seq![digit_char(d as int)],
{
    proof {
        reveal_strlit("0");
        reveal_strlit("1");
        reveal_strlit("2");
        reveal_strlit("3");
        reveal_strlit("4");
        reveal_strlit("5");
        reveal_strlit("6");
        reveal_strlit("7");
        reveal_strlit("8");
        reveal_strlit("9");
        reveal_strlit("a");
        reveal_strlit("b");
        reveal_strlit("c");
        reveal_strlit("d");
        reveal_strlit("e");
        reveal_strlit("f");
    }
    let res = match d {
        0 => "0",
        1 => "1",
        2 => "2",
        3 => "3",
        4 => "4",
        5 => "5",
        6 => "6",
        7 => "7",
        8 => "8",
        9 => "9",
        10 => "a",
        11 => "b",
        12 => "c",
        13 => "d",
        14 => "e",
        _ => "f",
    };
    assert(res@ =~= seq![digit_char(d as int)]);
    res
}

/// Appends a number in the given base.
fn push_number(text: &mut String, n: u64, base: u64)
    requires
        2 <= base <= 16,
    ensures
        final(text)@ == old(text)@ + number_text(n as nat, base as nat),
    decreases n,
{
    let ghost first = text@;
    if n >= base {
        assert(n / base < n) by (nonlinear_arith)
            requires
                base >= 2,
                n >= base,
        ;
        push_number(text, n / base, base);
    } else {
        assert(n % base == n) by (nonlinear_arith)
            requires
                n < base,
        ;
    }
    assert(n % base < base) by (nonlinear_arith)
        requires
            base >= 2,
    ;
    text.append(digit_str(n % base));
    assert(text@ =~= first + number_text(n as nat, base as nat));
}

/// Appends a number in hexadecimal digits.
pub fn push_hex(text: &mut String, n: u64)
    ensures
        final(text)@ == old(text)@ + hex_text(n as nat),
{
    push_number(text, n, 16)
}

/// Appends a number in decimal digits.
pub fn push_dec(text: &mut String, n: u64)
    ensures
        final(text)@ == old(text)@ + dec_text(n as nat),
{
    push_number(text, n, 10)
}

/// Appends the lowest hexadecimal digits of a number, `width` of them.
pub fn push_hex_padded(text: &mut String, n: u64, width: u32)
    ensures
        final(text)@ == old(text)@ + hex_padded(n as nat, width as nat),
    decreases width,
{
    let ghost first = text@;
    if width > 0 {
        push_hex_padded(text, n / 16, width - 1);
        text.append(digit_str(n % 16));
    }
    assert(text@ =~= first + hex_padded(n as nat, width as nat));
}

/// A number as it is written to configurations: in hexadecimal digits, with a sign and a prefix.
pub open spec fn signed_hex_text(n: nat) -> Seq<char> {
    "+0x"@ + hex_text(n)
}

/// A number as it is written to configurations.
pub fn signed_hex(n: u64) -> (res: String)
    ensures
        res@ == signed_hex_text(n as nat),
{
    let mut res = String::new();
    res.append("+0x");
    push_hex(&mut res, n);
    assert(res@ =~= signed_hex_text(n as nat));
    res
}

} // verus!
