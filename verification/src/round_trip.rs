//! What the text of a size reads back as.

use vstd::prelude::*;
use vstd::arithmetic::div_mod::lemma_fundamental_div_mod;
use vstd::utf8::{encode_utf8, is_ascii_chars, is_ascii_chars_encode_utf8};
use crate::arith::{
    digit_count, lemma_digit_count_bounds, lemma_pow10_monotonic, lemma_pow10_values,
    lemma_round_distance, pow10, round_half_even,
};
use crate::display::{decimal, display, layout, prefix_char};
use crate::parse::{
    blank_end, count_points, decimal_value, digits_value, frac_digits, number_end, parse_spec,
    prefix_scale, units_spec, Parsed,
};
use crate::size::{ByteSize, ParseByteSizeError};

verus! {

/// The distance between neighbouring sizes that three digits can write at
/// the magnitude of `n`.
pub open spec fn display_step(n: nat) -> nat {
    if n < 1000 {
        1
    } else {
        pow10((digit_count(n) - 3) as nat)
    }
}

/// The size that the text of `n` stands for: `n` rounded to a multiple of
/// its step.
pub open spec fn displayed_value(n: nat) -> nat {
    round_half_even(n, display_step(n)) * display_step(n)
}

/// What reading gives for a size of `value` bytes with a decimal prefix.
pub open spec fn read_as(value: nat) -> Result<Parsed, ParseByteSizeError> {
    if value > u64::MAX {
        Err(ParseByteSizeError::Overflow)
    } else {
        Ok(Parsed::Decimal(ByteSize(value as u64)))
    }
}

proof fn lemma_prefix_letters(p: nat)
    requires
        1 <= p <= 6,
    ensures
        prefix_scale(prefix_char(p) as u8) == p,
        prefix_char(p) as u8 != 32,
        prefix_char(p) as u8 != 9,
        prefix_char(p) as u8 != 98,
        prefix_char(p) as u8 != 66,
        prefix_char(p) as u8 <= 127,
{
}

/// Three digits with a prefix read back as the digits times the power of
/// ten that the prefix and the decimal point name.
proof fn lemma_read_layout(m: nat, lead: nat, p: nat)
    requires
        100 <= m <= 999,
        lead <= 2,
        1 <= p <= 6,
    ensures
        parse_spec(encode_utf8(layout(m, lead, p))) == read_as(
            m * pow10((3 * p + lead - 2) as nat),
        ),
{
    let text = layout(m, lead, p);
    let s = encode_utf8(text);
    let a = m / 100;
    let b = m / 10 % 10;
    let c = m % 10;
    lemma_prefix_letters(p);
    assert(is_ascii_chars(text));
    is_ascii_chars_encode_utf8(text);
    let end: int = if lead == 2 {
        3
    } else {
        4
    };
    assert(s.len() == end + 3);
    assert forall|i: int| 0 <= i < s.len() implies s[i] == text[i] as u8 by {}
    assert(s[end] == 32 && s[end + 1] == prefix_char(p) as u8 && s[end + 2] == 66);
    reveal_with_fuel(number_end, 6);
    reveal_with_fuel(blank_end, 3);
    reveal_with_fuel(count_points, 6);
    reveal_with_fuel(digits_value, 6);
    reveal_with_fuel(frac_digits, 6);
    if lead == 0 {
        assert(s[0] == 48 + a && s[1] == 46 && s[2] == 48 + b && s[3] == 48 + c);
    } else if lead == 1 {
        assert(s[0] == 48 + a && s[1] == 48 + b && s[2] == 46 && s[3] == 48 + c);
    } else {
        assert(s[0] == 48 + a && s[1] == 48 + b && s[2] == 48 + c);
    }
    assert(number_end(s, 0) == end);
    assert(count_points(s, end) <= 1);
    assert(digits_value(s, 0, end) == m);
    assert(frac_digits(s, end) == 2 - lead);
    assert(blank_end(s, end) == end + 1);
    assert(units_spec(s, end) == Some((p as u32, false)));
    assert(decimal_value(s, end, p) == m * pow10((3 * p + lead - 2) as nat));
}

/// A number under a thousand, followed by ` B`, reads back as itself.
proof fn lemma_read_bytes(n: nat)
    requires
        n < 1000,
    ensures
        parse_spec(encode_utf8(decimal(n) + seq![' ', 'B'])) == read_as(n),
{
    let text = decimal(n) + seq![' ', 'B'];
    let s = encode_utf8(text);
    reveal_with_fuel(decimal, 3);
    let end: int = if n < 10 {
        1
    } else if n < 100 {
        2
    } else {
        3
    };
    assert(decimal(n).len() == end);
    assert(text.len() == end + 2);
    assert(text[end] == ' ' && text[end + 1] == 'B');
    assert(is_ascii_chars(text));
    is_ascii_chars_encode_utf8(text);
    assert forall|i: int| 0 <= i < s.len() implies s[i] == text[i] as u8 by {}
    assert(s[end] == 32 && s[end + 1] == 66);
    reveal_with_fuel(number_end, 5);
    reveal_with_fuel(blank_end, 3);
    reveal_with_fuel(count_points, 5);
    reveal_with_fuel(digits_value, 5);
    reveal_with_fuel(frac_digits, 5);
    if n < 10 {
        assert(s[0] == 48 + n);
    } else if n < 100 {
        assert(s[0] == 48 + n / 10 && s[1] == 48 + n % 10);
    } else {
        assert(s[0] == 48 + n / 100 && s[1] == 48 + n / 10 % 10 && s[2] == 48 + n % 10);
    }
    assert(number_end(s, 0) == end);
    assert(count_points(s, end) == 0);
    assert(digits_value(s, 0, end) == n);
    assert(frac_digits(s, end) == 0);
    assert(blank_end(s, end) == end + 1);
    assert(units_spec(s, end) == Some((0u32, false)));
    assert(pow10(0) == 1);
    assert(decimal_value(s, end, 0) == n * 1);
}

/// A size of at least a thousand has four to twenty digits, lies between
/// a hundred and a thousand steps, and its rounded value fits in 64 bits.
proof fn lemma_step_bounds(n: u64)
    requires
        n >= 1000,
    ensures
        4 <= digit_count(n as nat) <= 20,
        display_step(n as nat) >= 10,
        100 <= round_half_even(n as nat, display_step(n as nat)) <= 1000,
        displayed_value(n as nat) <= u64::MAX,
{
    let d = digit_count(n as nat);
    lemma_pow10_values();
    lemma_digit_count_bounds(n as nat);
    if d <= 3 {
        lemma_pow10_monotonic(d, 3);
    }
    if d > 20 {
        lemma_pow10_monotonic(20, (d - 1) as nat);
    }
    let e = (d - 3) as nat;
    let step = pow10(e);
    lemma_pow10_monotonic(1, e);
    reveal_with_fuel(pow10, 4);
    assert(pow10((d - 1) as nat) == 100 * step);
    assert(pow10(d) == 1000 * step);
    let q = n as nat / step;
    let r = n as nat % step;
    assert(100 <= q <= 999) by (nonlinear_arith)
        requires
            100 * step <= n < 1000 * step,
            step > 0,
            q == n as nat / step,
    ;
    let m = round_half_even(n as nat, step);
    if e <= 16 {
        lemma_pow10_monotonic(e, 16);
        assert(m * step <= 10_000_000_000_000_000_000) by (nonlinear_arith)
            requires
                m <= 1000,
                step <= 10_000_000_000_000_000,
        ;
    } else {
        assert(e == 17);
        assert(step == 100_000_000_000_000_000);
        lemma_fundamental_div_mod(n as int, step as int);
        assert(n == 100_000_000_000_000_000 * q + r) by (nonlinear_arith)
            requires
                n == step * q + r,
                step == 100_000_000_000_000_000,
        ;
        assert(q <= 184);
        assert(m <= 184);
        assert(m * step <= 18_400_000_000_000_000_000) by (nonlinear_arith)
            requires
                m <= 184,
                step == 100_000_000_000_000_000,
        ;
    }
}

/// The text of a size reads back as a size with a decimal prefix, never as
/// an error: as the size rounded to a multiple of its step, which is half
/// a step from it at most. A size under a thousand reads back as itself.
pub proof fn lemma_display_round_trip(n: u64)
    ensures
        displayed_value(n as nat) <= u64::MAX,
        parse_spec(encode_utf8(display(n as nat))) == Ok::<Parsed, ParseByteSizeError>(
            Parsed::Decimal(ByteSize(displayed_value(n as nat) as u64)),
        ),
        2 * (displayed_value(n as nat) - n) <= display_step(n as nat),
        2 * (n - displayed_value(n as nat)) <= display_step(n as nat),
        n < 1000 ==> displayed_value(n as nat) == n,
{
    let step = display_step(n as nat);
    if n < 1000 {
        lemma_read_bytes(n as nat);
        assert(displayed_value(n as nat) == n);
    } else {
        lemma_step_bounds(n);
        lemma_round_distance(n as nat, step);
        let e = (digit_count(n as nat) - 3) as nat;
        let m = round_half_even(n as nat, step);
        if m == 1000 {
            let lead = (e + 3) % 3;
            let p = (e + 3) / 3;
            lemma_read_layout(100, lead, p);
            assert(3 * p + lead - 2 == e + 1);
            reveal_with_fuel(pow10, 2);
            assert(100 * pow10(e + 1) == 1000 * step) by (nonlinear_arith)
                requires
                    pow10(e + 1) == 10 * step,
            ;
        } else {
            let lead = (e + 2) % 3;
            let p = (e + 2) / 3;
            lemma_read_layout(m, lead, p);
            assert(3 * p + lead - 2 == e);
        }
    }
}

} // verus!
