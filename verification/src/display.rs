//! Writing a byte size with three significant digits.

use vstd::prelude::*;
use vstd::string::*;
use crate::arith::{
    digit_count, lemma_digit_count, lemma_pow10_add, lemma_pow10_values, lemma_round_scaled, pow10,
    round_half_even,
};
use crate::size::ByteSize;

verus! {

/// The character of a decimal digit.
pub open spec fn digit_char(d: nat) -> char {
    if d == 0 {
        '0'
    } else if d == 1 {
        '1'
    } else if d == 2 {
        '2'
    } else if d == 3 {
        '3'
    } else if d == 4 {
        '4'
    } else if d == 5 {
        '5'
    } else if d == 6 {
        '6'
    } else if d == 7 {
        '7'
    } else if d == 8 {
        '8'
    } else {
        '9'
    }
}

/// `n` in decimal, without leading zeros.
pub open spec fn decimal(n: nat) -> Seq<char>
    decreases n,
{
    if n < 10 {
        seq![digit_char(n)]
    } else {
        decimal(n / 10).push(digit_char(n % 10))
    }
}

/// The letter of the SI prefix for a thousand to the power `p`.
pub open spec fn prefix_char(p: nat) -> char {
    if p == 1 {
        'k'
    } else if p == 2 {
        'M'
    } else if p == 3 {
        'G'
    } else if p == 4 {
        'T'
    } else if p == 5 {
        'P'
    } else {
        'E'
    }
}

/// The three digits of `m`, with a decimal point after the first `lead + 1`
/// of them unless that is all three, a space, the prefix `p` and `B`.
pub open spec fn layout(m: nat, lead: nat, p: nat) -> Seq<char> {
    let a = digit_char(m / 100);
    let b = digit_char(m / 10 % 10);
    let c = digit_char(m % 10);
    if lead == 0 {
        seq![a, '.', b, c, ' ', prefix_char(p), 'B']
    } else if lead == 1 {
        seq![a, b, '.', c, ' ', prefix_char(p), 'B']
    } else {
        seq![a, b, c, ' ', prefix_char(p), 'B']
    }
}

/// The text for `m` times ten to the power `e`, where `m` has three digits
/// and `e` is at least one.
pub open spec fn render(m: nat, e: nat) -> Seq<char> {
    layout(m, (e + 2) % 3, (e + 2) / 3)
}

/// The text of a size of `n` bytes. Under a thousand it is the number
/// itself. From there on `n` is rounded to three significant digits, a tie
/// going to the even neighbour, and written with the SI prefix of its
/// magnitude.
pub open spec fn display(n: nat) -> Seq<char> {
    if n < 1000 {
        decimal(n) + seq![' ', 'B']
    } else {
        let e = (digit_count(n) - 3) as nat;
        let m = round_half_even(n, pow10(e));
        if m == 1000 {
            render(100, e + 1)
        } else {
            render(m, e)
        }
    }
}

fn push_digit(out: &mut String, d: u64)
    requires
        d < 10,
    ensures
        final(out)@ == old(out)@.push(digit_char(d as nat)),
{
    proof {
        reveal_strlit("0");
        reveal_strlit("1");
        reveal_strlit("2");
        reveal_strlit("3");
        reveal_strlit("4");
        reveal_strlit("5");
        reveal_strlit("6");
        reveal_strlit("7");
        reveal_strlit("8");
        reveal_strlit("9");
    }
    let text: &'static str = if d == 0 {
        "0"
    } else if d == 1 {
        "1"
    } else if d == 2 {
        "2"
    } else if d == 3 {
        "3"
    } else if d == 4 {
        "4"
    } else if d == 5 {
        "5"
    } else if d == 6 {
        "6"
    } else if d == 7 {
        "7"
    } else if d == 8 {
        "8"
    } else {
        "9"
    };
    assert(text@ =~= seq![digit_char(d as nat)]);
    out.append(text);
    assert(out@ =~= old(out)@.push(digit_char(d as nat)));
}

fn push_prefix(out: &mut String, p: usize)
    requires
        1 <= p <= 6,
    ensures
        final(out)@ == old(out)@ + seq![' ', prefix_char(p as nat), 'B'],
{
    proof {
        reveal_strlit(" kB");
        reveal_strlit(" MB");
        reveal_strlit(" GB");
        reveal_strlit(" TB");
        reveal_strlit(" PB");
        reveal_strlit(" EB");
    }
    let text: &'static str = if p == 1 {
        " kB"
    } else if p == 2 {
        " MB"
    } else if p == 3 {
        " GB"
    } else if p == 4 {
        " TB"
    } else if p == 5 {
        " PB"
    } else {
        " EB"
    };
    assert(text@ =~= seq![' ', prefix_char(p as nat), 'B']);
    out.append(text);
}

/// Writes the three digits of `m` with `lead + 1` of them before the
/// decimal point, and the prefix `p`.
fn write_layout(m: u64, lead: u64, p: usize) -> (out: String)
    requires
        100 <= m <= 999,
        lead <= 2,
        1 <= p <= 6,
    ensures
        out@ == layout(m as nat, lead as nat, p as nat),
{
    proof {
        reveal_strlit(".");
    }
    let mut out = String::new();
    push_digit(&mut out, m / 100);
    if lead == 0 {
        out.append(".");
    }
    push_digit(&mut out, m / 10 % 10);
    if lead == 1 {
        out.append(".");
    }
    push_digit(&mut out, m % 10);
    push_prefix(&mut out, p);
    assert(out@ =~= layout(m as nat, lead as nat, p as nat));
    out
}

/// Writes a number under a thousand, followed by ` B`.
fn write_bytes(n: u64) -> (out: String)
    requires
        n < 1000,
    ensures
        out@ == decimal(n as nat) + seq![' ', 'B'],
{
    proof {
        reveal_strlit(" B");
        reveal_with_fuel(decimal, 3);
    }
    let mut out = String::new();
    if n >= 100 {
        push_digit(&mut out, n / 100);
    }
    if n >= 10 {
        push_digit(&mut out, n / 10 % 10);
    }
    push_digit(&mut out, n % 10);
    assert(out@ =~= decimal(n as nat));
    out.append(" B");
    assert(out@ =~= decimal(n as nat) + seq![' ', 'B']);
    out
}

/// Whether `top`, cut at its last `d` (a power of ten), goes up: when what
/// is cut is over half of `d`, or is half of it and either something was
/// dropped below `top` or the digit kept is odd.
pub open spec fn rounds_up(top: nat, d: nat, exact: bool) -> bool {
    top % d > d / 2 || (top % d == d / 2 && (!exact || (top / d) % 2 == 1))
}

/// The text for `top` thousandths of a thousand to the power `prefix + 1`,
/// where `top` has four to six digits: `top` is cut to its first three
/// digits, goes up as `rounds_up` says, and a result of a thousand moves
/// the decimal point one place on.
pub open spec fn rounded_layout(top: nat, exact: bool, prefix: nat) -> Seq<char> {
    let lead: nat = if top < 10_000 {
        0
    } else if top < 100_000 {
        1
    } else {
        2
    };
    let d: nat = if lead == 0 {
        10
    } else if lead == 1 {
        100
    } else {
        1000
    };
    let m = top / d + if rounds_up(top, d, exact) {
        1nat
    } else {
        0nat
    };
    if m == 1000 {
        layout(100, (lead + 1) % 3, prefix + 1 + (lead + 1) / 3)
    } else {
        layout(m, lead, prefix + 1)
    }
}

/// Ties the quotient chain of the formatter to `display`: with
/// `n == top * base + low`, where `base` is a thousand to the power
/// `prefix` and `top` has four to six digits, the size is rounded at the
/// fourth digit of `top`.
proof fn lemma_display_from_top(n: nat, top: nat, base: nat, low: nat, prefix: nat)
    requires
        n == top * base + low,
        low < base,
        base == pow10(3 * prefix),
        1000 <= top < 1_000_000,
    ensures
        display(n) == rounded_layout(top, low == 0, prefix),
{
    let lead: nat = if top < 10_000 {
        0
    } else if top < 100_000 {
        1
    } else {
        2
    };
    let e = 3 * prefix + 1 + lead;
    let d = pow10(1 + lead);
    lemma_pow10_values();
    lemma_pow10_add(1 + lead, 3 * prefix);
    lemma_pow10_add(3 + lead, 3 * prefix);
    lemma_pow10_add(4 + lead, 3 * prefix);
    let lo = pow10(3 + lead);
    let hi = pow10(4 + lead);
    assert(lo * base <= n < hi * base) by (nonlinear_arith)
        requires
            n == top * base + low,
            low < base,
            lo <= top < hi,
    ;
    assert(3 + lead + 3 * prefix == e + 2);
    assert(4 + lead + 3 * prefix == e + 3);
    assert(1 + lead + 3 * prefix == e);
    lemma_digit_count(n, e + 3);
    assert(lo >= 1000);
    assert(base >= 1);
    assert(lo * base >= 1000) by (nonlinear_arith)
        requires
            lo >= 1000,
            base >= 1,
    ;
    assert(n >= 1000);
    assert(d % 2 == 0 && d > 0);
    lemma_round_scaled(n, top, base, low, d);
    assert(pow10(e) == d * base);
    assert((e + 2) % 3 == lead && (e + 2) / 3 == prefix + 1);
    assert((e + 3) % 3 == (lead + 1) % 3 && (e + 3) / 3 == prefix + 1 + (lead + 1) / 3);
}

/// Rounds `units + millis / 1000` to three significant digits and writes
/// it with the prefix of a thousand to the power `prefix + 1`. `is_exact`
/// says that the size is no more than that; if it is more, a tie is none.
fn write_rounded(units: u64, millis: u64, is_exact: bool, prefix: usize) -> (out: String)
    requires
        1 <= units < 1000,
        millis < 1000,
        prefix <= 5,
        units == 999 && millis >= 500 ==> prefix <= 4,
    ensures
        out@ == rounded_layout((units * 1000 + millis) as nat, is_exact, prefix as nat),
{
    let ghost top = (units * 1000 + millis) as nat;
    let mut units: u64 = units;
    if units < 10 {
        // One digit before the decimal point.
        let mut frac: u64 = millis / 10;
        let rem: u64 = millis % 10;
        assert(top / 10 == units * 100 + frac && top % 10 == rem);
        assert((top / 10) % 2 == frac % 2);
        if rem > 5 || (rem == 5 && (frac % 2 != 0 || !is_exact)) {
            frac += 1;
            if frac == 100 {
                frac = 0;
                units += 1;
                if units == 10 {
                    return write_layout(100, 1, prefix + 1);
                }
            }
        }
        write_layout(units * 100 + frac, 0, prefix + 1)
    } else if units < 100 {
        // Two digits before the decimal point.
        let mut frac: u64 = millis / 100;
        let rem: u64 = millis % 100;
        assert(top / 100 == units * 10 + frac && top % 100 == rem);
        assert((top / 100) % 2 == frac % 2);
        if rem > 50 || (rem == 50 && (frac % 2 != 0 || !is_exact)) {
            frac += 1;
            if frac == 10 {
                frac = 0;
                units += 1;
                if units == 100 {
                    return write_layout(100, 2, prefix + 1);
                }
            }
        }
        write_layout(units * 10 + frac, 1, prefix + 1)
    } else {
        // Three digits before the decimal point.
        assert(top / 1000 == units && top % 1000 == millis);
        if millis > 500 || (millis == 500 && (units % 2 != 0 || !is_exact)) {
            units += 1;
        }
        if units >= 1000 {
            write_layout(100, 0, prefix + 2)
        } else {
            write_layout(units, 2, prefix + 1)
        }
    }
}

impl ByteSize {
    /// The size as text: a number of three significant digits, rounded to
    /// nearest with ties to even, a space, an SI prefix and `B`. A size
    /// under a thousand bytes is written exactly and without a prefix.
    pub fn to_display_string(&self) -> (out: String)
        ensures
            out@ == display(self.0 as nat),
            self.0 < 1000 ==> out@ == decimal(self.0 as nat) + seq![' ', 'B'],
    {
        let size: u64 = self.0;
        if size < 1000 {
            return write_bytes(size);
        }
        // Divide down by thousands until the units are under 1000. The
        // size is (units + millis / 1000) * 1000^(prefix + 1), plus what
        // the earlier divisions dropped.
        let mut prefix: usize = 0;
        let mut is_exact = true;
        let mut millis: u64 = size % 1000;
        let mut units: u64 = size / 1000;
        let ghost mut base: nat = 1;
        let ghost mut low: nat = 0;
        proof {
            lemma_pow10_values();
        }
        while units >= 1000
            invariant
                prefix <= 5,
                base == pow10(3 * prefix as nat),
                size == (units * 1000 + millis) * base + low,
                low < base,
                is_exact <==> low == 0,
                units >= 1,
                millis < 1000,
            decreases units,
        {
            proof {
                lemma_pow10_values();
                lemma_pow10_add(3, 3 * prefix as nat);
                assert(3 * (prefix + 1) == 3 + 3 * prefix);
                let next_low: nat = (millis * base + low) as nat;
                let next_base: nat = 1000 * base;
                assert(next_low < next_base) by (nonlinear_arith)
                    requires
                        next_low == millis * base + low,
                        next_base == 1000 * base,
                        low < base,
                        millis < 1000,
                ;
                assert(size == units * next_base + next_low) by (nonlinear_arith)
                    requires
                        size == (units * 1000 + millis) * base + low,
                        next_low == millis * base + low,
                        next_base == 1000 * base,
                ;
                assert(size >= 1000 * next_base) by (nonlinear_arith)
                    requires
                        size == units * next_base + next_low,
                        units >= 1000,
                        next_low >= 0,
                        next_base >= 0,
                ;
                // A thousand to the power 7 is more than 64 bits hold.
                assert(prefix == 5 ==> base == 1_000_000_000_000_000);
                assert(prefix <= 4);
                assert((next_low == 0) <==> (millis == 0 && low == 0)) by (nonlinear_arith)
                    requires
                        next_low == millis * base + low,
                        base > 0,
                        low >= 0,
                        millis >= 0,
                ;
                low = next_low;
                base = next_base;
            }
            if millis > 0 {
                is_exact = false;
            }
            prefix += 1;
            millis = units % 1000;
            units = units / 1000;
        }
        proof {
            let top = (units * 1000 + millis) as nat;
            lemma_pow10_values();
            lemma_display_from_top(size as nat, top, base, low, prefix as nat);
            if top >= 999_500 {
                // What goes up to a thousand units is under 1000 EB.
                assert(size >= 999_500 * base) by (nonlinear_arith)
                    requires
                        size == top * base + low,
                        top >= 999_500,
                        base >= 0,
                        low >= 0,
                ;
                assert(prefix == 5 ==> base == 1_000_000_000_000_000);
                assert(prefix <= 4);
            }
        }
        write_rounded(units, millis, is_exact, prefix)
    }
}

} // verus!
