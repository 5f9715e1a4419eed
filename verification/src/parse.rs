//! Reading a byte size from text.

use vstd::prelude::*;
use vstd::string::*;
use vstd::arithmetic::div_mod::lemma_fundamental_div_mod_converse;
use crate::arith::{
    lemma_pow10_add, lemma_pow10_monotonic, lemma_pow10_positive, pow10, round_half_even,
};
use crate::size::{ByteSize, ParseByteSizeError};

verus! {

/// The scale that a prefix letter stands for, in either case: 1 for `k`
/// up to 8 for `y`, and 0 for any other byte.
pub open spec fn prefix_scale(letter: u8) -> nat {
    if letter == 75 || letter == 107 {
        1
    } else if letter == 77 || letter == 109 {
        2
    } else if letter == 71 || letter == 103 {
        3
    } else if letter == 84 || letter == 116 {
        4
    } else if letter == 80 || letter == 112 {
        5
    } else if letter == 69 || letter == 101 {
        6
    } else if letter == 90 || letter == 122 {
        7
    } else if letter == 89 || letter == 121 {
        8
    } else {
        0
    }
}

/// Maps a prefix letter, in either case, to its scale: `k` to 1, `M` to 2,
/// up to `Y` to 8. Any other byte has none.
pub fn parse_prefix(pfx: u8) -> (scale: Option<u32>)
    ensures
        match scale {
            Some(x) => 1 <= x <= 8 && x == prefix_scale(pfx),
            None => prefix_scale(pfx) == 0,
        },
{
    // An upper-case letter and its lower-case form differ in one bit.
    let c: u8 = pfx & !0x20u8;
    assert(c == 75 <==> pfx == 75 || pfx == 107) by (bit_vector)
        requires
            c == pfx & !0x20u8,
    ;
    assert(c == 77 <==> pfx == 77 || pfx == 109) by (bit_vector)
        requires
            c == pfx & !0x20u8,
    ;
    assert(c == 71 <==> pfx == 71 || pfx == 103) by (bit_vector)
        requires
            c == pfx & !0x20u8,
    ;
    assert(c == 84 <==> pfx == 84 || pfx == 116) by (bit_vector)
        requires
            c == pfx & !0x20u8,
    ;
    assert(c == 80 <==> pfx == 80 || pfx == 112) by (bit_vector)
        requires
            c == pfx & !0x20u8,
    ;
    assert(c == 69 <==> pfx == 69 || pfx == 101) by (bit_vector)
        requires
            c == pfx & !0x20u8,
    ;
    assert(c == 90 <==> pfx == 90 || pfx == 122) by (bit_vector)
        requires
            c == pfx & !0x20u8,
    ;
    assert(c == 89 <==> pfx == 89 || pfx == 121) by (bit_vector)
        requires
            c == pfx & !0x20u8,
    ;
    if c == 75 {
        Some(1)
    } else if c == 77 {
        Some(2)
    } else if c == 71 {
        Some(3)
    } else if c == 84 {
        Some(4)
    } else if c == 80 {
        Some(5)
    } else if c == 69 {
        Some(6)
    } else if c == 90 {
        Some(7)
    } else if c == 89 {
        Some(8)
    } else {
        None
    }
}

/// What a text denotes once its number and its units are told apart.
#[derive(Debug, Clone, Copy, PartialEq, Eq)]
pub enum Parsed {
    /// A size with a decimal prefix, or none: its exact value.
    Decimal(ByteSize),
    /// A size with a binary prefix: the number is the first `digits` bytes
    /// of the text, digits with at most one decimal point and at least one
    /// digit, to be multiplied by 1024 to the power `scale`.
    Binary { digits: usize, scale: u32 },
}

/// A decimal digit.
pub open spec fn is_digit(c: u8) -> bool {
    48 <= c <= 57
}

/// A space or a tab.
pub open spec fn is_blank(c: u8) -> bool {
    c == 32 || c == 9
}

/// Where the number that starts at `from` ends: at the first byte that is
/// neither a digit nor a decimal point, or at the end of the text.
pub open spec fn number_end(s: Seq<u8>, from: int) -> int
    decreases s.len() - from,
{
    if 0 <= from < s.len() && (is_digit(s[from]) || s[from] == 46) {
        number_end(s, from + 1)
    } else {
        from
    }
}

/// Where the blanks that start at `from` end.
pub open spec fn blank_end(s: Seq<u8>, from: int) -> int
    decreases s.len() - from,
{
    if 0 <= from < s.len() && is_blank(s[from]) {
        blank_end(s, from + 1)
    } else {
        from
    }
}

/// How many of the first `n` bytes are decimal points.
pub open spec fn count_points(s: Seq<u8>, n: int) -> nat
    decreases n,
{
    if n <= 0 {
        0
    } else {
        count_points(s, n - 1) + if s[n - 1] == 46 {
            1nat
        } else {
            0nat
        }
    }
}

/// How many of the bytes from `from` up to `to` are digits.
pub open spec fn count_digits(s: Seq<u8>, from: int, to: int) -> nat
    decreases to - from,
{
    if to <= from {
        0
    } else {
        count_digits(s, from, to - 1) + if is_digit(s[to - 1]) {
            1nat
        } else {
            0nat
        }
    }
}

/// The number that the digits from `from` up to `to` write, whatever
/// stands between them.
pub open spec fn digits_value(s: Seq<u8>, from: int, to: int) -> nat
    decreases to - from,
{
    if to <= from {
        0
    } else if is_digit(s[to - 1]) {
        10 * digits_value(s, from, to - 1) + (s[to - 1] - 48) as nat
    } else {
        digits_value(s, from, to - 1)
    }
}

/// How many of the first `n` bytes stand after the last decimal point
/// among them; none where there is no point.
pub open spec fn frac_digits(s: Seq<u8>, n: int) -> nat
    decreases n,
{
    if n <= 0 || s[n - 1] == 46 || count_points(s, n - 1) == 0 {
        0
    } else {
        frac_digits(s, n - 1) + 1
    }
}

/// The size that the number in the first `end` bytes denotes in units of a
/// thousand to the power `scale`: the number times the unit, rounded to
/// the nearest integer, a tie going to the even one.
pub open spec fn decimal_value(s: Seq<u8>, end: int, scale: nat) -> nat {
    let value = digits_value(s, 0, end);
    let frac = frac_digits(s, end);
    if frac <= 3 * scale {
        value * pow10((3 * scale - frac) as nat)
    } else {
        round_half_even(value, pow10((frac - 3 * scale) as nat))
    }
}

/// The units that start at `from`, after blanks and without a closing `b`
/// or `B`: nothing, a prefix letter, or a prefix letter and `i`. Gives the
/// scale of the prefix and whether it is a binary one.
pub open spec fn units_spec(s: Seq<u8>, from: int) -> Option<(u32, bool)> {
    let a = blank_end(s, from);
    let last = s[s.len() - 1];
    let z = if a < s.len() && (last == 98 || last == 66) {
        s.len() - 1
    } else {
        s.len() as int
    };
    if z == a {
        Some((0u32, false))
    } else if prefix_scale(s[a]) == 0 {
        None
    } else if z == a + 1 {
        Some((prefix_scale(s[a]) as u32, false))
    } else if z == a + 2 && (s[a + 1] == 105 || s[a + 1] == 73) {
        Some((prefix_scale(s[a]) as u32, true))
    } else {
        None
    }
}

/// What a text denotes. An empty text is refused first, a number with two
/// decimal points next, unknown units after that, and last a number
/// without a digit before a binary prefix, or a decimal size that 64 bits
/// cannot hold.
pub open spec fn parse_spec(s: Seq<u8>) -> Result<Parsed, ParseByteSizeError> {
    let end = number_end(s, 0);
    if s.len() == 0 {
        Err(ParseByteSizeError::Empty)
    } else if count_points(s, end) >= 2 {
        Err(ParseByteSizeError::InvalidNumber)
    } else {
        match units_spec(s, end) {
            None => Err(ParseByteSizeError::InvalidUnits),
            Some((scale, binary)) => if binary {
                if count_digits(s, 0, end) == 0 {
                    Err(ParseByteSizeError::InvalidNumber)
                } else {
                    Ok(Parsed::Binary { digits: end as usize, scale })
                }
            } else {
                let value = decimal_value(s, end, scale as nat);
                if value > u64::MAX {
                    Err(ParseByteSizeError::Overflow)
                } else {
                    Ok(Parsed::Decimal(ByteSize(value as u64)))
                }
            },
        }
    }
}

/// The first `end` bytes are digits, but for a decimal point at `ipos` if
/// `ipos` is under `end`.
pub open spec fn number_shape(s: Seq<u8>, end: int, ipos: int) -> bool {
    &&& 0 <= ipos <= end <= s.len()
    &&& ipos < end ==> s[ipos] == 46
    &&& forall|j: int| 0 <= j < end && j != ipos ==> is_digit(#[trigger] s[j])
}

proof fn lemma_number_end_bounds(s: Seq<u8>, from: int)
    requires
        0 <= from <= s.len(),
    ensures
        from <= number_end(s, from) <= s.len(),
    decreases s.len() - from,
{
    if from < s.len() && (is_digit(s[from]) || s[from] == 46) {
        lemma_number_end_bounds(s, from + 1);
    }
}

proof fn lemma_count_points_monotonic(s: Seq<u8>, a: int, b: int)
    requires
        a <= b,
    ensures
        count_points(s, a) <= count_points(s, b),
    decreases b - a,
{
    if a < b {
        lemma_count_points_monotonic(s, a, b - 1);
    }
}

/// In a number of the given shape the counts are plain differences.
proof fn lemma_shape_counts(s: Seq<u8>, end: int, ipos: int, a: int, n: int)
    requires
        number_shape(s, end, ipos),
        0 <= a <= n <= end,
    ensures
        count_points(s, n) == if n > ipos {
            1nat
        } else {
            0nat
        },
        frac_digits(s, n) == if n > ipos {
            n - 1 - ipos
        } else {
            0
        },
        count_digits(s, a, n) == if a <= ipos < n {
            n - a - 1
        } else {
            n - a
        },
    decreases n,
{
    if n > 0 {
        if a < n {
            lemma_shape_counts(s, end, ipos, a, n - 1);
        } else {
            lemma_shape_counts(s, end, ipos, n - 1, n - 1);
        }
        assert(n - 1 != ipos ==> is_digit(s[n - 1]));
    }
}

/// The digits up to `c` write what the digits up to `b` write, moved left
/// by the digits that follow, plus what those write.
proof fn lemma_digits_split(s: Seq<u8>, a: int, b: int, c: int)
    requires
        a <= b <= c,
    ensures
        digits_value(s, a, c) == digits_value(s, a, b) * pow10(count_digits(s, b, c))
            + digits_value(s, b, c),
    decreases c - b,
{
    if b < c {
        lemma_digits_split(s, a, b, c - 1);
        let x = digits_value(s, a, b);
        let p = pow10(count_digits(s, b, c - 1));
        let y = digits_value(s, b, c - 1);
        if is_digit(s[c - 1]) {
            assert(10 * (x * p + y) == x * (10 * p) + 10 * y) by (nonlinear_arith);
        }
    } else {
        assert(digits_value(s, a, b) * 1 == digits_value(s, a, b));
    }
}

proof fn lemma_digits_bound(s: Seq<u8>, a: int, b: int)
    requires
        a <= b,
    ensures
        digits_value(s, a, b) < pow10(count_digits(s, a, b)),
    decreases b - a,
{
    if a < b {
        lemma_digits_bound(s, a, b - 1);
    }
}

/// A number is at least what its first digits write.
proof fn lemma_value_at_least(s: Seq<u8>, end: int, ipos: int, scale: nat, to: int)
    requires
        number_shape(s, end, ipos),
        0 <= to <= end,
        frac_digits(s, to) <= 3 * scale,
    ensures
        decimal_value(s, end, scale) >= digits_value(s, 0, to),
{
    let w = digits_value(s, 0, to);
    let value = digits_value(s, 0, end);
    let k = count_digits(s, to, end);
    let frac = frac_digits(s, end);
    lemma_digits_split(s, 0, to, end);
    lemma_shape_counts(s, end, ipos, to, end);
    lemma_shape_counts(s, end, ipos, 0, to);
    lemma_pow10_positive(k);
    assert(value >= w * pow10(k));
    if frac <= 3 * scale {
        let pad = (3 * scale - frac) as nat;
        lemma_pow10_positive(pad);
        assert(value * pow10(pad) >= w) by (nonlinear_arith)
            requires
                value >= w * pow10(k),
                pow10(k) >= 1,
                pow10(pad) >= 1,
                w >= 0,
        ;
    } else {
        let t = (frac - 3 * scale) as nat;
        assert(t <= k);
        let rest = (k - t) as nat;
        lemma_pow10_add(rest, t);
        lemma_pow10_positive(rest);
        lemma_pow10_positive(t);
        let step = pow10(t);
        let q = value / step;
        assert(q >= w) by (nonlinear_arith)
            requires
                value >= w * pow10(k),
                pow10(k) == pow10(rest) * step,
                pow10(rest) >= 1,
                step >= 1,
                q == value / step,
                w >= 0,
        ;
    }
}

/// Finds the end of the number and its decimal point, if it has one.
/// Gives the end and the index of the point, or the end where none is.
fn scan_number(src: &[u8]) -> (r: Option<(usize, usize)>)
    ensures
        match r {
            Some((end, ipos)) => end == number_end(src@, 0) && number_shape(
                src@,
                end as int,
                ipos as int,
            ) && count_points(src@, end as int) <= 1,
            None => count_points(src@, number_end(src@, 0)) >= 2,
        },
{
    let mut point: Option<usize> = None;
    let mut n: usize = 0;
    proof {
        lemma_number_end_bounds(src@, 0);
    }
    while n < src.len() && ((48 <= src[n] && src[n] <= 57) || src[n] == 46)
        invariant
            n <= src.len(),
            number_end(src@, 0) == number_end(src@, n as int),
            match point {
                Some(p) => p < n && number_shape(src@, n as int, p as int),
                None => number_shape(src@, n as int, n as int),
            },
        decreases src.len() - n,
    {
        if src[n] == 46 {
            match point {
                Some(p) => {
                    proof {
                        lemma_shape_counts(src@, n as int, p as int, 0, n as int);
                        lemma_number_end_bounds(src@, n as int + 1);
                        lemma_count_points_monotonic(
                            src@,
                            n as int + 1,
                            number_end(src@, 0),
                        );
                    }
                    return None;
                },
                None => {
                    point = Some(n);
                },
            }
        }
        n += 1;
    }
    let ipos: usize = match point {
        Some(p) => p,
        None => n,
    };
    proof {
        lemma_shape_counts(src@, n as int, ipos as int, 0, n as int);
    }
    Some((n, ipos))
}

/// Reads the units that follow the number.
fn parse_units(src: &[u8], from: usize) -> (r: Option<(u32, bool)>)
    requires
        from <= src.len(),
    ensures
        r == units_spec(src@, from as int),
{
    let mut a: usize = from;
    while a < src.len() && (src[a] == 32 || src[a] == 9)
        invariant
            from <= a <= src.len(),
            blank_end(src@, from as int) == blank_end(src@, a as int),
        decreases src.len() - a,
    {
        a += 1;
    }
    let mut z: usize = src.len();
    if a < z && (src[z - 1] == 98 || src[z - 1] == 66) {
        z -= 1;
    }
    if z == a {
        return Some((0, false));
    }
    let scale: u32 = match parse_prefix(src[a]) {
        None => {
            return None;
        },
        Some(x) => x,
    };
    if z == a + 1 {
        Some((scale, false))
    } else if z == a + 2 && (src[a + 1] == 105 || src[a + 1] == 73) {
        Some((scale, true))
    } else {
        None
    }
}

/// Whether what follows a first fractional digit of five is more than
/// nothing: whether any byte from `from` up to `end` is not a zero.
fn any_nonzero(src: &[u8], from: usize, end: usize) -> (found: bool)
    requires
        from <= end <= src.len(),
        forall|j: int| from <= j < end ==> is_digit(#[trigger] src@[j]),
    ensures
        found <==> digits_value(src@, from as int, end as int) > 0,
{
    let mut j: usize = from;
    while j < end
        invariant
            from <= j <= end <= src.len(),
            forall|j: int| from <= j < end ==> is_digit(#[trigger] src@[j]),
            digits_value(src@, from as int, j as int) == 0,
        decreases end - j,
    {
        if src[j] != 48 {
            proof {
                lemma_digits_split(src@, from as int, j as int + 1, end as int);
                lemma_pow10_positive(count_digits(src@, j as int + 1, end as int));
                let x = digits_value(src@, from as int, j as int + 1);
                let p = pow10(count_digits(src@, j as int + 1, end as int));
                assert(x * p >= 1) by (nonlinear_arith)
                    requires
                        x >= 1,
                        p >= 1,
                ;
            }
            return true;
        }
        j += 1;
    }
    false
}

/// Where the digits left of the effective decimal point end at `i`, the
/// size is what they write, and one more as the digits that follow say.
proof fn lemma_round_at(s: Seq<u8>, end: int, ipos: int, scale: nat, i: int)
    requires
        number_shape(s, end, ipos),
        ipos < i < end,
        i - 1 - ipos == 3 * scale,
    ensures
        decimal_value(s, end, scale) == digits_value(s, 0, i) + if s[i] > 53 || (s[i] == 53 && (
            digits_value(s, i + 1, end) > 0 || digits_value(s, 0, i) % 2 == 1)) {
            1nat
        } else {
            0nat
        },
{
    let v = digits_value(s, 0, i);
    let value = digits_value(s, 0, end);
    let tail = digits_value(s, i, end);
    let rest = digits_value(s, i + 1, end);
    let k = (end - i) as nat;
    let step = pow10(k);
    let unit = pow10((k - 1) as nat);
    let c = (s[i] - 48) as nat;
    lemma_shape_counts(s, end, ipos, 0, end);
    lemma_shape_counts(s, end, ipos, i, end);
    lemma_shape_counts(s, end, ipos, i + 1, end);
    lemma_digits_split(s, 0, i, end);
    lemma_digits_split(s, i, i + 1, end);
    lemma_digits_bound(s, i, end);
    lemma_digits_bound(s, i + 1, end);
    lemma_pow10_positive((k - 1) as nat);
    assert(is_digit(s[i]));
    reveal_with_fuel(digits_value, 2);
    assert(digits_value(s, i, i + 1) == c);
    assert(step == 10 * unit);
    assert(tail == c * unit + rest);
    assert(rest < unit);
    assert(value == v * step + tail);
    lemma_fundamental_div_mod_converse(value as int, step as int, v as int, tail as int);
    assert(frac_digits(s, end) - 3 * scale == k);
    assert((2 * tail > step) <==> (c > 5 || (c == 5 && rest > 0))) by (nonlinear_arith)
        requires
            tail == c * unit + rest,
            step == 10 * unit,
            0 <= rest < unit,
            0 <= c,
    ;
    assert((2 * tail == step) <==> (c == 5 && rest == 0)) by (nonlinear_arith)
        requires
            tail == c * unit + rest,
            step == 10 * unit,
            0 <= rest < unit,
            0 <= c,
    ;
}

/// The size that a number with a decimal prefix denotes, or nothing where
/// 64 bits cannot hold it. The digits left of the decimal point, once it
/// is moved right by three places for each step of `scale`, are summed up;
/// missing places count as zeros; and the digits that are left round the
/// sum to nearest, a tie going to the even neighbour.
fn decimal_magnitude(src: &[u8], end: usize, ipos: usize, scale: u32) -> (r: Option<u64>)
    requires
        number_shape(src@, end as int, ipos as int),
        scale <= 8,
    ensures
        match r {
            Some(v) => v == decimal_value(src@, end as int, scale as nat),
            None => decimal_value(src@, end as int, scale as nat) > u64::MAX,
        },
{
    let mut extra: u32 = 3 * scale;
    let mut v: u64 = 0;
    let mut i: usize = 0;
    while i < end && (src[i] == 46 || i <= ipos || extra > 0)
        invariant
            i <= end <= src.len(),
            number_shape(src@, end as int, ipos as int),
            scale <= 8,
            v == digits_value(src@, 0, i as int),
            frac_digits(src@, i as int) + extra == 3 * scale,
        decreases end - i,
    {
        let c: u8 = src[i];
        proof {
            lemma_shape_counts(src@, end as int, ipos as int, 0, i as int);
            lemma_shape_counts(src@, end as int, ipos as int, 0, i as int + 1);
        }
        if c != 46 {
            if i > ipos {
                extra -= 1;
            }
            let d: u64 = (c - 48) as u64;
            if v > (u64::MAX - d) / 10 {
                proof {
                    lemma_value_at_least(src@, end as int, ipos as int, scale as nat, i as int + 1);
                }
                return None;
            }
            v = v * 10 + d;
        }
        i += 1;
    }
    proof {
        lemma_shape_counts(src@, end as int, ipos as int, 0, i as int);
    }
    if i < end {
        // The digit at `i` is the first that is cut off.
        let c: u8 = src[i];
        proof {
            lemma_round_at(src@, end as int, ipos as int, scale as nat, i as int);
        }
        let round_up = if c > 53 {
            true
        } else if c < 53 {
            false
        } else if v % 2 != 0 {
            true
        } else {
            any_nonzero(src, i + 1, end)
        };
        if round_up {
            if v == u64::MAX {
                return None;
            }
            v += 1;
        }
        Some(v)
    } else {
        // The number ends left of the decimal point: fill up with zeros.
        let ghost value = v as nat;
        let ghost pad = extra as nat;
        proof {
            assert(value * pow10(0) == value) by (nonlinear_arith)
                requires
                    pow10(0) == 1,
            ;
        }
        while extra > 0
            invariant
                extra <= pad,
                v == value * pow10((pad - extra) as nat),
                decimal_value(src@, end as int, scale as nat) == value * pow10(pad),
            decreases extra,
        {
            proof {
                let done = (pad - extra) as nat;
                lemma_pow10_monotonic(done + 1, pad);
                assert(value * pow10(done + 1) == 10 * (value * pow10(done))) by (nonlinear_arith)
                    requires
                        pow10(done + 1) == 10 * pow10(done),
                ;
                assert(value * pow10(done + 1) <= value * pow10(pad)) by (nonlinear_arith)
                    requires
                        pow10(done + 1) <= pow10(pad),
                        value >= 0,
                ;
            }
            if v > u64::MAX / 10 {
                return None;
            }
            v = v * 10;
            extra -= 1;
        }
        Some(v)
    }
}

/// Reads a size from the bytes of a text, as `ByteSize::parse` does.
pub fn parse_bytes(src: &[u8]) -> (r: Result<Parsed, ParseByteSizeError>)
    ensures
        r == parse_spec(src@),
{
    if src.len() == 0 {
        return Err(ParseByteSizeError::Empty);
    }
    let (end, ipos) = match scan_number(src) {
        None => {
            return Err(ParseByteSizeError::InvalidNumber);
        },
        Some(found) => found,
    };
    let (scale, binary) = match parse_units(src, end) {
        None => {
            return Err(ParseByteSizeError::InvalidUnits);
        },
        Some(units) => units,
    };
    if binary {
        proof {
            lemma_shape_counts(src@, end as int, ipos as int, 0, end as int);
        }
        // Without a digit there is no number to multiply.
        if end == 0 || (end == 1 && ipos == 0) {
            return Err(ParseByteSizeError::InvalidNumber);
        }
        return Ok(Parsed::Binary { digits: end, scale });
    }
    match decimal_magnitude(src, end, ipos, scale) {
        None => Err(ParseByteSizeError::Overflow),
        Some(v) => Ok(Parsed::Decimal(ByteSize(v))),
    }
}

impl ByteSize {
    /// Reads a size from text: a number with at most one decimal point,
    /// blanks, and units made of an SI prefix letter in either case, an
    /// `i` for a binary prefix, and `b` or `B`, each of which may be left
    /// out.
    ///
    /// With a decimal prefix, or none, the result is the exact size,
    /// rounded to a whole number of bytes with ties to even. With a binary
    /// prefix the result names the number and the scale, for the caller to
    /// multiply in floating point.
    pub fn parse(src: &str) -> (r: Result<Parsed, ParseByteSizeError>)
        ensures
            r == parse_spec(src.spec_bytes()),
    {
        parse_bytes(src.as_bytes())
    }

    /// The size for a binary-prefixed number once it is multiplied out and
    /// rounded: the value itself, unless 64 bits cannot hold it.
    pub fn from_scaled(value: u128) -> (r: Result<ByteSize, ParseByteSizeError>)
        ensures
            r == if value > u64::MAX {
                Err::<ByteSize, ParseByteSizeError>(ParseByteSizeError::Overflow)
            } else {
                Ok(ByteSize(value as u64))
            },
    {
        if value > 18446744073709551615u128 {
            Err(ParseByteSizeError::Overflow)
        } else {
            Ok(ByteSize(value as u64))
        }
    }
}

} // verus!
