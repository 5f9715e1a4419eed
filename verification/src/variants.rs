//! Texts that read alike: the case of the letters does not count, and
//! neither does a closing `b` or `B`, nor a blank between the number and
//! its units.

use vstd::prelude::*;
use crate::parse::{
    blank_end, count_digits, count_points, digits_value, frac_digits, is_blank, is_digit,
    number_end, parse_spec, prefix_scale, units_spec,
};

verus! {

/// A letter of the ASCII alphabet.
pub open spec fn is_letter(c: u8) -> bool {
    65 <= c <= 90 || 97 <= c <= 122
}

/// The same byte, or the same letter in the other case.
pub open spec fn same_but_case(a: u8, b: u8) -> bool {
    a == b || (is_letter(a) && is_letter(b) && (a + 32 == b || b + 32 == a))
}

/// Texts of one length that differ in the case of their letters at most.
pub open spec fn alike(s: Seq<u8>, t: Seq<u8>) -> bool {
    &&& s.len() == t.len()
    &&& forall|i: int| 0 <= i < s.len() ==> same_but_case(#[trigger] s[i], t[i])
}

/// The first `n` bytes of both texts are the same.
pub open spec fn same_start(s: Seq<u8>, t: Seq<u8>, n: int) -> bool {
    &&& 0 <= n <= s.len()
    &&& n <= t.len()
    &&& forall|i: int| 0 <= i < n ==> #[trigger] s[i] == t[i]
}

proof fn lemma_alike_number(s: Seq<u8>, t: Seq<u8>, n: int)
    requires
        alike(s, t),
        0 <= n <= s.len(),
    ensures
        count_points(s, n) == count_points(t, n),
        count_digits(s, 0, n) == count_digits(t, 0, n),
        digits_value(s, 0, n) == digits_value(t, 0, n),
        frac_digits(s, n) == frac_digits(t, n),
    decreases n,
{
    if n > 0 {
        lemma_alike_number(s, t, n - 1);
        assert(same_but_case(s[n - 1], t[n - 1]));
    }
}

proof fn lemma_alike_ends(s: Seq<u8>, t: Seq<u8>, from: int)
    requires
        alike(s, t),
        0 <= from <= s.len(),
    ensures
        number_end(s, from) == number_end(t, from),
        blank_end(s, from) == blank_end(t, from),
        from <= number_end(s, from) <= s.len(),
        from <= blank_end(s, from) <= s.len(),
    decreases s.len() - from,
{
    if from < s.len() {
        lemma_alike_ends(s, t, from + 1);
        assert(same_but_case(s[from], t[from]));
    }
}

/// The case of its letters does not change what a text denotes.
pub proof fn lemma_case_does_not_count(s: Seq<u8>, t: Seq<u8>)
    requires
        alike(s, t),
    ensures
        parse_spec(s) == parse_spec(t),
{
    if s.len() > 0 {
        lemma_alike_ends(s, t, 0);
        let end = number_end(s, 0);
        lemma_alike_number(s, t, end);
        lemma_alike_ends(s, t, end);
        let a = blank_end(s, end);
        let last = s.len() - 1;
        assert(same_but_case(s[last], t[last]));
        if a < s.len() {
            assert(same_but_case(s[a], t[a]));
            assert(prefix_scale(s[a]) == prefix_scale(t[a]));
        }
        if a + 1 < s.len() {
            assert(same_but_case(s[a + 1], t[a + 1]));
        }
        assert(units_spec(s, end) == units_spec(t, end));
    }
}

proof fn lemma_same_start_number(s: Seq<u8>, t: Seq<u8>, n: int, upto: int)
    requires
        same_start(s, t, n),
        0 <= upto <= n,
    ensures
        count_points(s, upto) == count_points(t, upto),
        count_digits(s, 0, upto) == count_digits(t, 0, upto),
        digits_value(s, 0, upto) == digits_value(t, 0, upto),
        frac_digits(s, upto) == frac_digits(t, upto),
    decreases upto,
{
    if upto > 0 {
        lemma_same_start_number(s, t, n, upto - 1);
    }
}

/// A byte that is added behind a text, and is neither a digit, a decimal
/// point nor a blank, moves neither the end of the number nor that of the
/// blanks.
proof fn lemma_pushed_ends(s: Seq<u8>, x: u8, from: int)
    requires
        0 <= from <= s.len(),
        !is_digit(x),
        x != 46,
        !is_blank(x),
    ensures
        number_end(s.push(x), from) == number_end(s, from),
        blank_end(s.push(x), from) == blank_end(s, from),
        from <= number_end(s, from) <= s.len(),
        from <= blank_end(s, from) <= s.len(),
    decreases s.len() - from,
{
    let t = s.push(x);
    if from < s.len() {
        lemma_pushed_ends(s, x, from + 1);
        assert(t[from] == s[from]);
    } else {
        assert(t[from] == x);
        reveal_with_fuel(number_end, 2);
        reveal_with_fuel(blank_end, 2);
    }
}

/// A `B`, in either case, may close a text that does not end in one: what
/// the text denotes stays the same.
pub proof fn lemma_closing_letter(s: Seq<u8>, x: u8)
    requires
        s.len() > 0,
        x == 66 || x == 98,
        s.last() != 66,
        s.last() != 98,
    ensures
        parse_spec(s.push(x)) == parse_spec(s),
{
    let t = s.push(x);
    lemma_pushed_ends(s, x, 0);
    let end = number_end(s, 0);
    lemma_pushed_ends(s, x, end);
    assert(same_start(s, t, s.len() as int));
    lemma_same_start_number(s, t, s.len() as int, end);
    let a = blank_end(s, end);
    assert(t.last() == x);
    if a < s.len() {
        assert(t[a] == s[a]);
    }
    if a + 1 < s.len() {
        assert(t[a + 1] == s[a + 1]);
    }
    assert(units_spec(t, end) == units_spec(s, end));
}

/// The number that starts at `from` ends where the digits and decimal
/// points do.
proof fn lemma_number_end_found(s: Seq<u8>, from: int, end: int)
    requires
        0 <= from <= end <= s.len(),
        forall|i: int| from <= i < end ==> is_digit(#[trigger] s[i]) || s[i] == 46,
        end < s.len() ==> !is_digit(s[end]) && s[end] != 46,
    ensures
        number_end(s, from) == end,
    decreases end - from,
{
    if from < end {
        lemma_number_end_found(s, from + 1, end);
    }
}

proof fn lemma_number_end_holds(s: Seq<u8>, from: int)
    requires
        0 <= from <= s.len(),
    ensures
        from <= number_end(s, from) <= s.len(),
        forall|i: int|
            from <= i < number_end(s, from) ==> is_digit(#[trigger] s[i]) || s[i] == 46,
        number_end(s, from) < s.len() ==> !is_digit(s[number_end(s, from)]) && s[number_end(
            s,
            from,
        )] != 46,
    decreases s.len() - from,
{
    if from < s.len() && (is_digit(s[from]) || s[from] == 46) {
        lemma_number_end_holds(s, from + 1);
    }
}

/// With a byte put in at `at`, the blanks behind it end one place on.
proof fn lemma_shifted_blank_end(s: Seq<u8>, at: int, x: u8, from: int)
    requires
        0 <= at <= from <= s.len(),
    ensures
        blank_end(s.insert(at, x), from + 1) == blank_end(s, from) + 1,
        from <= blank_end(s, from) <= s.len(),
    decreases s.len() - from,
{
    let t = s.insert(at, x);
    if from < s.len() {
        lemma_shifted_blank_end(s, at, x, from + 1);
        assert(t[from + 1] == s[from]);
    }
}

/// A blank may stand between the number and what follows it: what the
/// text denotes stays the same.
pub proof fn lemma_blank_before_units(s: Seq<u8>, x: u8)
    requires
        s.len() > 0,
        is_blank(x),
    ensures
        parse_spec(s.insert(number_end(s, 0), x)) == parse_spec(s),
{
    let end = number_end(s, 0);
    lemma_number_end_holds(s, 0);
    let t = s.insert(end, x);
    assert(t.len() == s.len() + 1);
    assert(t[end] == x);
    assert forall|i: int| 0 <= i < end implies #[trigger] t[i] == s[i] by {}
    assert forall|i: int| end <= i < s.len() implies #[trigger] t[i + 1] == s[i] by {}
    lemma_number_end_found(t, 0, end);
    assert(same_start(s, t, end));
    lemma_same_start_number(s, t, end, end);
    lemma_shifted_blank_end(s, end, x, end);
    let a = blank_end(s, end);
    assert(blank_end(t, end) == a + 1);
    if end < s.len() {
        assert(t[s.len() as int] == s[s.len() - 1]);
    }
    if a < s.len() {
        assert(t[a + 1] == s[a]);
    }
    if a + 1 < s.len() {
        assert(t[a + 2] == s[a + 1]);
    }
    assert(units_spec(t, end) == units_spec(s, end));
}

} // verus!
