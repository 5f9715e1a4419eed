//! Powers of ten, digit counts and rounding to the nearest multiple.

use vstd::prelude::*;
use vstd::arithmetic::div_mod::lemma_fundamental_div_mod;
use vstd::arithmetic::div_mod::lemma_fundamental_div_mod_converse;

verus! {

/// Ten to the power `e`.
pub open spec fn pow10(e: nat) -> nat
    decreases e,
{
    if e == 0 {
        1
    } else {
        10 * pow10((e - 1) as nat)
    }
}

/// The number of decimal digits of `n`; zero has one digit.
pub open spec fn digit_count(n: nat) -> nat
    decreases n,
{
    if n < 10 {
        1
    } else {
        1 + digit_count(n / 10)
    }
}

/// `n / step` rounded to the nearest integer; a tie goes to the even one.
pub open spec fn round_half_even(n: nat, step: nat) -> nat
    recommends
        step > 0,
{
    let q = n / step;
    let r = n % step;
    if 2 * r > step || (2 * r == step && q % 2 == 1) {
        q + 1
    } else {
        q
    }
}

/// A power of ten is at least one.
pub proof fn lemma_pow10_positive(e: nat)
    ensures
        pow10(e) >= 1,
    decreases e,
{
    if e > 0 {
        lemma_pow10_positive((e - 1) as nat);
    }
}

/// The small powers of ten, and the largest that a thousand-fold size fits.
pub proof fn lemma_pow10_values()
    ensures
        pow10(0) == 1,
        pow10(1) == 10,
        pow10(2) == 100,
        pow10(3) == 1000,
        pow10(4) == 10_000,
        pow10(5) == 100_000,
        pow10(6) == 1_000_000,
        pow10(15) == 1_000_000_000_000_000,
        pow10(16) == 10_000_000_000_000_000,
        pow10(17) == 100_000_000_000_000_000,
        pow10(20) == 100_000_000_000_000_000_000,
{
    reveal_with_fuel(pow10, 7);
    assert(pow10(6) == 1_000_000);
    lemma_pow10_add(6, 6);
    lemma_pow10_add(12, 3);
    lemma_pow10_add(15, 1);
    lemma_pow10_add(15, 2);
    lemma_pow10_add(15, 5);
}

/// Exponents add where powers multiply.
pub proof fn lemma_pow10_add(a: nat, b: nat)
    ensures
        pow10(a + b) == pow10(a) * pow10(b),
    decreases a,
{
    if a > 0 {
        let a1 = (a - 1) as nat;
        lemma_pow10_add(a1, b);
        assert(a + b - 1 == a1 + b);
        assert(pow10(a + b) == 10 * pow10(a1 + b));
        assert(10 * (pow10(a1) * pow10(b)) == (10 * pow10(a1)) * pow10(b)) by (nonlinear_arith);
    } else {
        assert(a + b == b);
        assert(1 * pow10(b) == pow10(b));
    }
}

/// A larger exponent gives no smaller power.
pub proof fn lemma_pow10_monotonic(a: nat, b: nat)
    requires
        a <= b,
    ensures
        pow10(a) <= pow10(b),
{
    lemma_pow10_add(a, (b - a) as nat);
    lemma_pow10_positive((b - a) as nat);
    lemma_pow10_positive(a);
    assert(pow10(a) * 1 <= pow10(a) * pow10((b - a) as nat)) by (nonlinear_arith)
        requires
            pow10((b - a) as nat) >= 1,
    ;
}

/// A number between two neighbouring powers of ten has as many digits as
/// the larger power has zeros.
pub proof fn lemma_digit_count(n: nat, d: nat)
    requires
        d >= 1,
        pow10((d - 1) as nat) <= n < pow10(d),
    ensures
        digit_count(n) == d,
    decreases d,
{
    reveal_with_fuel(pow10, 2);
    if d > 1 {
        lemma_pow10_positive((d - 2) as nat);
        lemma_digit_count(n / 10, (d - 1) as nat);
    }
}

/// A number lies between the powers of ten that its digit count names.
pub proof fn lemma_digit_count_bounds(n: nat)
    ensures
        n < pow10(digit_count(n)),
        n >= 10 ==> pow10((digit_count(n) - 1) as nat) <= n,
    decreases n,
{
    reveal_with_fuel(pow10, 2);
    if n >= 10 {
        lemma_digit_count_bounds(n / 10);
        if n / 10 < 10 {
            assert(digit_count(n / 10) == 1);
        }
    }
}

/// A number rounded to a multiple of `step` moves by half a step at most.
pub proof fn lemma_round_distance(n: nat, step: nat)
    requires
        step > 0,
    ensures
        2 * (round_half_even(n, step) * step - n) <= step,
        2 * (n - round_half_even(n, step) * step) <= step,
{
    let q = n / step;
    let r = n % step;
    lemma_fundamental_div_mod(n as int, step as int);
    assert(n == q * step + r) by (nonlinear_arith)
        requires
            n == step * q + r,
    ;
    assert((q + 1) * step == q * step + step) by (nonlinear_arith);
}

/// Rounding `top * base + low` to a multiple of `d * base` looks only at
/// `top`, and at whether `low` is zero.
pub proof fn lemma_round_scaled(n: nat, top: nat, base: nat, low: nat, d: nat)
    requires
        n == top * base + low,
        low < base,
        d > 0,
        d % 2 == 0,
    ensures
        round_half_even(n, d * base) == top / d + if top % d > d / 2 || (top % d == d / 2 && (low
            > 0 || (top / d) % 2 == 1)) {
            1nat
        } else {
            0nat
        },
{
    let q = top / d;
    let t = top % d;
    let h = d / 2;
    let r = t * base + low;
    let step = d * base;
    lemma_fundamental_div_mod(top as int, d as int);
    assert(top == q * d + t) by (nonlinear_arith)
        requires
            top == d * q + t,
    ;
    assert(0 <= t < d);
    assert(d == 2 * h);
    assert(n == q * step + r) by (nonlinear_arith)
        requires
            n == top * base + low,
            top == q * d + t,
            r == t * base + low,
            step == d * base,
    ;
    assert(0 <= r < step) by (nonlinear_arith)
        requires
            r == t * base + low,
            step == d * base,
            low < base,
            0 <= t < d,
    ;
    assert(step > 0) by (nonlinear_arith)
        requires
            step == d * base,
            d > 0,
            base > 0,
    ;
    lemma_fundamental_div_mod_converse(n as int, step as int, q as int, r as int);
    assert(n / step == q && n % step == r);
    assert(step == 2 * h * base) by (nonlinear_arith)
        requires
            step == d * base,
            d == 2 * h,
    ;
    assert((2 * r > step) <==> (t > h || (t == h && low > 0))) by (nonlinear_arith)
        requires
            r == t * base + low,
            step == 2 * h * base,
            low < base,
    ;
    assert((2 * r == step) <==> (t == h && low == 0)) by (nonlinear_arith)
        requires
            r == t * base + low,
            step == 2 * h * base,
            low < base,
    ;
}

} // verus!
