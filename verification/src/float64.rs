//! Double-precision arithmetic on bit patterns.
//!
//! A binary64 number that is not the heuristic's own may have any size, so it is
//! kept as its bit pattern. Sums and products are rounded as the hardware does:
//! to nearest, ties to even, gradually towards zero, and to infinity where they
//! are too great.

use vstd::arithmetic::div_mod::{lemma_fundamental_div_mod, lemma_fundamental_div_mod_converse};
use vstd::arithmetic::power2::{
    lemma_pow2_adds, lemma_pow2_pos, lemma_pow2_strictly_increases, lemma_pow2_unfold, pow2,
};
use vstd::prelude::*;

use crate::binary64::{
    clamp_i32, excess_bits, half_up, is_finite64, is_nan, is_representable, lemma_nearest_multiple,
    lemma_spacing, magnitude, nearest_multiple, pattern_magnitude, pattern_value, round53,
    short_numbers_are_representable, spacing, stands_for,
};

verus! {

/// A number's sign.
pub open spec fn is_negative(bits: u64) -> bool {
    bits >= 0x8000_0000_0000_0000
}

/// A pattern without its sign.
pub open spec fn body_of(bits: u64) -> int {
    bits as int % 0x8000_0000_0000_0000
}

pub open spec fn is_zero(bits: u64) -> bool {
    body_of(bits) == 0
}

/// What stands for no number.
pub const NAN64: u64 = 0x7ff8_0000_0000_0000;

/// One half.
pub const HALF64: u64 = 0x3fe0_0000_0000_0000;

pub open spec fn signed(negative: bool, body: int) -> u64 {
    if negative {
        (body + 0x8000_0000_0000_0000) as u64
    } else {
        body as u64
    }
}

// ---------------------------------------------------------------------------
// Rounding
// ---------------------------------------------------------------------------

/// How many low bits are lost when a magnitude, in units of 2^-2150, is rounded:
/// those beyond 53, and those that are finer than the least number.
pub open spec fn shift64(n: nat) -> nat {
    if excess_bits(n) > 1076 {
        excess_bits(n)
    } else {
        1076
    }
}

/// The nearest magnitude that binary64 has, if it is not too great.
pub open spec fn nearest64(n: nat) -> nat {
    nearest_multiple(n, pow2(shift64(n)))
}

/// The pattern of a rounded magnitude.
pub open spec fn body64(n: nat) -> int {
    if shift64(n) > 3121 {
        0x7ff0_0000_0000_0000
    } else {
        (shift64(n) - 1076) * 0x10_0000_0000_0000 + (n / pow2(shift64(n))) as int
    }
}

/// A magnitude in units of 2^-2150 rounded to a binary64 number.
pub open spec fn rounded64(negative: bool, n: nat) -> u64 {
    signed(negative, body64(nearest64(n)))
}

proof fn lemma_excess_at_most(n: nat, x: nat)
    requires
        n < pow2(x) * 0x20_0000_0000_0000,
    ensures
        excess_bits(n) <= x,
{
    lemma_spacing(n);
    if excess_bits(n) > x {
        lemma_pow2_unfold(x + 1);
        if excess_bits(n) > x + 1 {
            lemma_pow2_strictly_increases(x + 1, excess_bits(n));
        }
        lemma_pow2_pos(x);
        assert(n >= 0x20_0000_0000_0000);
    }
}

proof fn lemma_excess_is(n: nat, x: nat)
    requires
        pow2(x) * 0x10_0000_0000_0000 <= n < pow2(x) * 0x20_0000_0000_0000,
    ensures
        excess_bits(n) == x,
{
    lemma_excess_at_most(n, x);
    lemma_spacing(n);
    if excess_bits(n) < x {
        lemma_pow2_unfold(excess_bits(n) + 1);
        if excess_bits(n) + 1 < x {
            lemma_pow2_strictly_increases(excess_bits(n) + 1, x);
        }
    }
}

/// Scaling both a number and a unit scales the quotient's rest.
proof fn lemma_scaled_division(n: int, unit: int, scale: int)
    requires
        unit > 0,
        scale > 0,
    ensures
        (n * scale) / (unit * scale) == n / unit,
        (n * scale) % (unit * scale) == (n % unit) * scale,
{
    let quotient = n / unit;
    let rest = n % unit;
    lemma_fundamental_div_mod(n, unit);
    assert(n * scale == quotient * (unit * scale) + rest * scale) by (nonlinear_arith)
        requires
            n == unit * quotient + rest,
    ;
    assert(0 <= rest * scale < unit * scale) by (nonlinear_arith)
        requires
            0 <= rest < unit,
            scale > 0,
    ;
    lemma_fundamental_div_mod_converse(n * scale, unit * scale, quotient, rest * scale);
}

proof fn lemma_scaled_multiple(n: nat, unit: nat, scale: nat)
    requires
        unit > 0,
        scale > 0,
    ensures
        nearest_multiple(n * scale, unit * scale) == nearest_multiple(n, unit) * scale,
{
    lemma_scaled_division(n as int, unit as int, scale as int);
    let below = n / unit;
    let rest = n % unit;
    let wide = unit * scale;
    assert(wide > 0) by (nonlinear_arith)
        requires
            unit > 0,
            scale > 0,
            wide == unit * scale,
    ;
    assert((2 * rest < unit) == (2 * (rest * scale) < unit * scale)) by (nonlinear_arith)
        requires
            scale > 0,
    ;
    assert((2 * rest == unit) == (2 * (rest * scale) == unit * scale)) by (nonlinear_arith)
        requires
            scale > 0,
    ;
    assert(below * (unit * scale) == (below * unit) * scale) by (nonlinear_arith);
    assert((below + 1) * (unit * scale) == ((below + 1) * unit) * scale) by (nonlinear_arith);
}

/// The pattern of up to 53 bits at a power.
proof fn lemma_body(k: nat, x: nat)
    requires
        k <= 0x20_0000_0000_0000,
        x >= 1076,
        x > 1076 ==> k >= 0x10_0000_0000_0000,
    ensures
        body64(k * pow2(x)) == (if x > 3121 {
            0x7ff0_0000_0000_0000
        } else {
            (x - 1076) * 0x10_0000_0000_0000 + k
        }),
{
    let unit = pow2(x);
    let r = k * unit;
    lemma_pow2_pos(x);
    if k < 0x20_0000_0000_0000 {
        assert(r < unit * 0x20_0000_0000_0000) by (nonlinear_arith)
            requires
                r == k * unit,
                k < 0x20_0000_0000_0000,
                unit > 0,
        ;
        lemma_excess_at_most(r, x);
        if x > 1076 {
            assert(unit * 0x10_0000_0000_0000 <= r) by (nonlinear_arith)
                requires
                    r == k * unit,
                    k >= 0x10_0000_0000_0000,
            ;
            lemma_excess_is(r, x);
        }
        assert(shift64(r) == x);
        lemma_fundamental_div_mod_converse(r as int, unit as int, k as int, 0);
    } else {
        lemma_pow2_unfold(x + 1);
        let wide = pow2(x + 1);
        assert(r == 0x10_0000_0000_0000 * wide) by (nonlinear_arith)
            requires
                r == k * unit,
                k == 0x20_0000_0000_0000,
                wide == 2 * unit,
        ;
        lemma_excess_is(r, x + 1);
        lemma_fundamental_div_mod_converse(r as int, wide as int, 0x10_0000_0000_0000, 0);
    }
}

/// The bits that are kept when a number is rounded.
proof fn lemma_kept_bits(n: nat) -> (k: nat)
    ensures
        nearest64(n) == k * pow2(shift64(n)),
        k <= 0x20_0000_0000_0000,
        shift64(n) > 1076 ==> k >= 0x10_0000_0000_0000,
{
    let x = shift64(n);
    let unit = pow2(x);
    lemma_pow2_pos(x);
    lemma_spacing(n);
    let below = n / unit;
    let rest = n % unit;
    lemma_fundamental_div_mod(n as int, unit as int);
    assert(n < unit * 0x20_0000_0000_0000) by {
        if excess_bits(n) < x {
            lemma_pow2_strictly_increases(excess_bits(n), x);
        }
    }
    assert(below < 0x20_0000_0000_0000) by (nonlinear_arith)
        requires
            n == unit * below + rest,
            rest >= 0,
            n < unit * 0x20_0000_0000_0000,
            unit > 0,
    ;
    if x > 1076 {
        assert(below >= 0x10_0000_0000_0000) by (nonlinear_arith)
            requires
                n == unit * below + rest,
                rest < unit,
                unit * 0x10_0000_0000_0000 <= n,
                unit > 0,
        ;
    }
    if 2 * rest < unit || (2 * rest == unit && below % 2 == 0) {
        below
    } else {
        below + 1
    }
}

/// A rounded number that is not too great is what its pattern stands for.
pub proof fn a_rounded_number_has_its_pattern(n: nat)
    requires
        shift64(n) <= 3120,
    ensures
        0 <= body64(nearest64(n)) < 0x7ff0_0000_0000_0000,
        pattern_magnitude(body64(nearest64(n))) * pow2(1075) == nearest64(n),
{
    let k = lemma_kept_bits(n);
    let x = shift64(n);
    lemma_body(k, x);
    let body = body64(nearest64(n));
    lemma_pattern(k, (x - 1075) as nat);
    lemma_pow2_adds((x - 1075) as nat, 1075);
    let small = pow2((x - 1075) as nat);
    let wide = pow2(1075);
    assert((k * small) * wide == k * (small * wide)) by (nonlinear_arith);
}

/// What a pattern of up to 53 bits at a power stands for.
proof fn lemma_pattern(k: nat, power: nat)
    requires
        k <= 0x20_0000_0000_0000,
        power >= 1,
        power > 1 ==> k >= 0x10_0000_0000_0000,
    ensures
        pattern_magnitude((power - 1) * 0x10_0000_0000_0000 + k) == k * pow2(power),
{
    let body = (power - 1) * 0x10_0000_0000_0000 + k;
    if k < 0x10_0000_0000_0000 {
        assert(body / 0x10_0000_0000_0000 == 0);
    } else if k < 0x20_0000_0000_0000 {
        assert(body / 0x10_0000_0000_0000 == power);
        assert(body % 0x10_0000_0000_0000 == k - 0x10_0000_0000_0000);
    } else {
        assert(body / 0x10_0000_0000_0000 == power + 1);
        assert(body % 0x10_0000_0000_0000 == 0);
        lemma_pow2_unfold(power + 1);
        let unit = pow2(power);
        assert(0x10_0000_0000_0000 * (2 * unit) == 0x20_0000_0000_0000 * unit) by (nonlinear_arith);
    }
}

/// A number that binary64 has is its own rounding.
proof fn lemma_exact(k: nat, x: nat)
    requires
        k < 0x20_0000_0000_0000,
        x >= 1076,
        x > 1076 ==> k >= 0x10_0000_0000_0000,
    ensures
        nearest64(k * pow2(x)) == k * pow2(x),
{
    let unit = pow2(x);
    let n = k * unit;
    lemma_pow2_pos(x);
    assert(n < unit * 0x20_0000_0000_0000) by (nonlinear_arith)
        requires
            n == k * unit,
            k < 0x20_0000_0000_0000,
            unit > 0,
    ;
    lemma_excess_at_most(n, x);
    if x > 1076 {
        assert(unit * 0x10_0000_0000_0000 <= n) by (nonlinear_arith)
            requires
                n == k * unit,
                k >= 0x10_0000_0000_0000,
        ;
        lemma_excess_is(n, x);
    }
    lemma_fundamental_div_mod_converse(n as int, unit as int, k as int, 0);
    lemma_nearest_multiple(n, unit);
}

/// The pattern of the number nearest to `digits` at a power, in units of 2^-2150.
fn encode(negative: bool, digits: u128, power: u32) -> (bits: u64)
    requires
        digits < 0x10_0000_0000_0000_0000_0000_0000_0000,
        power <= 5000,
    ensures
        bits == rounded64(negative, digits as nat * pow2(power as nat)),
        body_of(bits) <= 0x7ff0_0000_0000_0000,
{
    let ghost n = digits as nat * pow2(power as nat);
    let mut digits: u128 = digits;
    let mut power: u32 = power;
    while digits < 0x10_0000_0000_0000 && power > 0
        invariant
            digits < 0x10_0000_0000_0000_0000_0000_0000_0000,
            power <= 5000,
            n == digits as nat * pow2(power as nat),
        decreases power,
    {
        proof {
            lemma_pow2_unfold(power as nat);
            let half = pow2((power - 1) as nat);
            let d = digits as nat;
            assert(d * (2 * half) == (2 * d) * half) by (nonlinear_arith);
        }
        digits = digits * 2;
        power = power - 1;
    }
    let mut top: u128 = digits;
    let mut extra: u32 = 0;
    let mut unit: u128 = 1;
    proof {
        vstd::arithmetic::power2::lemma2_to64();
    }
    while top >= 0x20_0000_0000_0000
        invariant
            digits < 0x10_0000_0000_0000_0000_0000_0000_0000,
            unit == pow2(extra as nat),
            1 <= unit,
            unit * top <= digits < unit * (top + 1),
            digits >= 0x10_0000_0000_0000 ==> top >= 0x10_0000_0000_0000,
            extra > 0 ==> top >= 0x10_0000_0000_0000,
            unit <= 0x8000_0000_0000_0000,
            extra < 64,
        decreases top,
    {
        proof {
            lemma_pow2_unfold(extra as nat + 1);
            lemma_halved(digits as int, unit as int, top as int);
            lemma_unit_stays_small(digits as int, unit as int, top as int, extra as nat);
        }
        unit = unit * 2;
        top = top / 2;
        extra = extra + 1;
    }
    let shift: u32 = if extra + power > 1076 {
        extra + power
    } else {
        1076
    };
    let lost: u32 = shift - power;
    proof {
        lemma_shift(n, digits as nat, power as nat, extra as nat, top as nat);
        lemma_pow2_adds(lost as nat, power as nat);
        lemma_pow2_pos(lost as nat);
        lemma_pow2_pos(power as nat);
        lemma_scaled_multiple(digits as nat, pow2(lost as nat), pow2(power as nat));
    }
    let kept: u128 = keep(digits, lost);
    let ghost k = lemma_kept_bits(n);
    proof {
        let whole = kept as nat;
        let small = pow2(lost as nat);
        let scale = pow2(power as nat);
        assert((whole * small) * scale == whole * (small * scale)) by (nonlinear_arith);
        lemma_pow2_pos(shift as nat);
        let wide = pow2(shift as nat);
        assert(whole == k) by (nonlinear_arith)
            requires
                whole * wide == k * wide,
                wide > 0,
        ;
        lemma_body(k, shift as nat);
    }
    let body: u64 = if shift > 3121 {
        0x7ff0_0000_0000_0000
    } else {
        (shift - 1076) as u64 * 0x10_0000_0000_0000 + kept as u64
    };
    if negative {
        body + 0x8000_0000_0000_0000
    } else {
        body
    }
}

proof fn lemma_halved(digits: int, unit: int, top: int)
    requires
        unit >= 1,
        top >= 2,
        unit * top <= digits < unit * (top + 1),
    ensures
        (2 * unit) * (top / 2) <= digits < (2 * unit) * (top / 2 + 1),
{
    let half = top / 2;
    assert((2 * unit) * half <= unit * top) by (nonlinear_arith)
        requires
            2 * half <= top,
            unit >= 1,
    ;
    assert(unit * (top + 1) <= (2 * unit) * (half + 1)) by (nonlinear_arith)
        requires
            top + 1 <= 2 * half + 2,
            unit >= 1,
    ;
}

proof fn lemma_unit_stays_small(digits: int, unit: int, top: int, extra: nat)
    requires
        digits < 0x10_0000_0000_0000_0000_0000_0000_0000,
        unit == pow2(extra),
        unit >= 1,
        top >= 0x20_0000_0000_0000,
        unit * top <= digits,
        extra < 64,
    ensures
        2 * unit <= 0x8000_0000_0000_0000,
        extra + 1 < 64,
{
    assert(unit * 0x20_0000_0000_0000 <= digits) by (nonlinear_arith)
        requires
            unit >= 1,
            top >= 0x20_0000_0000_0000,
            unit * top <= digits,
    ;
    vstd::arithmetic::power2::lemma2_to64_rest();
    assert(extra < 63);
    if extra < 62 {
        lemma_pow2_strictly_increases(extra, 62);
    }
}

/// How many bits are lost, told from the length of the digits.
proof fn lemma_shift(n: nat, digits: nat, power: nat, extra: nat, top: nat)
    requires
        n == digits * pow2(power),
        pow2(extra) * top <= digits < pow2(extra) * (top + 1),
        top < 0x20_0000_0000_0000,
        top >= 0x10_0000_0000_0000 || (extra == 0 && power == 0),
    ensures
        shift64(n) == (if extra + power > 1076 {
            extra + power
        } else {
            1076
        }),
{
    let unit = pow2(extra);
    let scale = pow2(power);
    lemma_pow2_pos(extra);
    lemma_pow2_pos(power);
    lemma_pow2_adds(extra, power);
    assert(digits < unit * 0x20_0000_0000_0000) by (nonlinear_arith)
        requires
            digits < unit * (top + 1),
            top + 1 <= 0x20_0000_0000_0000,
            unit > 0,
    ;
    assert(digits * scale < (unit * scale) * 0x20_0000_0000_0000) by (nonlinear_arith)
        requires
            digits < unit * 0x20_0000_0000_0000,
            scale > 0,
    ;
    lemma_excess_at_most(n, extra + power);
    if top >= 0x10_0000_0000_0000 {
        assert(unit * 0x10_0000_0000_0000 <= digits) by (nonlinear_arith)
            requires
                unit * top <= digits,
                top >= 0x10_0000_0000_0000,
                unit > 0,
        ;
        assert((unit * scale) * 0x10_0000_0000_0000 <= digits * scale) by (nonlinear_arith)
            requires
                unit * 0x10_0000_0000_0000 <= digits,
                scale > 0,
        ;
        lemma_excess_is(n, extra + power);
    }
}

/// Rounds off low bits, to nearest and ties to even.
fn keep(digits: u128, lost: u32) -> (kept: u128)
    requires
        digits < 0x10_0000_0000_0000_0000_0000_0000_0000,
    ensures
        kept as nat * pow2(lost as nat) == nearest_multiple(digits as nat, pow2(lost as nat)),
        kept <= digits + 1,
{
    if lost >= 120 {
        proof {
            lemma_pow2_at_120(lost as nat);
            lemma_fundamental_div_mod_converse(
                digits as int,
                pow2(lost as nat) as int,
                0,
                digits as int,
            );
            assert(0 * pow2(lost as nat) == 0) by (nonlinear_arith);
        }
        return 0;
    }
    let mut unit: u128 = 1;
    let mut count: u32 = 0;
    proof {
        vstd::arithmetic::power2::lemma2_to64();
        lemma_pow2_at_120(lost as nat);
    }
    while count < lost
        invariant
            count <= lost < 120,
            unit == pow2(count as nat),
            1 <= unit,
            pow2(lost as nat) <= 0x100_0000_0000_0000_0000_0000_0000_0000,
        decreases lost - count,
    {
        proof {
            lemma_pow2_unfold(count as nat + 1);
            if count + 1 < lost {
                lemma_pow2_strictly_increases(count as nat + 1, lost as nat);
            }
        }
        unit = unit * 2;
        count = count + 1;
    }
    let below: u128 = digits / unit;
    let rest: u128 = digits % unit;
    proof {
        vstd::arithmetic::div_mod::lemma_div_nonincreasing(digits as int, unit as int);
    }
    if 2 * rest < unit || (2 * rest == unit && below % 2 == 0) {
        below
    } else {
        below + 1
    }
}

proof fn lemma_pow2_at_120(lost: nat)
    ensures
        pow2(120) == 0x100_0000_0000_0000_0000_0000_0000_0000,
        lost >= 120 ==> pow2(lost) >= 0x100_0000_0000_0000_0000_0000_0000_0000,
        lost < 120 ==> pow2(lost) <= 0x100_0000_0000_0000_0000_0000_0000_0000,
{
    vstd::arithmetic::power2::lemma2_to64();
    vstd::arithmetic::power2::lemma2_to64_rest();
    lemma_pow2_adds(56, 64);
    assert(0x100_0000_0000_0000 * 0x1_0000_0000_0000_0000
        == 0x100_0000_0000_0000_0000_0000_0000_0000);
    if lost > 120 {
        lemma_pow2_strictly_increases(120, lost);
    } else if lost < 120 {
        lemma_pow2_strictly_increases(lost, 120);
    }
}

// ---------------------------------------------------------------------------
// Products and sums
// ---------------------------------------------------------------------------

/// The product of two numbers; what it is where one is no number, or infinity meets
/// zero, is not a number.
pub open spec fn product64(left: u64, right: u64) -> u64 {
    let negative = is_negative(left) != is_negative(right);
    if is_nan(left) || is_nan(right) {
        NAN64
    } else if !is_finite64(left) || !is_finite64(right) {
        if is_zero(left) || is_zero(right) {
            NAN64
        } else {
            signed(negative, 0x7ff0_0000_0000_0000)
        }
    } else {
        rounded64(
            negative,
            (pattern_magnitude(body_of(left)) * pattern_magnitude(body_of(right))) as nat,
        )
    }
}

/// The sum of two numbers; that of two infinities of different signs is not a number.
pub open spec fn sum64(left: u64, right: u64) -> u64 {
    let sum = pattern_value(left) + pattern_value(right);
    if is_nan(left) || is_nan(right) {
        NAN64
    } else if !is_finite64(left) {
        if !is_finite64(right) && is_negative(left) != is_negative(right) {
            NAN64
        } else {
            left
        }
    } else if !is_finite64(right) {
        right
    } else if sum == 0 {
        signed(is_negative(left) && is_negative(right), 0)
    } else {
        rounded64(sum < 0, magnitude(sum) * pow2(1075))
    }
}

/// A finite number as up to 53 bits at a power, in units of 2^-1075.
struct Parts {
    digits: u64,
    power: u32,
}

fn split(bits: u64) -> (parts: Parts)
    requires
        is_finite64(bits),
    ensures
        parts.digits < 0x20_0000_0000_0000,
        1 <= parts.power <= 2046,
        parts.power > 1 ==> parts.digits >= 0x10_0000_0000_0000,
        pattern_magnitude(body_of(bits)) == parts.digits as nat * pow2(parts.power as nat),
        body_of(bits) == (parts.power - 1) * 0x10_0000_0000_0000 + parts.digits,
{
    let body: u64 = bits % 0x8000_0000_0000_0000;
    let exponent: u64 = body / 0x10_0000_0000_0000;
    let fraction: u64 = body % 0x10_0000_0000_0000;
    if exponent == 0 {
        Parts { digits: fraction, power: 1 }
    } else {
        Parts { digits: 0x10_0000_0000_0000 + fraction, power: exponent as u32 }
    }
}

fn negative(bits: u64) -> (found: bool)
    ensures
        found == is_negative(bits),
{
    bits >= 0x8000_0000_0000_0000
}

/// Multiplies two numbers.
pub fn multiply(left: u64, right: u64) -> (product: u64)
    ensures
        product == product64(left, right),
{
    let sign: bool = negative(left) != negative(right);
    let left_body: u64 = left % 0x8000_0000_0000_0000;
    let right_body: u64 = right % 0x8000_0000_0000_0000;
    if left_body > 0x7ff0_0000_0000_0000 || right_body > 0x7ff0_0000_0000_0000 {
        return NAN64;
    }
    if left_body == 0x7ff0_0000_0000_0000 || right_body == 0x7ff0_0000_0000_0000 {
        if left_body == 0 || right_body == 0 {
            return NAN64;
        }
        if sign {
            return 0xfff0_0000_0000_0000;
        }
        return 0x7ff0_0000_0000_0000;
    }
    let a: Parts = split(left);
    let b: Parts = split(right);
    proof {
        let (d, e) = (a.digits as nat, b.digits as nat);
        let (p, q) = (pow2(a.power as nat), pow2(b.power as nat));
        lemma_pow2_adds(a.power as nat, b.power as nat);
        assert((d * p) * (e * q) == (d * e) * (p * q)) by (nonlinear_arith);
        assert(d * e < 0x20_0000_0000_0000 * 0x20_0000_0000_0000) by (nonlinear_arith)
            requires
                d < 0x20_0000_0000_0000,
                e < 0x20_0000_0000_0000,
        ;
        assert(0x20_0000_0000_0000 * 0x20_0000_0000_0000
            < 0x10_0000_0000_0000_0000_0000_0000_0000);
    }
    encode(sign, a.digits as u128 * b.digits as u128, a.power + b.power)
}

/// A number too small to matter leaves the other as it is.
proof fn lemma_absorbed(digits: nat, power: nat, less: int)
    requires
        0x10_0000_0000_0000 <= digits < 0x20_0000_0000_0000,
        2 <= power <= 2046,
        -(pow2(power) as int) < 8 * less < pow2(power),
    ensures
        ({
            let n = ((digits * pow2(power) + less) * pow2(1075)) as nat;
            &&& digits * pow2(power) + less > 0
            &&& body64(nearest64(n)) == (power - 1) * 0x10_0000_0000_0000 + digits
        }),
{
    let unit = pow2(power);
    let scale = pow2(1075);
    let x = power + 1075;
    let wide = pow2(x);
    lemma_pow2_pos(power);
    lemma_pow2_pos(1075);
    lemma_pow2_pos(x);
    lemma_pow2_adds(power, 1075);
    let whole = digits * unit + less;
    assert(whole > 0) by (nonlinear_arith)
        requires
            whole == digits * unit + less,
            digits >= 2,
            8 * less > -(unit as int),
            unit > 0,
    ;
    let n = (whole * scale) as nat;
    assert(whole * scale >= 0) by (nonlinear_arith)
        requires
            whole > 0,
            scale > 0,
    ;
    let small = less * scale;
    assert(n == digits * wide + small) by (nonlinear_arith)
        requires
            n == whole * scale,
            whole == digits * unit + less,
            wide == unit * scale,
            small == less * scale,
    ;
    assert(-(wide as int) < 8 * small < wide) by (nonlinear_arith)
        requires
            -(unit as int) < 8 * less < unit,
            wide == unit * scale,
            small == less * scale,
            scale > 0,
    ;
    lemma_body(digits, x);
    assert(digits * wide <= 0x1f_ffff_ffff_ffff * wide) by (nonlinear_arith)
        requires
            digits <= 0x1f_ffff_ffff_ffff,
    ;
    if less >= 0 {
        assert(small >= 0) by (nonlinear_arith)
            requires
                less >= 0,
                scale > 0,
                small == less * scale,
        ;
        assert(digits * wide >= 0x10_0000_0000_0000 * wide) by (nonlinear_arith)
            requires
                digits >= 0x10_0000_0000_0000,
        ;
        lemma_excess_is(n, x);
        lemma_fundamental_div_mod_converse(n as int, wide as int, digits as int, small);
    } else if digits > 0x10_0000_0000_0000 {
        assert(small < 0) by (nonlinear_arith)
            requires
                less < 0,
                scale > 0,
                small == less * scale,
        ;
        assert(digits * wide >= 0x10_0000_0000_0001 * wide) by (nonlinear_arith)
            requires
                digits >= 0x10_0000_0000_0001,
        ;
        lemma_excess_is(n, x);
        assert((digits - 1) * wide + (wide + small) == digits * wide + small) by (nonlinear_arith);
        lemma_fundamental_div_mod_converse(n as int, wide as int, digits - 1, wide + small);
    } else {
        assert(small < 0) by (nonlinear_arith)
            requires
                less < 0,
                scale > 0,
                small == less * scale,
        ;
        let half = pow2((x - 1) as nat);
        lemma_pow2_unfold(x);
        lemma_pow2_pos((x - 1) as nat);
        assert(n == 0x1f_ffff_ffff_ffff * half + (half + small));
        lemma_excess_is(n, (x - 1) as nat);
        lemma_fundamental_div_mod_converse(
            n as int,
            half as int,
            0x1f_ffff_ffff_ffff,
            half + small,
        );
        assert(nearest64(n) == 0x20_0000_0000_0000 * half);
        assert(nearest64(n) == digits * wide);
    }
}

proof fn lemma_lesser_is_absorbed(
    left: u64,
    right: u64,
    d: nat,
    e: nat,
    large_power: nat,
    less_power: nat,
)
    requires
        is_finite64(left),
        is_finite64(right),
        d < 0x20_0000_0000_0000,
        e < 0x20_0000_0000_0000,
        1 <= less_power <= large_power <= 2046,
        large_power - less_power > 62,
        large_power > 1 ==> d >= 0x10_0000_0000_0000,
        pattern_magnitude(body_of(left)) == d * pow2(large_power),
        pattern_magnitude(body_of(right)) == e * pow2(less_power),
        body_of(left) == (large_power - 1) * 0x10_0000_0000_0000 + d,
    ensures
        left == sum64(left, right),
{
    let gap = (large_power - less_power) as nat;
    let (p, q) = (pow2(large_power), pow2(less_power));
    let signed_less = if is_negative(left) == is_negative(right) {
        (e * q) as int
    } else {
        -((e * q) as int)
    };
    lemma_pow2_adds(gap, less_power);
    vstd::arithmetic::power2::lemma2_to64_rest();
    lemma_pow2_pos(less_power);
    if gap > 63 {
        lemma_pow2_strictly_increases(63, gap);
    }
    let factor = pow2(gap);
    assert(8 * (e * q) < p) by (nonlinear_arith)
        requires
            e < 0x20_0000_0000_0000,
            p == factor * q,
            factor >= 0x8000_0000_0000_0000,
            q > 0,
    ;
    assert(e * q >= 0) by (nonlinear_arith);
    lemma_absorbed(d, large_power, signed_less);
    let total = d * p + signed_less;
    let sum = pattern_value(left) + pattern_value(right);
    assert(magnitude(sum) == total);
    assert((sum < 0) == is_negative(left));
}

#[verifier::rlimit(60)]
fn add_parts(left: u64, right: u64, large: Parts, less: Parts) -> (sum: u64)
    requires
        is_finite64(left),
        is_finite64(right),
        large.digits < 0x20_0000_0000_0000,
        less.digits < 0x20_0000_0000_0000,
        1 <= less.power <= large.power <= 2046,
        large.power > 1 ==> large.digits >= 0x10_0000_0000_0000,
        pattern_magnitude(body_of(left)) == large.digits as nat * pow2(large.power as nat),
        pattern_magnitude(body_of(right)) == less.digits as nat * pow2(less.power as nat),
        body_of(left) == (large.power - 1) * 0x10_0000_0000_0000 + large.digits,
    ensures
        sum == sum64(left, right),
{
    let gap: u32 = large.power - less.power;
    let ghost (d, e) = (large.digits as nat, less.digits as nat);
    let ghost (p, q) = (pow2(large.power as nat), pow2(less.power as nat));
    if gap > 62 {
        proof {
            lemma_lesser_is_absorbed(left, right, d, e, large.power as nat, less.power as nat);
        }
        return left;
    }
    let mut factor: u128 = 1;
    let mut count: u32 = 0;
    proof {
        vstd::arithmetic::power2::lemma2_to64();
        vstd::arithmetic::power2::lemma2_to64_rest();
        if gap < 62 {
            lemma_pow2_strictly_increases(gap as nat, 62);
        }
    }
    while count < gap
        invariant
            count <= gap <= 62,
            factor == pow2(count as nat),
            pow2(gap as nat) <= 0x4000_0000_0000_0000,
        decreases gap - count,
    {
        proof {
            lemma_pow2_unfold(count as nat + 1);
            if count + 1 < gap {
                lemma_pow2_strictly_increases(count as nat + 1, gap as nat);
            }
        }
        factor = factor * 2;
        count = count + 1;
    }
    assert(large.digits * factor < 0x20_0000_0000_0000 * 0x4000_0000_0000_0000)
        by (nonlinear_arith)
        requires
            large.digits < 0x20_0000_0000_0000,
            0 <= factor <= 0x4000_0000_0000_0000,
    ;
    assert(0x20_0000_0000_0000 * 0x4000_0000_0000_0000 == 0x8_0000_0000_0000_0000_0000_0000_0000);
    let scaled: u128 = large.digits as u128 * factor;
    let ghost f = factor as nat;
    let ghost t = pow2(1075);
    let power: u32 = less.power + 1075;
    proof {
        lemma_pow2_adds(gap as nat, less.power as nat);
        lemma_pow2_adds(less.power as nat, 1075);
        lemma_pow2_pos(less.power as nat);
        assert(d * (f * q) == (d * f) * q) by (nonlinear_arith);
    }
    let left_negative: bool = negative(left);
    let right_negative: bool = negative(right);
    if left_negative == right_negative {
        let total: u128 = scaled + less.digits as u128;
        proof {
            let w = total as nat;
            assert(w * q == (d * f) * q + e * q) by (nonlinear_arith)
                requires
                    w == d * f + e,
            ;
            assert(w * (q * t) == (w * q) * t) by (nonlinear_arith);
            lemma_zero_product(w as int, q);
        }
        if total == 0 {
            if left_negative {
                return 0x8000_0000_0000_0000;
            }
            return 0;
        }
        encode(left_negative, total, power)
    } else if scaled >= less.digits as u128 {
        let total: u128 = scaled - less.digits as u128;
        proof {
            let w = total as nat;
            assert(w * q == (d * f) * q - e * q) by (nonlinear_arith)
                requires
                    w == d * f - e,
            ;
            assert(w * (q * t) == (w * q) * t) by (nonlinear_arith);
            lemma_zero_product(w as int, q);
        }
        if total == 0 {
            return 0;
        }
        encode(left_negative, total, power)
    } else {
        let total: u128 = less.digits as u128 - scaled;
        proof {
            let w = total as nat;
            assert(w * q == e * q - (d * f) * q) by (nonlinear_arith)
                requires
                    w == e - d * f,
            ;
            assert(w * (q * t) == (w * q) * t) by (nonlinear_arith);
            lemma_zero_product(w as int, q);
        }
        encode(right_negative, total, power)
    }
}

proof fn lemma_zero_product(w: int, q: nat)
    requires
        w >= 0,
        q > 0,
    ensures
        (w * q == 0) == (w == 0),
        w * q >= 0,
{
    assert((w * q == 0) == (w == 0)) by (nonlinear_arith)
        requires
            w >= 0,
            q > 0,
    ;
    assert(w * q >= 0) by (nonlinear_arith)
        requires
            w >= 0,
            q > 0,
    ;
}

/// The order of two numbers does not matter for their sum.
pub proof fn sums_commute(left: u64, right: u64)
    ensures
        sum64(left, right) == sum64(right, left),
{
}

/// Adds two numbers.
pub fn add_numbers(left: u64, right: u64) -> (sum: u64)
    ensures
        sum == sum64(left, right),
{
    let left_body: u64 = left % 0x8000_0000_0000_0000;
    let right_body: u64 = right % 0x8000_0000_0000_0000;
    if left_body > 0x7ff0_0000_0000_0000 || right_body > 0x7ff0_0000_0000_0000 {
        return NAN64;
    }
    if left_body == 0x7ff0_0000_0000_0000 {
        if right_body == 0x7ff0_0000_0000_0000 && negative(left) != negative(right) {
            return NAN64;
        }
        return left;
    }
    if right_body == 0x7ff0_0000_0000_0000 {
        return right;
    }
    let a: Parts = split(left);
    let b: Parts = split(right);
    if a.power >= b.power {
        add_parts(left, right, a, b)
    } else {
        proof {
            sums_commute(left, right);
        }
        add_parts(right, left, b, a)
    }
}

// ---------------------------------------------------------------------------
// Whole numbers
// ---------------------------------------------------------------------------

/// The whole number at or below a number, as far as 32 bits go; zero for what is not
/// a number.
pub open spec fn whole64(bits: u64) -> int {
    if is_nan(bits) {
        0
    } else if !is_finite64(bits) {
        if is_negative(bits) {
            i32::MIN as int
        } else {
            i32::MAX as int
        }
    } else {
        clamp_i32(pattern_value(bits) / (pow2(1075) as int))
    }
}

/// A number rounded to a whole number, halves upwards: half is added, then the sum's
/// floor is taken and clamped.
pub open spec fn half_up64(bits: u64) -> int {
    whole64(sum64(bits, HALF64))
}

/// The floor of a number of up to 53 bits between one and two to the power of 32.
proof fn lemma_floor(digits: nat, power: nat, unit: nat)
    requires
        power <= 1075,
        unit == pow2((1075 - power) as nat),
    ensures
        (digits * pow2(power)) as int / (pow2(1075) as int) == digits / unit,
        (-((digits * pow2(power)) as int)) / (pow2(1075) as int) == (-(digits as int)) / (
        unit as int),
{
    lemma_pow2_adds((1075 - power) as nat, power);
    lemma_pow2_pos(power);
    lemma_pow2_pos((1075 - power) as nat);
    let scale = pow2(power);
    lemma_scaled_division(digits as int, unit as int, scale as int);
    lemma_scaled_division(-(digits as int), unit as int, scale as int);
    assert((-(digits as int)) * scale == -((digits * scale) as int)) by (nonlinear_arith);
}

/// The whole number at or below a number.
pub fn whole_of(bits: u64) -> (whole: i32)
    ensures
        whole == whole64(bits),
{
    let body: u64 = bits % 0x8000_0000_0000_0000;
    let below_zero: bool = negative(bits);
    if body > 0x7ff0_0000_0000_0000 {
        return 0;
    }
    if body == 0x7ff0_0000_0000_0000 {
        return if below_zero {
            i32::MIN
        } else {
            i32::MAX
        };
    }
    let parts: Parts = split(bits);
    let ghost d = parts.digits as nat;
    let ghost p = parts.power as nat;
    let ghost size = (d * pow2(p)) as int;
    let ghost one = pow2(1075) as int;
    proof {
        lemma_pow2_pos(1075);
        lemma_pow2_pos(p);
    }
    if parts.power >= 1055 {
        proof {
            lemma_great(d, p);
        }
        return if below_zero {
            i32::MIN
        } else {
            i32::MAX
        };
    }
    if parts.power < 1023 {
        proof {
            lemma_small(d, p);
            lemma_zero_product(d as int, pow2(p));
            if size > 0 {
                lemma_fundamental_div_mod_converse(size, one, 0, size);
                lemma_fundamental_div_mod_converse(-size, one, -1, one - size);
            } else {
                lemma_fundamental_div_mod_converse(0, one, 0, 0);
            }
        }
        return if below_zero && parts.digits > 0 {
            -1
        } else {
            0
        };
    }
    let mut unit: u64 = 1;
    let mut count: u32 = 0;
    let lost: u32 = 1075 - parts.power;
    proof {
        vstd::arithmetic::power2::lemma2_to64();
        vstd::arithmetic::power2::lemma2_to64_rest();
        if lost < 52 {
            lemma_pow2_strictly_increases(lost as nat, 52);
        }
        if lost > 21 {
            lemma_pow2_strictly_increases(21, lost as nat);
        }
    }
    while count < lost
        invariant
            count <= lost <= 52,
            unit == pow2(count as nat),
            pow2(lost as nat) <= 0x10_0000_0000_0000,
        decreases lost - count,
    {
        proof {
            lemma_pow2_unfold(count as nat + 1);
            if count + 1 < lost {
                lemma_pow2_strictly_increases(count as nat + 1, lost as nat);
            }
        }
        unit = unit * 2;
        count = count + 1;
    }
    proof {
        lemma_floor(d, p, unit as nat);
        lemma_fundamental_div_mod(d as int, unit as int);
    }
    let below: u64 = parts.digits / unit;
    let rest: u64 = parts.digits % unit;
    assert(below <= 0x1_0000_0000) by (nonlinear_arith)
        requires
            parts.digits == unit * below + rest,
            rest >= 0,
            parts.digits < 0x20_0000_0000_0000,
            unit >= 0x20_0000,
    ;
    let floor: i64 = if !below_zero {
        below as i64
    } else if rest == 0 {
        proof {
            assert(-(d as int) == (-(below as int)) * unit) by (nonlinear_arith)
                requires
                    d == unit * below,
            ;
            lemma_fundamental_div_mod_converse(-(d as int), unit as int, -(below as int), 0);
        }
        -(below as i64)
    } else {
        proof {
            assert(-(d as int) == (-(below as int) - 1) * unit + (unit - rest)) by (nonlinear_arith)
                requires
                    d == unit * below + rest,
            ;
            lemma_fundamental_div_mod_converse(
                -(d as int),
                unit as int,
                -(below as int) - 1,
                unit - rest,
            );
        }
        -(below as i64) - 1
    };
    if floor < -2147483648 {
        i32::MIN
    } else if floor > 2147483647 {
        i32::MAX
    } else {
        floor as i32
    }
}

/// From two to the power of 32 on, 32 bits are not enough.
proof fn lemma_great(digits: nat, power: nat)
    requires
        digits >= 0x10_0000_0000_0000,
        power >= 1055,
    ensures
        (digits * pow2(power)) as int / (pow2(1075) as int) >= 0x1_0000_0000,
        (-((digits * pow2(power)) as int)) / (pow2(1075) as int) <= -0x1_0000_0000,
{
    let size = (digits * pow2(power)) as int;
    let one = pow2(1075) as int;
    let unit = pow2(1055);
    lemma_pow2_pos(1055);
    lemma_pow2_pos(1075);
    lemma_pow2_adds(20, 1055);
    vstd::arithmetic::power2::lemma2_to64();
    if power > 1055 {
        lemma_pow2_strictly_increases(1055, power);
    }
    let wide = pow2(power);
    assert(digits * wide >= 0x10_0000_0000_0000 * unit) by (nonlinear_arith)
        requires
            digits >= 0x10_0000_0000_0000,
            wide >= unit,
    ;
    assert(one == 0x10_0000 * unit);
    assert(size >= 0x1_0000_0000 * one);
    lemma_fundamental_div_mod(size, one);
    lemma_fundamental_div_mod(-size, one);
    let up = size / one;
    let down = (-size) / one;
    let rest = size % one;
    let other = (-size) % one;
    assert(up >= 0x1_0000_0000) by (nonlinear_arith)
        requires
            size == one * up + rest,
            rest < one,
            size >= 0x1_0000_0000 * one,
            one > 0,
    ;
    assert(down <= -0x1_0000_0000) by (nonlinear_arith)
        requires
            -size == one * down + other,
            other >= 0,
            size >= 0x1_0000_0000 * one,
            one > 0,
    ;
}

/// Below the power of 1023 a number is smaller than one.
proof fn lemma_small(digits: nat, power: nat)
    requires
        digits < 0x20_0000_0000_0000,
        power < 1023,
    ensures
        digits * pow2(power) < pow2(1075),
{
    let unit = pow2(1022);
    lemma_pow2_pos(1022);
    lemma_pow2_adds(53, 1022);
    vstd::arithmetic::power2::lemma2_to64_rest();
    if power < 1022 {
        lemma_pow2_strictly_increases(power, 1022);
    }
    let small = pow2(power);
    assert(digits * small < 0x20_0000_0000_0000 * unit) by (nonlinear_arith)
        requires
            digits < 0x20_0000_0000_0000,
            small <= unit,
            unit > 0,
    ;
}

/// Rounds a number to a whole number, halves upwards.
pub fn round_half_up(bits: u64) -> (whole: i32)
    ensures
        whole == half_up64(bits),
{
    whole_of(add_numbers(bits, HALF64))
}

// ---------------------------------------------------------------------------
// What the arithmetic promises
// ---------------------------------------------------------------------------

/// The pattern of a number of 2^-55 units.
pub open spec fn pattern64(units: int) -> u64 {
    rounded64(units < 0, magnitude(units) * pow2(2095))
}

/// The bit pattern that stands for a number of units.
pub fn pattern_of(units: i128) -> (bits: u64)
    requires
        -0x10_0000_0000_0000_0000_0000_0000_0000 < units
            < 0x10_0000_0000_0000_0000_0000_0000_0000,
    ensures
        bits == pattern64(units as int),
{
    if units < 0 {
        encode(true, (-units) as u128, 2095)
    } else {
        encode(false, units as u128, 2095)
    }
}

/// Units round to the same number whether they are counted as units or as patterns.
proof fn lemma_rounded_units(n: nat)
    requires
        n <= 0x80_0000_0000_0000_0000_0000_0000_0000,
    ensures
        nearest64(n * pow2(2095)) == nearest_multiple(n, spacing(n)) * pow2(2095),
        shift64(n * pow2(2095)) <= 3120,
{
    let scale = pow2(2095);
    let wide = n * scale;
    lemma_pow2_pos(2095);
    lemma_spacing(n);
    lemma_nearest_multiple(n, spacing(n));
    lemma_pow2_at_120(0);
    lemma_pow2_adds(120, 2095);
    lemma_pow2_strictly_increases(2215, 3120);
    assert(wide <= pow2(2215)) by (nonlinear_arith)
        requires
            wide == n * scale,
            n <= 0x100_0000_0000_0000_0000_0000_0000_0000,
            pow2(2215) == 0x100_0000_0000_0000_0000_0000_0000_0000 * scale,
    ;
    lemma_excess_at_most(wide, 3120);
    if n >= 0x20_0000_0000_0000 {
        let x = excess_bits(n);
        lemma_pow2_adds(x, 2095);
        let unit = pow2(x);
        assert((unit * scale) * 0x10_0000_0000_0000 <= wide < (unit * scale) * 0x20_0000_0000_0000)
            by (nonlinear_arith)
            requires
                wide == n * scale,
                unit * 0x10_0000_0000_0000 <= n < unit * 0x20_0000_0000_0000,
                scale > 0,
        ;
        lemma_excess_is(wide, x + 2095);
        lemma_scaled_multiple(n, unit, scale);
    } else {
        short_numbers_are_representable(n, 2095);
        assert(magnitude(wide as int) == wide);
        lemma_spacing(wide);
        if excess_bits(wide) > 1076 {
            lemma_nearest_multiple(wide, spacing(wide));
        } else {
            let unit = pow2(1076);
            let rest = pow2(1019);
            lemma_pow2_adds(1019, 1076);
            lemma_pow2_pos(1076);
            assert(wide == (n * rest) * unit) by (nonlinear_arith)
                requires
                    wide == n * scale,
                    scale == rest * unit,
            ;
            lemma_fundamental_div_mod_converse(wide as int, unit as int, (n * rest) as int, 0);
            lemma_nearest_multiple(wide, unit);
        }
    }
}

/// What a sign and a pattern stand for.
proof fn lemma_signed_value(minus: bool, body: int)
    requires
        0 <= body < 0x7ff0_0000_0000_0000,
    ensures
        is_finite64(signed(minus, body)),
        pattern_value(signed(minus, body)) == (if minus {
            -pattern_magnitude(body)
        } else {
            pattern_magnitude(body)
        }),
        is_negative(signed(minus, body)) == minus,
{
}

/// The value of units rounded to a pattern.
proof fn lemma_rounded_value(units: int)
    requires
        magnitude(units) <= 0x80_0000_0000_0000_0000_0000_0000_0000,
    ensures
        is_finite64(pattern64(units)),
        pattern_value(pattern64(units)) == round53(units) * pow2(1020),
{
    let n = magnitude(units);
    let wide = n * pow2(2095);
    let rounded = nearest_multiple(n, spacing(n));
    lemma_rounded_units(n);
    a_rounded_number_has_its_pattern(wide);
    lemma_signed_value(units < 0, body64(nearest64(wide)));
    let size = pattern_magnitude(body64(nearest64(wide)));
    let (low, high) = (pow2(1020), pow2(1075));
    lemma_pow2_adds(1020, 1075);
    lemma_pow2_pos(1075);
    assert(size == rounded * low) by (nonlinear_arith)
        requires
            size * high == rounded * (low * high),
            high > 0,
    ;
    assert(-((rounded * low) as int) == (-(rounded as int)) * low) by (nonlinear_arith);
}

/// A number of units that binary64 has is what its pattern stands for.
pub proof fn representable_units_have_their_pattern(units: int)
    requires
        is_representable(units),
        magnitude(units) <= 0x80_0000_0000_0000_0000_0000_0000_0000,
    ensures
        stands_for(pattern64(units), units),
{
    lemma_rounded_value(units);
    crate::binary64::rounding_keeps_representable_numbers(units);
}

/// A product with zero is zero.
pub proof fn a_product_with_zero_is_zero(left: u64, right: u64)
    requires
        is_finite64(left),
        is_finite64(right),
        is_zero(left) || is_zero(right),
    ensures
        is_zero(product64(left, right)),
{
    crate::binary64::lemma_zero_magnitude();
    let (a, b) = (pattern_magnitude(body_of(left)), pattern_magnitude(body_of(right)));
    assert(a * b == 0) by (nonlinear_arith)
        requires
            a == 0 || b == 0,
    ;
    vstd::arithmetic::power2::lemma2_to64();
    lemma_pow2_pos(1076);
    lemma_exact(0, 1076);
    lemma_body(0, 1076);
    assert(0 * pow2(1076) == 0) by (nonlinear_arith);
}

/// Zero added to a number leaves what it stands for.
pub proof fn zero_added_changes_nothing(left: u64, right: u64)
    requires
        is_finite64(left),
        is_zero(right),
    ensures
        is_finite64(sum64(left, right)),
        pattern_value(sum64(left, right)) == pattern_value(left),
{
    crate::binary64::lemma_zero_magnitude();
    let body = body_of(left);
    let exponent = body / 0x10_0000_0000_0000;
    let digits = (if exponent == 0 {
        body
    } else {
        0x10_0000_0000_0000 + body % 0x10_0000_0000_0000
    }) as nat;
    let power = (if exponent == 0 {
        1
    } else {
        exponent
    }) as nat;
    assert(pattern_magnitude(body) == digits * pow2(power));
    assert(pattern_value(right) == 0);
    let sum = pattern_value(left);
    if sum != 0 {
        lemma_pow2_adds(power, 1075);
        lemma_pow2_pos(power);
        let (low, high) = (pow2(power), pow2(1075));
        assert((digits * low) * high == digits * (low * high)) by (nonlinear_arith);
        lemma_exact(digits, power + 1075);
        lemma_body(digits, power + 1075);
        lemma_zero_product(digits as int, low);
        assert(magnitude(sum) == digits * low);
        assert(sum64(left, right) == left);
    }
}

/// Rounding a pattern to a whole number is rounding the units it stands for.
pub proof fn patterns_round_as_units(bits: u64, units: int)
    requires
        stands_for(bits, units),
        magnitude(units) <= 0x10_0000_0000_0000_0000_0000_0000_0000,
    ensures
        half_up64(bits) == half_up(units),
{
    let sum = units + 0x40_0000_0000_0000;
    let (low, high) = (pow2(1020), pow2(1075));
    vstd::arithmetic::power2::lemma2_to64_rest();
    lemma_pow2_adds(52, 1022);
    lemma_pow2_adds(54, 1020);
    lemma_pow2_adds(55, 1020);
    lemma_pow2_pos(1020);
    lemma_pow2_pos(1075);
    assert(HALF64 as int / 0x10_0000_0000_0000 == 1022);
    assert(pattern_value(HALF64) == 0x40_0000_0000_0000 * low);
    assert(sum * low == units * low + 0x40_0000_0000_0000 * low) by (nonlinear_arith)
        requires
            sum == units + 0x40_0000_0000_0000,
    ;
    lemma_rounded_value(sum);
    let total = pattern_value(bits) + pattern_value(HALF64);
    assert(total == sum * low);
    assert((total == 0) == (sum == 0) && (total < 0) == (sum < 0)) by (nonlinear_arith)
        requires
            total == sum * low,
            low > 0,
    ;
    if sum != 0 {
        lemma_pow2_adds(1020, 1075);
        let n = magnitude(sum);
        assert(magnitude(total) == n * low) by (nonlinear_arith)
            requires
                total == sum * low,
                low > 0,
                magnitude(total) == (if total < 0 {
                    -total
                } else {
                    total
                }),
                n == (if sum < 0 {
                    -sum
                } else {
                    sum
                }),
        ;
        assert((n * low) * high == n * (low * high)) by (nonlinear_arith);
        assert(sum64(bits, HALF64) == pattern64(sum));
    } else {
        crate::binary64::lemma_zero_magnitude();
        assert(sum64(bits, HALF64) == 0);
        lemma_spacing(0);
        assert(round53(0) == 0);
    }
    lemma_scaled_division(round53(sum), 0x80_0000_0000_0000, low as int);
}

} // verus!
