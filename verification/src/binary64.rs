//! Double-precision arithmetic in fixed point.
//!
//! The heuristic works with IEEE 754 binary64 numbers. Every number it meets is
//! a multiple of 2^-55, so a number is kept here as how many such units it has,
//! and each operation rounds its exact result the way the hardware does: to 53
//! significant bits, to nearest, ties to even.

use vstd::arithmetic::div_mod::{lemma_fundamental_div_mod, lemma_fundamental_div_mod_converse};
use vstd::arithmetic::power2::{
    lemma_pow2_adds, lemma_pow2_pos, lemma_pow2_strictly_increases, lemma_pow2_unfold, pow2,
};
use vstd::prelude::*;

verus! {

/// How many units make one.
pub const ONE: i128 = 0x80_0000_0000_0000;

/// The least magnitude, in units, that needs more than 53 bits.
pub const PRECISION_LIMIT: u128 = 0x20_0000_0000_0000;

/// How many low bits of a magnitude do not fit into 53 significant bits.
pub open spec fn excess_bits(magnitude: nat) -> nat
    decreases magnitude,
{
    if magnitude < 0x20_0000_0000_0000 {
        0
    } else {
        excess_bits(magnitude / 2) + 1
    }
}

/// The distance between the neighbouring 53-bit numbers around a magnitude.
pub open spec fn spacing(magnitude: nat) -> nat {
    pow2(excess_bits(magnitude))
}

/// The multiple of `unit` nearest to a magnitude; of two, the even multiple.
pub open spec fn nearest_multiple(magnitude: nat, unit: nat) -> nat {
    let below = magnitude / unit;
    let rest = magnitude % unit;
    if 2 * rest < unit || (2 * rest == unit && below % 2 == 0) {
        below * unit
    } else {
        (below + 1) * unit
    }
}

/// A number of units rounded to 53 significant bits.
pub open spec fn round53(units: int) -> int {
    if units < 0 {
        -(nearest_multiple((-units) as nat, spacing((-units) as nat)) as int)
    } else {
        nearest_multiple(units as nat, spacing(units as nat)) as int
    }
}

pub open spec fn magnitude(units: int) -> nat {
    if units < 0 {
        (-units) as nat
    } else {
        units as nat
    }
}

/// Whether 53 significant bits hold a number of units exactly.
pub open spec fn is_representable(units: int) -> bool {
    magnitude(units) % spacing(magnitude(units)) == 0
}

pub proof fn lemma_spacing(n: nat)
    ensures
        spacing(n) >= 1,
        n < 0x20_0000_0000_0000 ==> spacing(n) == 1,
        n >= 0x20_0000_0000_0000 ==> spacing(n) * 0x10_0000_0000_0000 <= n,
        n < spacing(n) * 0x20_0000_0000_0000,
    decreases n,
{
    lemma_pow2_pos(excess_bits(n));
    if n < 0x20_0000_0000_0000 {
        assert(pow2(0) == 1) by {
            vstd::arithmetic::power2::lemma2_to64();
        }
    } else {
        lemma_spacing(n / 2);
        lemma_pow2_unfold(excess_bits(n));
        assert(spacing(n) == 2 * spacing(n / 2));
    }
}

proof fn lemma_excess_bits_grow(small: nat, large: nat)
    requires
        small <= large,
    ensures
        excess_bits(small) <= excess_bits(large),
    decreases large,
{
    if small >= 0x20_0000_0000_0000 {
        lemma_excess_bits_grow(small / 2, large / 2);
    }
}

pub proof fn lemma_nearest_multiple(n: nat, unit: nat)
    requires
        unit >= 1,
    ensures
        nearest_multiple(n, unit) % unit == 0,
        -(unit as int) <= 2 * (nearest_multiple(n, unit) - n) <= unit,
        n % unit == 0 ==> nearest_multiple(n, unit) == n,
        forall|m: nat|
            #![trigger (m * unit)]
            magnitude(nearest_multiple(n, unit) - n) <= magnitude(m * unit - n),
{
    let below = n / unit;
    let rest = n % unit;
    lemma_fundamental_div_mod(n as int, unit as int);
    assert((below + 1) * unit == below * unit + unit) by (nonlinear_arith);
    assert(unit * below == below * unit) by (nonlinear_arith);
    assert(n == below * unit + rest);
    assert((below * unit) % unit == 0) by (nonlinear_arith)
        requires
            unit >= 1,
    ;
    assert(((below + 1) * unit) % unit == 0) by (nonlinear_arith)
        requires
            unit >= 1,
    ;
    assert forall|m: nat|
        #![trigger (m * unit)]
        magnitude(nearest_multiple(n, unit) - n) <= magnitude(m * unit - n) by {
        if m <= below {
            assert(m * unit <= below * unit) by (nonlinear_arith)
                requires
                    m <= below,
            ;
        } else {
            assert(m * unit >= (below + 1) * unit) by (nonlinear_arith)
                requires
                    m >= below + 1,
            ;
        }
    }
}

/// Rounding to 53 bits picks a number that no representable number beats.
pub proof fn rounding_is_nearest(units: int, other: int)
    requires
        is_representable(other),
    ensures
        magnitude(round53(units) - units) <= magnitude(other - units),
{
    let n = magnitude(units);
    let unit = spacing(n);
    lemma_spacing(n);
    lemma_nearest_multiple(n, unit);
    let d = magnitude(other);
    lemma_spacing(d);
    assert(0 * unit == 0) by (nonlinear_arith);
    assert(magnitude(nearest_multiple(n, unit) - n) <= magnitude(0 * unit - n));
    if (units < 0) != (other < 0) && other != 0 {
        // zero lies between the two
    } else if excess_bits(d) >= excess_bits(n) {
        let scale = pow2((excess_bits(d) - excess_bits(n)) as nat);
        lemma_pow2_adds((excess_bits(d) - excess_bits(n)) as nat, excess_bits(n));
        lemma_fundamental_div_mod(d as int, spacing(d) as int);
        let multiple = d / spacing(d);
        assert(d == spacing(d) * multiple);
        assert(d == (multiple * scale) * unit) by (nonlinear_arith)
            requires
                d == spacing(d) * multiple,
                spacing(d) == scale * unit,
        ;
        assert(magnitude(nearest_multiple(n, unit) - n) <= magnitude((multiple * scale) * unit - n));
    } else {
        assert(d < n) by {
            if n <= d {
                lemma_excess_bits_grow(n, d);
            }
        }
        // the least number with as many excess bits as n lies between them
        let floor = 0x10_0000_0000_0000 * unit;
        assert(magnitude(nearest_multiple(n, unit) - n) <= magnitude(
            0x10_0000_0000_0000 * unit - n,
        ));
        assert(spacing(d) * 2 <= unit) by {
            let gap = (excess_bits(n) - excess_bits(d)) as nat;
            lemma_pow2_adds(gap, excess_bits(d));
            lemma_pow2_unfold(gap);
            lemma_pow2_pos((gap - 1) as nat);
            assert(pow2(gap) >= 2);
            assert(spacing(d) * 2 <= pow2(gap) * spacing(d)) by (nonlinear_arith)
                requires
                    pow2(gap) >= 2,
            ;
        }
        assert(d < floor);
    }
}

/// Rounding is off by no more than one part in 2^53.
pub proof fn rounding_error_is_small(units: int)
    ensures
        0x20_0000_0000_0000 * magnitude(round53(units) - units) <= magnitude(units),
{
    lemma_spacing(magnitude(units));
    lemma_nearest_multiple(magnitude(units), spacing(magnitude(units)));
}

/// A representable number is its own rounding.
pub proof fn rounding_keeps_representable_numbers(units: int)
    requires
        is_representable(units),
    ensures
        round53(units) == units,
{
    lemma_spacing(magnitude(units));
    lemma_nearest_multiple(magnitude(units), spacing(magnitude(units)));
}

/// Rounding never crosses a representable bound.
pub proof fn rounding_stays_within(units: int, bound: int)
    requires
        is_representable(bound),
        0 <= magnitude(units) <= bound,
    ensures
        magnitude(round53(units)) <= bound,
{
    rounding_is_nearest(units, bound);
    assert(magnitude(-bound) == bound);
    rounding_is_nearest(units, -bound);
}

/// Up to 53 bits, followed by zeros, are representable.
pub proof fn short_numbers_are_representable(digits: nat, shift: nat)
    requires
        digits < 0x20_0000_0000_0000,
    ensures
        is_representable((digits * pow2(shift)) as int),
    decreases shift,
{
    let n = digits * pow2(shift);
    lemma_pow2_pos(shift);
    lemma_spacing(n);
    if excess_bits(n) <= shift {
        let scale = pow2((shift - excess_bits(n)) as nat);
        lemma_pow2_adds((shift - excess_bits(n)) as nat, excess_bits(n));
        assert(n == (digits * scale) * spacing(n)) by (nonlinear_arith)
            requires
                n == digits * pow2(shift),
                pow2(shift) == scale * spacing(n),
        ;
        lemma_fundamental_div_mod_converse(n as int, spacing(n) as int, (digits * scale) as int, 0);
    } else {
        // then n would have too many bits
        let gap = (excess_bits(n) - shift) as nat;
        lemma_pow2_adds(gap, shift);
        lemma_pow2_unfold(gap);
        lemma_pow2_pos((gap - 1) as nat);
        assert(spacing(n) >= 2 * pow2(shift)) by (nonlinear_arith)
            requires
                spacing(n) == pow2(gap) * pow2(shift),
                pow2(gap) >= 2,
        ;
        assert(n < 0x20_0000_0000_0000 * pow2(shift)) by (nonlinear_arith)
            requires
                n == digits * pow2(shift),
                digits < 0x20_0000_0000_0000,
                pow2(shift) >= 1,
        ;
        assert(false);
    }
}

/// What rounding gives is representable.
pub proof fn rounding_gives_a_representable_number(units: int)
    ensures
        is_representable(round53(units)),
{
    let n = magnitude(units);
    let unit = spacing(n);
    lemma_spacing(n);
    lemma_nearest_multiple(n, unit);
    let rounded = nearest_multiple(n, unit);
    let below = n / unit;
    lemma_fundamental_div_mod(n as int, unit as int);
    assert(below < 0x20_0000_0000_0000) by (nonlinear_arith)
        requires
            n == unit * below + n % unit,
            n % unit >= 0,
            n < unit * 0x20_0000_0000_0000,
            unit >= 1,
    ;
    if rounded == below * unit {
        short_numbers_are_representable(below, excess_bits(n));
    } else if below + 1 < 0x20_0000_0000_0000 {
        short_numbers_are_representable(below + 1, excess_bits(n));
    } else {
        lemma_pow2_unfold(excess_bits(n) + 1);
        assert((below + 1) * unit == 0x10_0000_0000_0000 * (2 * unit)) by (nonlinear_arith)
            requires
                below + 1 == 0x20_0000_0000_0000,
        ;
        assert(pow2(excess_bits(n) + 1) == 2 * unit);
        short_numbers_are_representable(0x10_0000_0000_0000, excess_bits(n) + 1);
    }
    assert(is_representable(rounded as int));
    assert(magnitude(round53(units)) == magnitude(rounded as int));
}

/// Rounds a magnitude to 53 significant bits.
fn round_magnitude(n: u128) -> (rounded: u128)
    requires
        n <= 0x100_0000_0000_0000_0000_0000_0000_0000,
    ensures
        rounded == nearest_multiple(n as nat, spacing(n as nat)),
        rounded <= 2 * n,
{
    let mut unit: u128 = 1;
    let mut top: u128 = n;
    let ghost mut bits: nat = 0;
    proof {
        vstd::arithmetic::power2::lemma2_to64();
    }
    while top >= PRECISION_LIMIT
        invariant
            n <= 0x100_0000_0000_0000_0000_0000_0000_0000,
            unit == pow2(bits),
            bits + excess_bits(top as nat) == excess_bits(n as nat),
            top * unit <= n,
        decreases top,
    {
        proof {
            lemma_pow2_unfold(bits + 1);
            bits = bits + 1;
        }
        assert((top / 2) * (2 * unit) <= top * unit) by (nonlinear_arith)
            requires
                unit >= 0,
        ;
        assert(2 * unit <= n) by (nonlinear_arith)
            requires
                top * unit <= n,
                top >= 2,
        ;
        unit = unit * 2;
        top = top / 2;
    }
    proof {
        lemma_spacing(n as nat);
        lemma_nearest_multiple(n as nat, unit as nat);
        assert(unit == spacing(n as nat));
        lemma_fundamental_div_mod(n as int, unit as int);
    }
    let below: u128 = n / unit;
    let rest: u128 = n % unit;
    assert(below * unit <= n) by (nonlinear_arith)
        requires
            n == unit * below + rest,
            rest >= 0,
    ;
    assert((below + 1) * unit == below * unit + unit) by (nonlinear_arith);
    assert(n == 0 || unit <= n) by {
        if n >= 0x20_0000_0000_0000 {
            assert(unit <= spacing(n as nat) * 0x10_0000_0000_0000);
        }
    }
    if 2 * rest < unit || (2 * rest == unit && below % 2 == 0) {
        below * unit
    } else {
        assert(n > 0);
        (below + 1) * unit
    }
}

/// Rounds a number of units to 53 significant bits.
pub fn round(units: i128) -> (rounded: i128)
    requires
        -0x100_0000_0000_0000_0000_0000_0000_0000 <= units
            <= 0x100_0000_0000_0000_0000_0000_0000_0000,
    ensures
        rounded == round53(units as int),
        -2 * magnitude(units as int) <= rounded <= 2 * magnitude(units as int),
{
    if units < 0 {
        -(round_magnitude((-units) as u128) as i128)
    } else {
        round_magnitude(units as u128) as i128
    }
}

/// The whole number at or below a number of units.
pub open spec fn floor_of(units: int) -> int {
    units / 0x80_0000_0000_0000
}

pub open spec fn clamp_i32(value: int) -> int {
    if value < i32::MIN {
        i32::MIN as int
    } else if value > i32::MAX {
        i32::MAX as int
    } else {
        value
    }
}

/// A number of units rounded to a whole number, halves upwards: half is added
/// in binary64, then the sum's floor is taken and clamped.
pub open spec fn half_up(units: int) -> int {
    clamp_i32(floor_of(round53(units + 0x40_0000_0000_0000)))
}

/// Rounds a number of units to a whole number, halves upwards.
pub fn js_round(units: i128) -> (whole: i32)
    requires
        -0x80_0000_0000_0000_0000_0000_0000_0000 <= units
            <= 0x80_0000_0000_0000_0000_0000_0000_0000,
    ensures
        whole == half_up(units as int),
{
    let sum: i128 = round(units + 0x40_0000_0000_0000);
    let floor: i128 = if sum < 0 {
        let m: u128 = (-sum) as u128;
        let up: u128 = (m + 0x7f_ffff_ffff_ffff) / 0x80_0000_0000_0000;
        -(up as i128)
    } else {
        (sum as u128 / 0x80_0000_0000_0000) as i128
    };
    assert(floor == floor_of(sum as int));
    if floor < -2147483648 {
        i32::MIN
    } else if floor > 2147483647 {
        i32::MAX
    } else {
        floor as i32
    }
}

// ---------------------------------------------------------------------------
// Bit patterns
// ---------------------------------------------------------------------------

/// Whether a bit pattern stands for no number at all.
pub open spec fn is_nan(bits: u64) -> bool {
    bits as int % 0x8000_0000_0000_0000 > 0x7ff0_0000_0000_0000
}

/// Whether a bit pattern stands for a finite number.
pub open spec fn is_finite64(bits: u64) -> bool {
    (bits as int) % 0x8000_0000_0000_0000 < 0x7ff0_0000_0000_0000
}

pub open spec fn are_numbers(bits: Seq<u64>) -> bool {
    forall|i: int| 0 <= i < bits.len() ==> !is_nan(#[trigger] bits[i])
}

/// Whether one of the numbers that patterns stand for can be called the greatest:
/// there is only one pattern, or all of them stand for numbers.
pub open spec fn can_order(bits: Seq<u64>) -> bool {
    bits.len() <= 1 || are_numbers(bits)
}

/// The items that come with patterns, or only the first where the patterns cannot be
/// ordered.
pub open spec fn ordered_part<A>(items: Seq<A>, bits: Seq<u64>) -> Seq<A> {
    if can_order(bits) {
        items
    } else {
        items.take(1)
    }
}

/// The magnitude of a pattern without its sign, in units of 2^-1075.
pub open spec fn pattern_magnitude(pattern: int) -> int {
    let exponent = pattern / 0x10_0000_0000_0000;
    let fraction = pattern % 0x10_0000_0000_0000;
    if exponent == 0 {
        fraction * pow2(1)
    } else {
        (0x10_0000_0000_0000 + fraction) * pow2(exponent as nat)
    }
}

/// The finite number that a bit pattern stands for, in units of 2^-1075.
pub open spec fn pattern_value(bits: u64) -> int {
    if bits < 0x8000_0000_0000_0000 {
        pattern_magnitude(bits as int)
    } else {
        -pattern_magnitude(bits - 0x8000_0000_0000_0000)
    }
}

/// Whether a bit pattern stands for a number of 2^-55 units.
pub open spec fn stands_for(bits: u64, units: int) -> bool {
    is_finite64(bits) && pattern_value(bits) == units * pow2(1020)
}

/// A number by which binary64 bit patterns are ordered as the numbers they
/// stand for; both zeros give the same number.
pub open spec fn order_key(bits: u64) -> int {
    if bits < 0x8000_0000_0000_0000 {
        bits as int
    } else {
        0x8000_0000_0000_0000 - bits
    }
}

proof fn lemma_magnitudes_increase(left: int, right: int)
    requires
        0 <= left < right,
    ensures
        0 <= pattern_magnitude(left) < pattern_magnitude(right),
{
    let low = left / 0x10_0000_0000_0000;
    let high = right / 0x10_0000_0000_0000;
    let f = left % 0x10_0000_0000_0000;
    let g = right % 0x10_0000_0000_0000;
    let p = pow2((if low == 0 {
        1
    } else {
        low
    }) as nat);
    let m = if low == 0 {
        f
    } else {
        0x10_0000_0000_0000 + f
    };
    lemma_pow2_pos((if low == 0 {
        1
    } else {
        low
    }) as nat);
    assert(pattern_magnitude(left) == m * p);
    assert(0 <= m * p) by (nonlinear_arith)
        requires
            0 <= m,
            0 < p,
    ;
    if low == high {
        let n = if low == 0 {
            g
        } else {
            0x10_0000_0000_0000 + g
        };
        assert(pattern_magnitude(right) == n * p);
        assert(m * p < n * p) by (nonlinear_arith)
            requires
                m < n,
                0 < p,
        ;
    } else {
        let n = 0x10_0000_0000_0000 + g;
        let q = pow2(high as nat);
        lemma_pow2_pos(high as nat);
        assert(pattern_magnitude(right) == n * q);
        assert(n * q >= 0x10_0000_0000_0000 * q) by (nonlinear_arith)
            requires
                n >= 0x10_0000_0000_0000,
                0 < q,
        ;
        if low == 0 {
            if high > 1 {
                lemma_pow2_strictly_increases(1, high as nat);
            }
            assert(m * p < 0x10_0000_0000_0000 * p) by (nonlinear_arith)
                requires
                    m < 0x10_0000_0000_0000,
                    0 < p,
            ;
        } else {
            if high > low + 1 {
                lemma_pow2_strictly_increases((low + 1) as nat, high as nat);
            }
            lemma_pow2_unfold((low + 1) as nat);
            assert(m * p < 0x20_0000_0000_0000 * p) by (nonlinear_arith)
                requires
                    m < 0x20_0000_0000_0000,
                    0 < p,
            ;
        }
    }
}

pub proof fn lemma_zero_magnitude()
    ensures
        pattern_magnitude(0) == 0,
{
    assert(0 * pow2(1) == 0);
}

/// Bit patterns are ordered as the finite numbers they stand for.
pub proof fn patterns_are_ordered_as_numbers(left: u64, right: u64)
    requires
        is_finite64(left),
        is_finite64(right),
    ensures
        (order_key(left) <= order_key(right)) == (pattern_value(left) <= pattern_value(right)),
{
    lemma_zero_magnitude();
    let a = if left < 0x8000_0000_0000_0000 {
        left as int
    } else {
        left - 0x8000_0000_0000_0000
    };
    let b = if right < 0x8000_0000_0000_0000 {
        right as int
    } else {
        right - 0x8000_0000_0000_0000
    };
    if 0 < a {
        lemma_magnitudes_increase(0, a);
    }
    if 0 < b {
        lemma_magnitudes_increase(0, b);
    }
    if a < b {
        lemma_magnitudes_increase(a, b);
    } else if b < a {
        lemma_magnitudes_increase(b, a);
    }
}

/// Patterns that stand for units are ordered as the units.
pub proof fn patterns_are_ordered_as_units(left: u64, right: u64, less: int, more: int)
    requires
        stands_for(left, less),
        stands_for(right, more),
    ensures
        (order_key(left) <= order_key(right)) == (less <= more),
{
    patterns_are_ordered_as_numbers(left, right);
    let scale = pow2(1020);
    lemma_pow2_pos(1020);
    if less <= more {
        assert(less * scale <= more * scale) by (nonlinear_arith)
            requires
                less <= more,
                scale > 0,
        ;
    } else {
        assert(less * scale > more * scale) by (nonlinear_arith)
            requires
                less > more,
                scale > 0,
        ;
    }
}

/// Whether the numbers that bit patterns stand for can be ordered.
pub fn can_be_ordered(bits: &[u64]) -> (orderable: bool)
    ensures
        orderable == can_order(bits@),
{
    if bits.len() <= 1 {
        return true;
    }
    let mut index: usize = 0;
    while index < bits.len()
        invariant
            index <= bits.len(),
            bits.len() > 1,
            forall|i: int| 0 <= i < index ==> !is_nan(#[trigger] bits@[i]),
        decreases bits.len() - index,
    {
        if bits[index] % 0x8000_0000_0000_0000 > 0x7ff0_0000_0000_0000 {
            assert(is_nan(bits@[index as int]));
            return false;
        }
        index += 1;
    }
    true
}

/// Whether a bit pattern stands for a finite number.
pub fn check_finite(bits: u64) -> (finite: bool)
    ensures
        finite == is_finite64(bits),
{
    bits % 0x8000_0000_0000_0000 < 0x7ff0_0000_0000_0000
}

} // verus!
