//! Reproducible random numbers and hashes.

use vstd::arithmetic::power2::lemma2_to64;
use vstd::prelude::*;

use crate::binary64::{
    round, round53, rounding_error_is_small, rounding_keeps_representable_numbers,
    short_numbers_are_representable,
};

verus! {

// ---------------------------------------------------------------------------
// Shuffling
// ---------------------------------------------------------------------------

pub open spec fn swapped<A>(values: Seq<A>, left: int, right: int) -> Seq<A> {
    values.update(left, values[right]).update(right, values[left])
}

/// What a swap leaves at each place.
pub proof fn lemma_swapped<A>(values: Seq<A>, left: int, right: int, place: int)
    requires
        0 <= left < values.len(),
        0 <= right < values.len(),
        0 <= place < values.len(),
    ensures
        swapped(values, left, right).len() == values.len(),
        swapped(values, left, right)[place] == (if place == right {
            values[left]
        } else if place == left {
            values[right]
        } else {
            values[place]
        }),
{
}

pub proof fn lemma_swap_keeps_the_items<A>(values: Seq<A>, left: int, right: int)
    requires
        0 <= left < values.len(),
        0 <= right < values.len(),
    ensures
        swapped(values, left, right).to_multiset() == values.to_multiset(),
{
    broadcast use vstd::seq_lib::group_to_multiset_ensures;

    let once = values.update(left, values[right]);
    assert(once.to_multiset() == values.to_multiset().insert(values[right]).remove(values[left]));
    let twice = once.update(right, values[left]);
    assert(twice.to_multiset() == once.to_multiset().insert(values[left]).remove(once[right]));
    assert(once[right] == values[right]);
    assert(twice.to_multiset() =~= values.to_multiset());
}

// ---------------------------------------------------------------------------
// 32 bits
// ---------------------------------------------------------------------------

/// The number after `state` in the 32-bit sequence.
pub open spec fn next32(state: u32) -> u32 {
    let first = state ^ (state << 13u32);
    let second = first ^ (first >> 17u32);
    second ^ (second << 5u32)
}

/// The number below `length` that a random number picks: the number as a
/// fraction, times the length, rounded down; all of it in binary64.
pub open spec fn pick(random: u32, length: int) -> int {
    round53(random * round53(length)) / 0x1_0000_0000
}

proof fn lemma_whole_numbers_are_kept(length: int)
    requires
        0 <= length <= 0x20_0000_0000_0000,
    ensures
        round53(length) == length,
{
    lemma2_to64();
    if length < 0x20_0000_0000_0000 {
        short_numbers_are_representable(length as nat, 0);
    } else {
        short_numbers_are_representable(0x10_0000_0000_0000, 1);
    }
    rounding_keeps_representable_numbers(length);
}

proof fn lemma_pick_range(random: u32, length: int)
    requires
        0 < length <= 0x1_0000_0000_0000_0000,
    ensures
        0 <= random * round53(length) <= 0x1_0000_0000 * round53(length),
        0 <= pick(random, length) < round53(length) <= 0x1_0000_0000_0000_0000,
{
    lemma2_to64();
    short_numbers_are_representable(1, 64);
    crate::binary64::rounding_stays_within(length, 0x1_0000_0000_0000_0000);
    rounding_error_is_small(length);
    let scale = round53(length);
    assert(0 < scale);
    let product = random * scale;
    assert(0 <= product <= 0x1_0000_0000 * scale - scale) by (nonlinear_arith)
        requires
            product == random * scale,
            0 <= random <= 0xffff_ffff,
            0 < scale,
    ;
    rounding_error_is_small(product);
}

/// What is picked from a list lies in the list.
pub proof fn a_pick_is_below_the_length(random: u32, length: int)
    requires
        0 < length <= 0x20_0000_0000_0000,
    ensures
        0 <= pick(random, length) < length,
{
    lemma_pick_range(random, length);
    lemma_whole_numbers_are_kept(length);
}

#[derive(Clone, Copy)]
pub struct XorShift32 {
    pub state: u32,
}

impl XorShift32 {
    /// A generator; the seed zero stands for another fixed seed.
    pub fn new(seed: u32) -> (random: Self)
        ensures
            random.state == (if seed == 0 {
                0x9e37_79b9u32
            } else {
                seed
            }),
    {
        XorShift32 {
            state: if seed == 0 {
                0x9e37_79b9
            } else {
                seed
            },
        }
    }

    pub fn next_u32(&mut self) -> (number: u32)
        ensures
            number == next32(old(self).state),
            final(self).state == number,
    {
        self.state = self.state ^ (self.state << 13u32);
        self.state = self.state ^ (self.state >> 17u32);
        self.state = self.state ^ (self.state << 5u32);
        self.state
    }
}

impl XorShift32 {
    /// A random place in a list of `length` things.
    pub fn index(&mut self, length: usize) -> (place: usize)
        ensures
            final(self).state == next32(old(self).state),
            place == pick(final(self).state, length as int),
            0 < length <= 0x20_0000_0000_0000 ==> place < length,
    {
        let number: u32 = self.next_u32();
        if length == 0 {
            proof {
                lemma_whole_numbers_are_kept(0);
                assert(number * 0 == 0);
            }
            return 0;
        }
        proof {
            lemma_pick_range(number, length as int);
            if length <= 0x20_0000_0000_0000 {
                a_pick_is_below_the_length(number, length as int);
            }
        }
        let scale: i128 = round(length as i128);
        let product: i128 = round(number as i128 * scale);
        (product as u128 / 0x1_0000_0000) as usize
    }
}

/// The generator never gets stuck at zero.
pub proof fn next32_is_never_zero(state: u32)
    requires
        state != 0,
    ensures
        next32(state) != 0,
{
    assert(({
        let first = state ^ (state << 13u32);
        let second = first ^ (first >> 17u32);
        second ^ (second << 5u32)
    }) != 0) by (bit_vector)
        requires
            state != 0,
    ;
}

/// Different states lead to different states: no part of the sequence merges.
pub proof fn next32_is_injective(left: u32, right: u32)
    requires
        next32(left) == next32(right),
    ensures
        left == right,
{
    assert(({
        let first = left ^ (left << 13u32);
        let second = first ^ (first >> 17u32);
        second ^ (second << 5u32)
    }) == ({
        let first = right ^ (right << 13u32);
        let second = first ^ (first >> 17u32);
        second ^ (second << 5u32)
    }) ==> left == right) by (bit_vector);
}

// ---------------------------------------------------------------------------
// 64 bits
// ---------------------------------------------------------------------------

/// The number after `state` in the 64-bit sequence.
pub open spec fn next64(state: u64) -> u64 {
    let first = state ^ (state << 13u64);
    let second = first ^ (first >> 7u64);
    second ^ (second << 17u64)
}

/// The values and the generator after a shuffle from place `index` down.
pub open spec fn shuffled(values: Seq<u32>, state: u64, index: int) -> (Seq<u32>, u64)
    decreases index,
{
    if index < 1 {
        (values, state)
    } else {
        let number = next64(state);
        shuffled(swapped(values, index, number as int % (index + 1)), number, index - 1)
    }
}

#[derive(Clone, Copy)]
pub struct XorShift64 {
    pub state: u64,
}

impl XorShift64 {
    pub fn new(seed: u64) -> (random: Self)
        ensures
            random.state == (if seed == 0 {
                1u64
            } else {
                seed
            }),
    {
        XorShift64 {
            state: if seed == 0 {
                1
            } else {
                seed
            },
        }
    }

    pub fn next(&mut self) -> (number: u64)
        ensures
            number == next64(old(self).state),
            final(self).state == number,
    {
        self.state = self.state ^ (self.state << 13u64);
        self.state = self.state ^ (self.state >> 7u64);
        self.state = self.state ^ (self.state << 17u64);
        self.state
    }

    /// The upper 24 bits of the next number: how many 2^-24 a random fraction has.
    pub fn unit_bits(&mut self) -> (bits: u32)
        ensures
            bits as int == next64(old(self).state) as int / 0x100_0000_0000,
            bits < 0x100_0000,
            final(self).state == next64(old(self).state),
    {
        let number: u64 = self.next();
        (number / 0x100_0000_0000) as u32
    }

    /// Puts the values into random order.
    pub fn shuffle(&mut self, values: &mut Vec<u32>)
        ensures
            (final(values)@, final(self).state) == shuffled(
                old(values)@,
                old(self).state,
                old(values).len() - 1,
            ),
            final(values)@.to_multiset() == old(values)@.to_multiset(),
            final(values).len() == old(values).len(),
    {
        let ghost goal = shuffled(values@, self.state, values.len() - 1);
        let mut left: usize = values.len();
        while left > 1
            invariant
                left <= values.len(),
                values.len() == old(values).len(),
                goal == shuffled(values@, self.state, left - 1),
                values@.to_multiset() == old(values)@.to_multiset(),
            decreases left,
        {
            let index: usize = left - 1;
            let other: usize = (self.next() % (index as u64 + 1)) as usize;
            proof {
                lemma_swap_keeps_the_items(values@, index as int, other as int);
            }
            let ghost before = values@;
            let kept: u32 = values[index];
            let moved: u32 = values[other];
            values.set(index, moved);
            values.set(other, kept);
            assert(values@ =~= swapped(before, index as int, other as int));
            left = index;
        }
    }
}

// ---------------------------------------------------------------------------
// Hashes
// ---------------------------------------------------------------------------

/// A product of which 32 bits are kept.
pub open spec fn mul32(left: u32, right: u32) -> u32 {
    ((left * right) % 0x1_0000_0000) as u32
}

/// A sum of which 32 bits are kept.
pub open spec fn add32(left: u32, right: u32) -> u32 {
    ((left + right) % 0x1_0000_0000) as u32
}

/// Spreads every bit of a number over all its bits.
pub open spec fn avalanche(number: u32) -> u32 {
    let first = number ^ (number >> 16u32);
    let second = mul32(first, 0x7feb_352d);
    let third = second ^ (second >> 15u32);
    let fourth = mul32(third, 0x846c_a68b);
    fourth ^ (fourth >> 16u32)
}

pub fn avalanche_of(number: u32) -> (mixed: u32)
    ensures
        mixed == avalanche(number),
{
    let mut mixed: u32 = number;
    mixed = mixed ^ (mixed >> 16u32);
    mixed = mixed.wrapping_mul(0x7feb_352d);
    mixed = mixed ^ (mixed >> 15u32);
    mixed = mixed.wrapping_mul(0x846c_a68b);
    mixed ^ (mixed >> 16u32)
}

/// The part of the data that an episode belongs to: eight of ten seeds train, one
/// validates, one tests.
pub open spec fn split_of(seed: u32) -> int {
    let tenth = avalanche(seed) % 10;
    if tenth == 9 {
        2
    } else if tenth == 8 {
        1
    } else {
        0
    }
}

pub fn split_index(seed: u32) -> (split: usize)
    ensures
        split == split_of(seed),
        split < 3,
{
    let tenth: u32 = avalanche_of(seed) % 10;
    if tenth == 9 {
        2
    } else if tenth == 8 {
        1
    } else {
        0
    }
}

/// A hash of a position in an episode.
pub open spec fn position_hash(seed: u32, step: u16) -> u32 {
    avalanche(seed ^ mul32(step as u32, 0x9e37_79b1))
}

pub fn mixed_hash(seed: u32, step: u16) -> (hash: u32)
    ensures
        hash == position_hash(seed, step),
{
    avalanche_of(seed ^ (step as u32).wrapping_mul(0x9e37_79b1))
}

/// The seed of a game in a run.
pub open spec fn seed_of_game(base: u32, game_index: u64) -> u32 {
    add32(base, mul32(add32((game_index % 0x1_0000_0000) as u32, 1), 0x9e37_79b1))
}

pub fn game_seed(base: u32, game_index: u64) -> (seed: u32)
    ensures
        seed == seed_of_game(base, game_index),
{
    base.wrapping_add(
        ((game_index % 0x1_0000_0000) as u32).wrapping_add(1).wrapping_mul(0x9e37_79b1),
    )
}

/// Undoing the multiplication that spreads game numbers.
proof fn lemma_spread_is_undone(number: u32)
    ensures
        mul32(mul32(number, 0x9e37_79b1), 0x0e8b_2f51) == number,
{
    let m = 0x1_0000_0000int;
    let a = number as int;
    let c = 0x9e37_79b1int;
    let d = 0x0e8b_2f51int;
    vstd::arithmetic::div_mod::lemma_mul_mod_noop_left(a * c, d, m);
    assert((a * c) * d == a * (c * d)) by (nonlinear_arith);
    let k = (c * d) / m;
    assert(c * d == k * m + 1);
    assert(a * (k * m + 1) == m * (a * k) + a) by (nonlinear_arith);
    vstd::arithmetic::div_mod::lemma_mod_multiples_vanish(a * k, a, m);
}

proof fn lemma_sums_differ(base: u32, left: u32, right: u32)
    requires
        add32(base, left) == add32(base, right),
    ensures
        left == right,
{
}

proof fn lemma_sums_differ_by_one(left: u32, right: u32)
    requires
        add32(left, 1) == add32(right, 1),
    ensures
        left == right,
{
}

/// The first four billion games of a run have different seeds.
pub proof fn games_have_different_seeds(base: u32, left: u64, right: u64)
    requires
        left < 0x1_0000_0000,
        right < 0x1_0000_0000,
        seed_of_game(base, left) == seed_of_game(base, right),
    ensures
        left == right,
{
    let a = add32((left % 0x1_0000_0000) as u32, 1);
    let b = add32((right % 0x1_0000_0000) as u32, 1);
    lemma_sums_differ(base, mul32(a, 0x9e37_79b1), mul32(b, 0x9e37_79b1));
    lemma_spread_is_undone(a);
    lemma_spread_is_undone(b);
    assert(a == b);
    lemma_sums_differ_by_one((left % 0x1_0000_0000) as u32, (right % 0x1_0000_0000) as u32);
}

} // verus!
