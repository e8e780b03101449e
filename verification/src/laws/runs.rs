//! Laws of runs: which game plays what, how numbers are drawn, and how texts are joined.

use vstd::prelude::*;

use crate::binary64::{
    round53, rounding_keeps_representable_numbers, short_numbers_are_representable,
};
use crate::corpus::{game_depth, game_of, game_policy, nth_game, usual_width};
use crate::episode::MovePolicy;
use crate::native::Strategy;
use crate::options::SelfPlayNumbers;
use crate::random::{pick, split_of};
use crate::records::joined;

verus! {

proof fn lemma_exact(number: int)
    requires
        0 <= number < 0x20_0000_0000_0000,
    ensures
        round53(number) == number,
{
    vstd::arithmetic::power2::lemma2_to64();
    short_numbers_are_representable(number as nat, 0);
    assert(number as nat * vstd::arithmetic::power2::pow2(0) == number);
    rounding_keeps_representable_numbers(number);
}

/// A random number picks the share that it lies in where its range is cut into as many
/// equal shares as there are choices.
pub proof fn a_pick_is_the_share_of_the_number(random: u32, length: int)
    requires
        1 <= length <= 0x20_0000,
    ensures
        pick(random, length) * 0x1_0000_0000 <= random * length,
        random * length < (pick(random, length) + 1) * 0x1_0000_0000,
{
    let product = random * length;
    assert(0 <= product < 0x20_0000_0000_0000) by (nonlinear_arith)
        requires
            product == random * length,
            0 <= random <= 0xffff_ffff,
            1 <= length <= 0x20_0000,
    ;
    lemma_exact(length);
    lemma_exact(product);
}

/// The games of a run take the search depths in turn.
pub proof fn depths_take_turns(numbers: SelfPlayNumbers, game: u64, later: u64)
    requires
        numbers.depths.len() >= 1,
    ensures
        game < numbers.depths.len() ==> game_depth(numbers, game) == numbers.depths@[game as int],
        later == game + numbers.depths.len() ==> game_depth(numbers, later) == game_depth(
            numbers,
            game,
        ),
{
    let count = numbers.depths.len() as int;
    if game < count {
        vstd::arithmetic::div_mod::lemma_small_mod(game as nat, count as nat);
    }
    vstd::arithmetic::div_mod::lemma_mod_add_multiples_vanish(game as int, count);
}

/// A deeper search is never narrower, and a width that was asked for is taken. Candidates
/// are pooled exactly where a wider search was asked for.
pub proof fn games_are_played_as_asked(numbers: SelfPlayNumbers, depth: usize, deeper: usize)
    requires
        1 <= depth <= deeper,
    ensures
        48 <= usual_width(depth) <= usual_width(deeper) <= 72,
        match game_policy(numbers, depth) {
            MovePolicy::Best { width } => numbers.root_candidate_beam.is_none() && width == (
            match numbers.beam_width {
                Some(asked) => asked,
                None => usual_width(depth),
            }),
            MovePolicy::Pool { width, candidate_width, candidates } => {
                &&& numbers.root_candidate_beam == Some(candidate_width)
                &&& candidates == numbers.root_candidates
                &&& width == (match numbers.beam_width {
                    Some(asked) => asked,
                    None => usual_width(depth),
                })
            },
        },
{
}

/// Joined texts are the first of them joined, the separator, and the rest joined.
pub proof fn joining_goes_through(
    first: Seq<Seq<char>>,
    rest: Seq<Seq<char>>,
    separator: Seq<char>,
)
    ensures
        joined(Seq::empty(), separator) == Seq::<char>::empty(),
        first.len() == 1 ==> joined(first, separator) == first[0],
        first.len() > 0 && rest.len() > 0 ==> joined(first + rest, separator) == joined(
            first,
            separator,
        ) + separator + joined(rest, separator),
    decreases rest.len(),
{
    if first.len() > 0 && rest.len() > 0 {
        let all = first + rest;
        assert(all.drop_last() =~= first + rest.drop_last());
        assert(all.last() == rest.last());
        if rest.len() == 1 {
            assert(first + rest.drop_last() =~= first);
        } else {
            joining_goes_through(first, rest.drop_last(), separator);
        }
        assert(joined(all, separator) =~= joined(first, separator) + separator + joined(
            rest,
            separator,
        ));
    }
}

/// Every seed belongs to one of the three parts of the data.
pub proof fn every_seed_has_a_part(seed: u32)
    ensures
        0 <= split_of(seed) <= 2,
        split_of(seed) == 2 <==> crate::random::avalanche(seed) % 10 == 9,
        split_of(seed) == 1 <==> crate::random::avalanche(seed) % 10 == 8,
{
}

/// The games of a run take the two lexicons in turn, the first one first, each with its
/// own letter bags.
pub proof fn lexicons_take_turns(
    numbers: SelfPlayNumbers,
    strategies: (Strategy, Strategy),
    bags: (Seq<Vec<[u8; 4]>>, Seq<Vec<[u8; 4]>>),
    game: u64,
)
    ensures
        game % 2 == 0 ==> nth_game(numbers, strategies, bags, game) == game_of(
            numbers,
            strategies.0,
            bags.0,
            game,
        ),
        game % 2 == 1 ==> nth_game(numbers, strategies, bags, game) == game_of(
            numbers,
            strategies.1,
            bags.1,
            game,
        ),
{
}

} // verus!
