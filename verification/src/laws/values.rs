//! Laws of values: what each measure of a board weighs, what words promise, and how
//! points and lines weigh against the board. Values count units of 2^-55 and are worked
//! out in binary64, so each is told to within a thousandth.

use vstd::prelude::*;

use crate::binary64::{half_up, magnitude, round53, rounding_error_is_small};
use crate::board::{cells_valid, filled_count, row_of};
use crate::evaluation::{
    aggregate_height, blocks_above, board_value, bumpiness, buried_depth, column_buried,
    column_holes, evaluation_of, heights, holes, less, maximum_height, potential, setups, wells,
    word_setups, SetupModel, FULLNESS_FACTORS,
};
use crate::laws::clearing::a_row_has_at_most_five_words;
use crate::laws::counting::{adds_up_to, one_part_more_adds_itself};
use crate::laws::surface::heights_reach_to_the_topmost_cell;
use crate::search::state_value;
use crate::words::{lemma_row_words_bounded, row_words, total_score, WordModel};

verus! {

/// Whether two multiples of numbers of units stand for nearly the same: the numbers
/// themselves are less than a thousandth apart.
pub open spec fn agree(left: int, right: int, multiple: int) -> bool {
    -(multiple * 0x2000_0000_0000) <= left - right <= multiple * 0x2000_0000_0000
}

proof fn lemma_round(units: int)
    requires
        -0x1_0000_0000_0000_0000_0000 <= units <= 0x1_0000_0000_0000_0000_0000,
    ensures
        -0x800_0000 <= round53(units) - units <= 0x800_0000,
{
    rounding_error_is_small(units);
    let error = magnitude(round53(units) - units) as int;
    assert(0x20_0000_0000_0000 * error <= 0x1_0000_0000_0000_0000_0000);
}

// ---------------------------------------------------------------------------
// What words promise
// ---------------------------------------------------------------------------

/// A millionth of what a point is worth in a row with so many occupied cells.
pub open spec fn fullness(filled: int) -> int {
    180_000 + 112 * (filled * filled * filled * filled)
}

/// The worth of a point rises with the fourth power of the fullness of its row, from
/// 0.18 by up to 1.12.
pub proof fn factors_rise_with_the_fourth_power(filled: int)
    requires
        0 <= filled < 10,
    ensures
        -16_000_000 <= 1_000_000 * FULLNESS_FACTORS@[filled] - fullness(filled)
            * 0x80_0000_0000_0000 <= 16_000_000,
{
    assert(0 * 0 * 0 * 0 == 0 && 2 * 2 * 2 * 2 == 16 && 3 * 3 * 3 * 3 == 81 && 4 * 4 * 4 * 4
        == 256) by (nonlinear_arith);
    assert(5 * 5 * 5 * 5 == 625 && 6 * 6 * 6 * 6 == 1296 && 7 * 7 * 7 * 7 == 2401 && 8 * 8 * 8
        * 8 == 4096 && 9 * 9 * 9 * 9 == 6561) by (nonlinear_arith);
    if filled == 0 {
        assert(fullness(0) == 180_000);
    } else if filled == 1 {
        assert(fullness(1) == 180_112);
    } else if filled == 2 {
        assert(fullness(2) == 181_792);
    } else if filled == 3 {
        assert(fullness(3) == 189_072);
    } else if filled == 4 {
        assert(fullness(4) == 208_672);
    } else if filled == 5 {
        assert(fullness(5) == 250_000);
    } else if filled == 6 {
        assert(fullness(6) == 325_152);
    } else if filled == 7 {
        assert(fullness(7) == 448_912);
    } else if filled == 8 {
        assert(fullness(8) == 638_752);
    } else {
        assert(fullness(9) == 914_832);
    }
}

/// What the words of a row promise, in millionths of a point: nothing where the row is
/// nearly empty or full.
pub open spec fn row_promise(nodes: Seq<u32>, row: Seq<u8>) -> int {
    if 2 <= filled_count(row) <= 9 {
        fullness(filled_count(row) as int) * total_score(row_words(nodes, row))
    } else {
        0
    }
}

pub open spec fn row_promises(nodes: Seq<u32>, board: Seq<u8>, limit: int) -> Seq<int> {
    Seq::new(limit as nat, |row: int| row_promise(nodes, row_of(board, row)))
}

proof fn lemma_one_word(before: int, score: int, filled: int)
    requires
        2 <= filled <= 9,
        0 <= score <= 10_000,
        0 <= before <= 0x1000_0000_0000_0000_0000,
    ensures
        ({
            let value = round53(score * FULLNESS_FACTORS@[filled]);
            let after = round53(before + value);
            &&& -536_870_912_000_000 <= 1_000_000 * after - 1_000_000 * before - fullness(filled)
                * score * 0x80_0000_0000_0000 <= 536_870_912_000_000
            &&& 0 <= after <= before + 0x20_0000_0000_0000_0000
        }),
{
    factors_rise_with_the_fourth_power(filled);
    let factor = FULLNESS_FACTORS@[filled] as int;
    let exact = fullness(filled);
    assert(0 <= factor <= 0x80_0000_0000_0000);
    let product = score * factor;
    assert(0 <= product <= 0x80_0000_0000_0000 * 10_000) by (nonlinear_arith)
        requires
            product == score * factor,
            0 <= score <= 10_000,
            0 <= factor <= 0x80_0000_0000_0000,
    ;
    assert(-160_000_000_000 <= 1_000_000 * product - exact * score * 0x80_0000_0000_0000
        <= 160_000_000_000) by (nonlinear_arith)
        requires
            product == score * factor,
            0 <= score <= 10_000,
            -4_000_000 <= 1_000_000 * factor - exact * 0x80_0000_0000_0000 <= 16_000_000,
    ;
    lemma_round(product);
    let value = round53(product);
    lemma_round(before + value);
}

proof fn lemma_words(before: Seq<SetupModel>, words: Seq<WordModel>, filled: int)
    requires
        2 <= filled <= 9,
        words.len() <= 5,
        forall|i: int| 0 <= i < words.len() ==> 0 <= (#[trigger] words[i]).score <= 10_000,
        0 <= potential(before) <= 0xe00_0000_0000_0000_0000,
    ensures
        ({
            let after = potential(
                before + word_setups(words, FULLNESS_FACTORS@[filled] as int),
            );
            let count = words.len() as int;
            &&& -536_870_912_000_000 * count <= 1_000_000 * after - 1_000_000 * potential(before)
                - fullness(filled) * total_score(words) * 0x80_0000_0000_0000 <= 536_870_912_000_000
                * count
            &&& 0 <= after <= potential(before) + 0x20_0000_0000_0000_0000 * count
        }),
    decreases words.len(),
{
    let factor = FULLNESS_FACTORS@[filled] as int;
    let exact = fullness(filled);
    let all = before + word_setups(words, factor);
    if words.len() == 0 {
        assert(all =~= before);
        assert(exact * 0 == 0) by (nonlinear_arith);
    } else {
        let fewer = words.drop_last();
        assert forall|i: int| 0 <= i < fewer.len() implies 0 <= (#[trigger] fewer[i]).score
            <= 10_000 by {
            assert(fewer[i] == words[i]);
        }
        lemma_words(before, fewer, filled);
        let score = words.last().score;
        assert(words.last() == words[words.len() - 1]);
        assert(all.drop_last() =~= before + word_setups(fewer, factor));
        assert(all.last().value == round53(score * factor));
        lemma_one_word(potential(all.drop_last()), score, filled);
        assert(exact * (total_score(fewer) + score) == exact * total_score(fewer) + exact * score)
            by (nonlinear_arith);
        assert(total_score(words) == total_score(fewer) + score);
    }
}

proof fn lemma_promises(nodes: Seq<u32>, board: Seq<u8>, limit: int) -> (total: int)
    requires
        board.len() == 220,
        cells_valid(board),
        0 <= limit <= 22,
    ensures
        adds_up_to(row_promises(nodes, board, limit), total),
        ({
            let found = potential(setups(nodes, board, limit));
            &&& -2_684_354_560_000_000 * limit <= 1_000_000 * found - total * 0x80_0000_0000_0000
                <= 2_684_354_560_000_000 * limit
            &&& 0 <= found <= 0xa0_0000_0000_0000_0000 * limit
        }),
    decreases limit,
{
    if limit == 0 {
        one_part_more_adds_itself(Seq::empty(), 0, 0);
        assert(row_promises(nodes, board, 0) =~= Seq::<int>::empty());
        0
    } else {
        let before = lemma_promises(nodes, board, limit - 1);
        let row = row_of(board, limit - 1);
        let words = row_words(nodes, row);
        let more = row_promise(nodes, row);
        one_part_more_adds_itself(row_promises(nodes, board, limit - 1), before, more);
        assert(row_promises(nodes, board, limit) =~= row_promises(nodes, board, limit - 1).push(
            more,
        ));
        if 2 <= filled_count(row) <= 9 {
            assert(cells_valid(row)) by {
                assert forall|i: int| 0 <= i < row.len() implies crate::board::is_valid_cell(
                    #[trigger] row[i],
                ) by {
                    assert(row[i] == board[(limit - 1) * 10 + i]);
                }
            }
            lemma_row_words_bounded(nodes, row);
            a_row_has_at_most_five_words(nodes, row);
            lemma_words(setups(nodes, board, limit - 1), words, filled_count(row) as int);
        } else {
            assert(setups(nodes, board, limit) =~= setups(nodes, board, limit - 1));
        }
        before + more
    }
}

/// The word potential of a board is what the words of its rows promise, added up over
/// the rows: each point counts by the fullness of its row.
pub proof fn the_potential_adds_up_the_rows(nodes: Seq<u32>, board: Seq<u8>)
    requires
        board.len() == 220,
        cells_valid(board),
    ensures
        exists|total: int|
            #[trigger] adds_up_to(row_promises(nodes, board, 22), total) && agree(
                1_000_000 * evaluation_of(nodes, board).word_potential,
                total * 0x80_0000_0000_0000,
                1_000_000,
            ),
        evaluation_of(nodes, board).word_potential >= 0,
{
    let total = lemma_promises(nodes, board, 22);
}

// ---------------------------------------------------------------------------
// What the measures weigh
// ---------------------------------------------------------------------------

proof fn lemma_column_bounds(board: Seq<u8>, col: int, limit: int)
    requires
        0 <= limit <= 22,
    ensures
        0 <= blocks_above(board, col, limit) <= limit,
        0 <= column_holes(board, col, limit) <= limit,
        0 <= column_buried(board, col, limit) <= 22 * limit,
    decreases limit,
{
    if limit > 0 {
        lemma_column_bounds(board, col, limit - 1);
    }
}

proof fn lemma_hole_bounds(board: Seq<u8>, cols: int)
    requires
        0 <= cols,
    ensures
        0 <= holes(board, cols) <= 22 * cols,
        0 <= buried_depth(board, cols) <= 484 * cols,
    decreases cols,
{
    if cols > 0 {
        lemma_hole_bounds(board, cols - 1);
        lemma_column_bounds(board, cols - 1, 22);
    }
}

proof fn lemma_height_bounds(tops: Seq<int>, cols: int)
    requires
        0 <= cols <= 10,
        forall|col: int| 0 <= col < 10 ==> 0 <= #[trigger] tops[col] <= 22,
    ensures
        0 <= aggregate_height(tops, cols) <= 22 * cols,
        0 <= maximum_height(tops, cols) <= 22,
        0 <= bumpiness(tops, cols) <= 22 * cols,
        0 <= wells(tops, cols) <= 22 * cols,
    decreases cols,
{
    if cols > 0 {
        lemma_height_bounds(tops, cols - 1);
        assert(0 <= tops[cols - 1] <= 22);
        if cols > 1 {
            assert(0 <= tops[cols - 2] <= 22);
        }
        if cols < 10 {
            assert(0 <= tops[cols] <= 22);
        }
    }
}

proof fn lemma_less(value: int, amount: int, weight: int)
    requires
        -0x4000_0000_0000_0000_0000 <= value <= 0x4000_0000_0000_0000_0000,
        0 <= amount * weight <= 0x4000_0000_0000_0000_0000,
    ensures
        -0x1000_0000 <= less(value, amount, weight) - (value - amount * weight) <= 0x1000_0000,
{
    lemma_round(amount * weight);
    lemma_round(value - round53(amount * weight));
}

proof fn lemma_board_value(
    word_potential: int,
    holes: int,
    buried: int,
    aggregate: int,
    maximum: int,
    bumps: int,
    depth: int,
)
    requires
        0 <= word_potential <= 0x1000_0000_0000_0000_0000,
        0 <= holes <= 220,
        0 <= buried <= 4840,
        0 <= aggregate <= 220,
        0 <= maximum <= 22,
        0 <= bumps <= 220,
        0 <= depth <= 220,
    ensures
        agree(
            10 * board_value(word_potential, holes, buried, aggregate, maximum, bumps, depth),
            10 * word_potential - (2_850 * holes + 340 * buried + 45 * aggregate + 17 * (maximum
                * maximum) + 80 * bumps + 30 * depth) * 0x80_0000_0000_0000,
            10,
        ),
{
    let square = maximum * maximum;
    assert(0 <= square <= 484) by (nonlinear_arith)
        requires
            0 <= maximum <= 22,
            square == maximum * maximum,
    ;
    lemma_less(word_potential, holes, crate::evaluation::HOLE_WEIGHT as int);
    let first = less(word_potential, holes, crate::evaluation::HOLE_WEIGHT as int);
    lemma_less(first, buried, crate::evaluation::BURIED_WEIGHT as int);
    let second = less(first, buried, crate::evaluation::BURIED_WEIGHT as int);
    lemma_less(second, aggregate, crate::evaluation::AGGREGATE_WEIGHT as int);
    let third = less(second, aggregate, crate::evaluation::AGGREGATE_WEIGHT as int);
    lemma_less(third, square, crate::evaluation::MAXIMUM_WEIGHT as int);
    let fourth = less(third, square, crate::evaluation::MAXIMUM_WEIGHT as int);
    lemma_less(fourth, bumps, crate::evaluation::BUMPINESS_WEIGHT as int);
    let fifth = less(fourth, bumps, crate::evaluation::BUMPINESS_WEIGHT as int);
    lemma_less(fifth, depth, crate::evaluation::WELL_WEIGHT as int);
}

/// The value of a board is its word potential less 285 for each hole, 34 for each cell
/// above a hole, 4.5 for each level of height, 1.7 times the square of the maximum
/// height, 8 for each level between neighbours and 3 for each level of a well.
pub proof fn measures_have_their_weights(nodes: Seq<u32>, board: Seq<u8>)
    requires
        board.len() == 220,
        cells_valid(board),
    ensures
        ({
            let found = evaluation_of(nodes, board);
            agree(
                10 * found.value,
                10 * found.word_potential - (2_850 * found.holes + 340 * found.buried_depth + 45
                    * found.aggregate_height + 17 * (found.maximum_height * found.maximum_height)
                    + 80 * found.bumpiness + 30 * found.wells) * 0x80_0000_0000_0000,
                10,
            )
        }),
{
    let tops = heights(board);
    let total = lemma_promises(nodes, board, 22);
    lemma_hole_bounds(board, 10);
    assert forall|col: int| 0 <= col < 10 implies 0 <= #[trigger] tops[col] <= 22 by {
        heights_reach_to_the_topmost_cell(nodes, board, col);
        assert(evaluation_of(nodes, board).heights[col] == tops[col]);
    }
    lemma_height_bounds(tops, 10);
    lemma_board_value(
        potential(setups(nodes, board, 22)),
        holes(board, 10),
        buried_depth(board, 10),
        aggregate_height(tops, 10),
        maximum_height(tops, 10),
        bumpiness(tops, 10),
        wells(tops, 10),
    );
}

/// A state is worth one and a quarter for each point, less ninety for each line, and the
/// value of its board.
pub proof fn points_and_lines_have_their_weights(score: int, lines: int, board_value: int)
    requires
        -0x100_0000 <= score <= 0x100_0000,
        0 <= lines <= 0xffff,
        -0x1000_0000_0000_0000_0000 <= board_value <= 0x1000_0000_0000_0000_0000,
    ensures
        agree(
            4 * state_value(score, lines, board_value),
            (5 * score - 360 * lines) * 0x80_0000_0000_0000 + 4 * board_value,
            4,
        ),
{
    lemma_round(score * crate::search::SCORE_WEIGHT as int);
    lemma_round(lines * crate::search::LINE_WEIGHT as int);
    let gained = round53(score * crate::search::SCORE_WEIGHT as int);
    let spent = round53(lines * crate::search::LINE_WEIGHT as int);
    lemma_round(gained - spent);
    lemma_round(round53(gained - spent) + board_value);
}

// ---------------------------------------------------------------------------
// Whole numbers
// ---------------------------------------------------------------------------

/// An evaluation is the value rounded to a whole number: it is half away at most, to
/// within a thousandth.
pub proof fn evaluations_are_rounded_values(value: int)
    requires
        -0x8000_0000_0000_0000_0000 <= value <= 0x8000_0000_0000_0000_0000,
    ensures
        -0x8000_0000 < half_up(value) < 0x7fff_ffff ==> {
            let apart = 2 * value - 2 * half_up(value) * 0x80_0000_0000_0000;
            -0x80_4000_0000_0000 <= apart <= 0x80_4000_0000_0000
        },
{
    lemma_round(value + 0x40_0000_0000_0000);
}

/// A whole number is its own evaluation, and a number half way between two whole numbers
/// goes to the greater one.
pub proof fn halves_go_up(whole: int)
    requires
        -0x7fff_ffff <= whole < 0x7fff_ffff,
    ensures
        half_up(whole * 0x80_0000_0000_0000) == whole,
        half_up(whole * 0x80_0000_0000_0000 + 0x40_0000_0000_0000) == whole + 1,
{
    let middle = magnitude(2 * whole + 1);
    let next = magnitude(whole + 1);
    vstd::arithmetic::power2::lemma2_to64();
    vstd::arithmetic::power2::lemma2_to64_rest();
    crate::binary64::short_numbers_are_representable(middle, 54);
    crate::binary64::short_numbers_are_representable(next, 55);
    let first = whole * 0x80_0000_0000_0000 + 0x40_0000_0000_0000;
    let second = (whole + 1) * 0x80_0000_0000_0000;
    assert(magnitude(first) == middle * 0x40_0000_0000_0000);
    assert(magnitude(second) == next * 0x80_0000_0000_0000);
    assert(crate::binary64::is_representable(first));
    assert(crate::binary64::is_representable(second));
    crate::binary64::rounding_keeps_representable_numbers(first);
    crate::binary64::rounding_keeps_representable_numbers(second);
}

} // verus!
