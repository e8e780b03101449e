//! The heuristic value of a board: word potential less what makes it hard to play.

use vstd::arithmetic::power2::{lemma2_to64, lemma_pow2_adds, pow2};
use vstd::math::{abs, max, min};
use vstd::prelude::*;

use crate::binary64::{
    magnitude, round, round53, rounding_stays_within, short_numbers_are_representable,
};
use crate::board::{board_row, cells_valid, filled_count, is_valid_cell, row_of, Board};
use crate::ranking::{find_position, insert_ranked, lemma_insert_at, rank, Ranked};
use crate::words::{
    analyze_row, lemma_row_words_bounded, row_words, with_text, Text, TextList, WordList, WordModel,
};

verus! {

// ---------------------------------------------------------------------------
// The surface
// ---------------------------------------------------------------------------

/// The topmost occupied row of a column from `row` down, or 22.
pub open spec fn column_top(board: Seq<u8>, col: int, row: int) -> int
    decreases 22 - row,
{
    if row >= 22 {
        22
    } else if board[row * 10 + col] != 0 {
        row
    } else {
        column_top(board, col, row + 1)
    }
}

/// How many cells of a column above `row` are occupied.
pub open spec fn blocks_above(board: Seq<u8>, col: int, row: int) -> int
    decreases row,
{
    if row <= 0 {
        0
    } else {
        blocks_above(board, col, row - 1) + (if board[(row - 1) * 10 + col] != 0 {
            1int
        } else {
            0
        })
    }
}

/// An empty cell with an occupied cell somewhere above it.
pub open spec fn is_hole(board: Seq<u8>, col: int, row: int) -> bool {
    board[row * 10 + col] == 0 && blocks_above(board, col, row) > 0
}

/// The holes of a column above `limit`.
pub open spec fn column_holes(board: Seq<u8>, col: int, limit: int) -> int
    decreases limit,
{
    if limit <= 0 {
        0
    } else {
        column_holes(board, col, limit - 1) + (if is_hole(board, col, limit - 1) {
            1int
        } else {
            0
        })
    }
}

/// How many blocks lie above each hole of a column, taken together.
pub open spec fn column_buried(board: Seq<u8>, col: int, limit: int) -> int
    decreases limit,
{
    if limit <= 0 {
        0
    } else {
        column_buried(board, col, limit - 1) + (if is_hole(board, col, limit - 1) {
            blocks_above(board, col, limit - 1)
        } else {
            0
        })
    }
}

/// The holes of the first `cols` columns.
pub open spec fn holes(board: Seq<u8>, cols: int) -> int
    decreases cols,
{
    if cols <= 0 {
        0
    } else {
        holes(board, cols - 1) + column_holes(board, cols - 1, 22)
    }
}

/// The buried depth of the first `cols` columns.
pub open spec fn buried_depth(board: Seq<u8>, cols: int) -> int
    decreases cols,
{
    if cols <= 0 {
        0
    } else {
        buried_depth(board, cols - 1) + column_buried(board, cols - 1, 22)
    }
}

/// The height of each column.
pub open spec fn heights(board: Seq<u8>) -> Seq<int> {
    Seq::new(10, |col: int| 22 - column_top(board, col, 0))
}

/// The sum of the first `cols` heights.
pub open spec fn aggregate_height(heights: Seq<int>, cols: int) -> int
    decreases cols,
{
    if cols <= 0 {
        0
    } else {
        aggregate_height(heights, cols - 1) + heights[cols - 1]
    }
}

/// The greatest of the first `cols` heights.
pub open spec fn maximum_height(heights: Seq<int>, cols: int) -> int
    decreases cols,
{
    if cols <= 0 {
        0
    } else {
        max(maximum_height(heights, cols - 1), heights[cols - 1])
    }
}

/// How much neighbours among the first `cols` columns differ in height.
pub open spec fn bumpiness(heights: Seq<int>, cols: int) -> int
    decreases cols,
{
    if cols <= 1 {
        0
    } else {
        bumpiness(heights, cols - 1) + abs(heights[cols - 1] - heights[cols - 2])
    }
}

/// The height of a column, or of the wall beside the field.
pub open spec fn height_or_wall(heights: Seq<int>, col: int) -> int {
    if col < 0 || col >= 10 {
        22
    } else {
        heights[col]
    }
}

/// How far the first `cols` columns lie below both of their neighbours.
pub open spec fn wells(heights: Seq<int>, cols: int) -> int
    decreases cols,
{
    if cols <= 0 {
        0
    } else {
        wells(heights, cols - 1) + max(
            0,
            min(height_or_wall(heights, cols - 2), height_or_wall(heights, cols))
                - heights[cols - 1],
        )
    }
}

pub struct Surface {
    pub heights: [i32; 10],
    pub holes: i32,
    pub buried_depth: i32,
}

impl Surface {
    pub open spec fn describes(&self, board: Seq<u8>) -> bool {
        &&& forall|i: int| 0 <= i < 10 ==> #[trigger] self.heights@[i] == heights(board)[i]
        &&& forall|i: int| 0 <= i < 10 ==> 0 <= #[trigger] self.heights@[i] <= 22
        &&& self.holes == holes(board, 10)
        &&& self.buried_depth == buried_depth(board, 10)
        &&& 0 <= self.holes <= 220
        &&& 0 <= self.buried_depth <= 4840
    }
}

fn measure_surface(board: &Board) -> (surface: Surface)
    ensures
        surface.describes(board@),
{
    let mut tops: [i32; 10] = [0i32; 10];
    let mut hole_count: i32 = 0;
    let mut buried: i32 = 0;
    let mut col: usize = 0;
    while col < 10
        invariant
            col <= 10,
            forall|i: int| 0 <= i < col ==> #[trigger] tops@[i] == heights(board@)[i],
            forall|i: int| 0 <= i < col ==> 0 <= #[trigger] tops@[i] <= 22,
            hole_count == holes(board@, col as int),
            buried == buried_depth(board@, col as int),
            0 <= hole_count <= 22 * col,
            0 <= buried <= 484 * col,
        decreases 10 - col,
    {
        let mut first_filled: usize = 22;
        let mut above: i32 = 0;
        let mut row: usize = 0;
        let ghost holes_before = hole_count as int;
        let ghost buried_before = buried as int;
        while row < 22
            invariant
                col < 10,
                row <= 22,
                0 <= above <= row,
                above == blocks_above(board@, col as int, row as int),
                (first_filled == 22) == (above == 0),
                first_filled <= 22,
                first_filled == 22 ==> column_top(board@, col as int, 0) == column_top(
                    board@,
                    col as int,
                    row as int,
                ),
                first_filled != 22 ==> column_top(board@, col as int, 0) == first_filled,
                0 <= holes_before <= 22 * col,
                0 <= buried_before <= 484 * col,
                hole_count == holes_before + column_holes(board@, col as int, row as int),
                buried == buried_before + column_buried(board@, col as int, row as int),
                0 <= column_holes(board@, col as int, row as int) <= row,
                0 <= column_buried(board@, col as int, row as int) <= 22 * row,
            decreases 22 - row,
        {
            if board[row * 10 + col] != 0 {
                if first_filled == 22 {
                    first_filled = row;
                }
                above += 1;
            } else if first_filled != 22 {
                hole_count += 1;
                buried += above;
            }
            row += 1;
        }
        tops[col] = (22 - first_filled) as i32;
        col += 1;
    }
    Surface { heights: tops, holes: hole_count, buried_depth: buried }
}

// ---------------------------------------------------------------------------
// Word potential
// ---------------------------------------------------------------------------

/// What a point is worth in a row with so many occupied cells: 0.18 and 1.12
/// times the fourth power of the row's fullness, worked out in binary64.
pub const FULLNESS_FACTORS: [i128; 10] = [
    0x17_0a3d_70a3_d70a,
    0x17_0de8_f6ce_fed6,
    0x17_44f5_d356_53c9,
    0x18_3382_e44b_6e93,
    0x1a_b5c3_9bcb_a302,
    0x20_0000_0000_0000,
    0x29_9e94_ab1d_4f9c,
    0x39_75f2_cb64_16fe,
    0x51_c2a0_2320_9680,
    0x75_1937_08aa_c978,
];

/// A word that is already on the board, with what it promises.
pub ghost struct SetupModel {
    pub text: Seq<u8>,
    pub value: int,
}

pub open spec fn setup_value() -> spec_fn(SetupModel) -> int {
    |setup: SetupModel| setup.value
}

/// The promises of a row's words.
pub open spec fn word_setups(words: Seq<WordModel>, factor: int) -> Seq<SetupModel> {
    Seq::new(
        words.len(),
        |i: int| SetupModel { text: words[i].text, value: round53(words[i].score * factor) },
    )
}

/// The promises of one row: none where it is nearly empty or full.
pub open spec fn row_setups(nodes: Seq<u32>, row: Seq<u8>) -> Seq<SetupModel> {
    let filled = filled_count(row);
    if 2 <= filled <= 9 {
        word_setups(row_words(nodes, row), FULLNESS_FACTORS@[filled as int] as int)
    } else {
        Seq::empty()
    }
}

/// The promises of the first `limit` rows, top to bottom.
pub open spec fn setups(nodes: Seq<u32>, board: Seq<u8>, limit: int) -> Seq<SetupModel>
    decreases limit,
{
    if limit <= 0 {
        Seq::empty()
    } else {
        setups(nodes, board, limit - 1) + row_setups(nodes, row_of(board, limit - 1))
    }
}

/// The promises added up in order, in binary64.
pub open spec fn potential(setups: Seq<SetupModel>) -> int
    decreases setups.len(),
{
    if setups.len() == 0 {
        0
    } else {
        round53(potential(setups.drop_last()) + setups.last().value)
    }
}

/// The first four different texts.
pub open spec fn first_texts(setups: Seq<SetupModel>) -> Seq<Seq<u8>>
    decreases setups.len(),
{
    if setups.len() == 0 {
        Seq::empty()
    } else {
        with_text(first_texts(setups.drop_last()), setups.last().text)
    }
}

#[derive(Clone, Copy)]
pub struct Setup {
    pub text: Text,
    pub value: i128,
}

impl Setup {
    pub open spec fn view(&self) -> SetupModel {
        SetupModel { text: self.text@, value: self.value as int }
    }
}

impl Ranked for Setup {
    open spec fn worth(&self) -> int {
        self.value as int
    }

    fn rank_value(&self) -> (value: i128) {
        self.value
    }
}

pub open spec fn setup_views(setups: Seq<Setup>) -> Seq<SetupModel> {
    Seq::new(setups.len(), |i: int| setups[i]@)
}

proof fn lemma_factor_range(filled: int)
    requires
        0 <= filled < 10,
    ensures
        0 < FULLNESS_FACTORS@[filled] <= 0x80_0000_0000_0000,
{
}

proof fn lemma_bound_is_representable(count: nat)
    requires
        count <= 1000,
    ensures
        crate::binary64::is_representable((count * 0x20_0000_0000_0000_0000) as int),
{
    lemma2_to64();
    lemma_pow2_adds(64, 5);
    assert(pow2(69) == 0x20_0000_0000_0000_0000);
    short_numbers_are_representable(count, 69);
}

fn rank_setup(ranked: &mut Vec<Setup>, setup: Setup)
    ensures
        setup_views(final(ranked)@) == insert_ranked(
            setup_views(old(ranked)@),
            setup@,
            setup_value(),
        ),
        final(ranked).len() == old(ranked).len() + 1,
        (setup.text.wf() && forall|i: int|
            0 <= i < old(ranked).len() ==> (#[trigger] old(ranked)@[i]).text.wf()) ==> forall|
            i: int,
        |
            0 <= i < final(ranked).len() ==> (#[trigger] final(ranked)@[i]).text.wf(),
{
    let position: usize = find_position(ranked, setup.value);
    proof {
        let views = setup_views(ranked@);
        assert forall|i: int| position <= i < views.len() implies setup_value()(
            #[trigger] views[i],
        ) < setup_value()(setup@) by {
            assert(ranked@[i].worth() < setup.value);
        }
        lemma_insert_at(views, setup@, setup_value(), position as int);
    }
    ranked.insert(position, setup);
    assert(setup_views(ranked@) =~= setup_views(old(ranked)@).insert(position as int, setup@));
}

fn count_filled(cells: &[u8; 10]) -> (count: usize)
    ensures
        count == filled_count(cells@),
        count <= 10,
{
    let mut count: usize = 0;
    let mut index: usize = 0;
    while index < 10
        invariant
            index <= 10,
            count <= index,
            count == filled_count(cells@.take(index as int)),
        decreases 10 - index,
    {
        assert(cells@.take(index + 1).drop_last() =~= cells@.take(index as int));
        if cells[index] != 0 {
            count += 1;
        }
        index += 1;
    }
    assert(cells@.take(10) =~= cells@);
    count
}

pub struct WordOutlook {
    pub potential: i128,
    pub texts: TextList,
}

/// The words that a board promises: what they add up to, and the best texts.
fn measure_words(lexicon: &[u32], board: &Board) -> (outlook: WordOutlook)
    requires
        cells_valid(board@),
    ensures
        outlook.potential == potential(setups(lexicon@, board@, 22)),
        -0x1000_0000_0000_0000_0000 <= outlook.potential <= 0x1000_0000_0000_0000_0000,
        outlook.texts.wf(),
        outlook.texts@ == first_texts(rank(setups(lexicon@, board@, 22), setup_value())),
{
    let mut total: i128 = 0;
    let mut ranked: Vec<Setup> = Vec::new();
    let mut row: usize = 0;
    assert(setup_views(ranked@) =~= Seq::<SetupModel>::empty());
    while row < 22
        invariant
            cells_valid(board@),
            row <= 22,
            total == potential(setups(lexicon@, board@, row as int)),
            ranked.len() == setups(lexicon@, board@, row as int).len(),
            ranked.len() <= 5 * row,
            magnitude(total as int) <= ranked.len() * 0x20_0000_0000_0000_0000,
            forall|i: int| 0 <= i < ranked.len() ==> (#[trigger] ranked@[i]).text.wf(),
            setup_views(ranked@) == rank(setups(lexicon@, board@, row as int), setup_value()),
        decreases 22 - row,
    {
        let cells: [u8; 10] = board_row(board, row);
        assert(cells_valid(cells@)) by {
            assert forall|i: int| 0 <= i < cells@.len() implies is_valid_cell(
                #[trigger] cells@[i],
            ) by {
                assert(cells@[i] == board@[row * 10 + i]);
            }
        }
        let filled: usize = count_filled(&cells);
        let ghost done = setups(lexicon@, board@, row as int);
        if filled >= 2 && filled <= 9 {
            let words: WordList = analyze_row(lexicon, &cells);
            let factor: i128 = FULLNESS_FACTORS[filled];
            let ghost new = word_setups(words@, factor as int);
            proof {
                lemma_factor_range(filled as int);
                lemma_row_words_bounded(lexicon@, cells@);
                assert(done + new.take(0) =~= done);
            }
            let mut index: usize = 0;
            while index < words.len as usize
                invariant
                    words.wf(),
                    words.len <= 5,
                    index <= words.len,
                    row < 22,
                    0 < factor <= 0x80_0000_0000_0000,
                    new == word_setups(words@, factor as int),
                    forall|i: int|
                        0 <= i < words@.len() ==> 0 <= (#[trigger] words@[i]).score <= 10_000,
                    total == potential(done + new.take(index as int)),
                    ranked.len() == done.len() + index,
                    done.len() <= 5 * row,
                    magnitude(total as int) <= ranked.len() * 0x20_0000_0000_0000_0000,
                    forall|i: int| 0 <= i < ranked.len() ==> (#[trigger] ranked@[i]).text.wf(),
                    setup_views(ranked@) == rank(done + new.take(index as int), setup_value()),
                decreases words.len - index,
            {
                let word = words.items[index];
                assert(words@[index as int] == word@);
                assert(0 <= word.score <= 10_000);
                assert(0 <= word.score * factor <= 10_000 * 0x80_0000_0000_0000)
                    by (nonlinear_arith)
                    requires
                        0 <= word.score <= 10_000,
                        0 < factor <= 0x80_0000_0000_0000,
                ;
                let value: i128 = round(word.score as i128 * factor);
                let ghost before = done + new.take(index as int);
                let ghost after = done + new.take(index + 1);
                proof {
                    assert(after.drop_last() =~= before);
                    assert(after.last() == new[index as int]);
                    lemma_bound_is_representable(1);
                    rounding_stays_within(word.score * factor, 0x20_0000_0000_0000_0000);
                    lemma_bound_is_representable((ranked.len() + 1) as nat);
                    rounding_stays_within(
                        total + value,
                        (ranked.len() + 1) * 0x20_0000_0000_0000_0000,
                    );
                }
                total = round(total + value);
                rank_setup(&mut ranked, Setup { text: word.text, value });
                index += 1;
            }
            proof {
                assert(new.take(words.len as int) =~= new);
            }
        } else {
            assert(done + row_setups(lexicon@, row_of(board@, row as int)) =~= done);
        }
        row += 1;
    }
    let mut texts: TextList = TextList::empty();
    let mut index: usize = 0;
    let ghost views = setup_views(ranked@);
    assert(views.take(0) =~= Seq::<SetupModel>::empty());
    while index < ranked.len()
        invariant
            index <= ranked.len(),
            views == setup_views(ranked@),
            forall|i: int| 0 <= i < ranked.len() ==> (#[trigger] ranked@[i]).text.wf(),
            texts.wf(),
            texts@ == first_texts(views.take(index as int)),
        decreases ranked.len() - index,
    {
        assert(views.take(index + 1).drop_last() =~= views.take(index as int));
        assert(ranked@[index as int].text.wf());
        texts.push_unique(ranked[index].text);
        index += 1;
    }
    assert(views.take(ranked.len() as int) =~= views);
    WordOutlook { potential: total, texts }
}

// ---------------------------------------------------------------------------
// The whole board
// ---------------------------------------------------------------------------

/// What a hole costs, and so on below: weights in units.
pub const HOLE_WEIGHT: i128 = 0x8e80_0000_0000_0000;

pub const BURIED_WEIGHT: i128 = 0x1100_0000_0000_0000;

pub const AGGREGATE_WEIGHT: i128 = 0x240_0000_0000_0000;

pub const MAXIMUM_WEIGHT: i128 = 0xd9_9999_9999_9998;

pub const BUMPINESS_WEIGHT: i128 = 0x400_0000_0000_0000;

pub const WELL_WEIGHT: i128 = 0x180_0000_0000_0000;

/// Takes `amount` times `weight` off a value, in binary64.
pub open spec fn less(value: int, amount: int, weight: int) -> int {
    round53(value - round53(amount * weight))
}

/// What an evaluation says of a board.
pub ghost struct EvaluationModel {
    pub heights: Seq<int>,
    pub holes: int,
    pub buried_depth: int,
    pub aggregate_height: int,
    pub maximum_height: int,
    pub bumpiness: int,
    pub wells: int,
    pub word_potential: int,
    pub value: int,
    pub setup_words: Seq<Seq<u8>>,
}

/// The value of a board, from its parts, in units.
pub open spec fn board_value(
    word_potential: int,
    holes: int,
    buried_depth: int,
    aggregate_height: int,
    maximum_height: int,
    bumpiness: int,
    wells: int,
) -> int {
    less(
        less(
            less(
                less(
                    less(
                        less(word_potential, holes, HOLE_WEIGHT as int),
                        buried_depth,
                        BURIED_WEIGHT as int,
                    ),
                    aggregate_height,
                    AGGREGATE_WEIGHT as int,
                ),
                maximum_height * maximum_height,
                MAXIMUM_WEIGHT as int,
            ),
            bumpiness,
            BUMPINESS_WEIGHT as int,
        ),
        wells,
        WELL_WEIGHT as int,
    )
}

/// The evaluation of a board.
pub open spec fn evaluation_of(nodes: Seq<u32>, board: Seq<u8>) -> EvaluationModel {
    let tops = heights(board);
    let found = setups(nodes, board, 22);
    EvaluationModel {
        heights: tops,
        holes: holes(board, 10),
        buried_depth: buried_depth(board, 10),
        aggregate_height: aggregate_height(tops, 10),
        maximum_height: maximum_height(tops, 10),
        bumpiness: bumpiness(tops, 10),
        wells: wells(tops, 10),
        word_potential: potential(found),
        value: board_value(
            potential(found),
            holes(board, 10),
            buried_depth(board, 10),
            aggregate_height(tops, 10),
            maximum_height(tops, 10),
            bumpiness(tops, 10),
            wells(tops, 10),
        ),
        setup_words: first_texts(rank(found, setup_value())),
    }
}

#[derive(Clone, Copy)]
pub struct Evaluation {
    pub heights: [i32; 10],
    pub holes: i32,
    pub buried_depth: i32,
    pub aggregate_height: i32,
    pub maximum_height: i32,
    pub bumpiness: i32,
    pub wells: i32,
    /// In units of 2^-55.
    pub word_potential: i128,
    /// In units of 2^-55.
    pub value: i128,
    pub setup_words: TextList,
}

impl Evaluation {
    pub open spec fn view(&self) -> EvaluationModel {
        EvaluationModel {
            heights: Seq::new(10, |i: int| self.heights@[i] as int),
            holes: self.holes as int,
            buried_depth: self.buried_depth as int,
            aggregate_height: self.aggregate_height as int,
            maximum_height: self.maximum_height as int,
            bumpiness: self.bumpiness as int,
            wells: self.wells as int,
            word_potential: self.word_potential as int,
            value: self.value as int,
            setup_words: self.setup_words@,
        }
    }

    pub open spec fn wf(&self) -> bool {
        &&& self.setup_words.wf()
        &&& -0x100_0000_0000_0000_0000_0000 <= self.value <= 0x100_0000_0000_0000_0000_0000
    }
}

fn reduce(value: i128, amount: i32, weight: i128) -> (reduced: i128)
    requires
        -0x80_0000_0000_0000_0000_0000 <= value <= 0x80_0000_0000_0000_0000_0000,
        0 <= amount <= 4840,
        0 <= weight <= 0x1_0000_0000_0000_0000,
    ensures
        reduced == less(value as int, amount as int, weight as int),
        -2 * magnitude(value as int) - 0x8000_0000_0000_0000_0000 <= reduced <= 2 * magnitude(
            value as int,
        ) + 0x8000_0000_0000_0000_0000,
{
    assert(0 <= amount * weight <= 4840 * 0x1_0000_0000_0000_0000) by (nonlinear_arith)
        requires
            0 <= amount <= 4840,
            0 <= weight <= 0x1_0000_0000_0000_0000,
    ;
    round(value - round(amount as i128 * weight))
}

fn least(left: i32, right: i32) -> (least: i32)
    ensures
        least == min(left as int, right as int),
{
    if left <= right {
        left
    } else {
        right
    }
}

/// Measures a board: its surface, its holes, its words and its value.
pub fn evaluate_board(lexicon: &[u32], board: &Board) -> (evaluation: Evaluation)
    requires
        cells_valid(board@),
    ensures
        evaluation@ == evaluation_of(lexicon@, board@),
        evaluation.wf(),
{
    let surface: Surface = measure_surface(board);
    let tops: [i32; 10] = surface.heights;
    let ghost model = heights(board@);
    let mut aggregate: i32 = 0;
    let mut maximum: i32 = 0;
    let mut bumps: i32 = 0;
    let mut well_depth: i32 = 0;
    let mut col: usize = 0;
    while col < 10
        invariant
            col <= 10,
            model == heights(board@),
            forall|i: int| 0 <= i < 10 ==> #[trigger] tops@[i] == model[i],
            forall|i: int| 0 <= i < 10 ==> 0 <= #[trigger] tops@[i] <= 22,
            aggregate == aggregate_height(model, col as int),
            0 <= aggregate <= 22 * col,
            maximum == maximum_height(model, col as int),
            0 <= maximum <= 22,
            bumps == bumpiness(model, col as int),
            0 <= bumps <= 22 * col,
            well_depth == wells(model, col as int),
            0 <= well_depth <= 22 * col,
        decreases 10 - col,
    {
        let height: i32 = tops[col];
        assert(tops@[col as int] == height);
        aggregate += height;
        if height > maximum {
            maximum = height;
        }
        if col > 0 {
            let previous: i32 = tops[col - 1];
            assert(tops@[col - 1] == previous);
            if height >= previous {
                bumps += height - previous;
            } else {
                bumps += previous - height;
            }
        }
        let left: i32 = if col == 0 {
            22
        } else {
            tops[col - 1]
        };
        let right: i32 = if col + 1 == 10 {
            22
        } else {
            tops[col + 1]
        };
        assert(left == height_or_wall(model, col - 1)) by {
            if col > 0 {
                assert(tops@[col - 1] == left);
            }
        }
        assert(right == height_or_wall(model, col + 1)) by {
            if col + 1 < 10 {
                assert(tops@[col + 1] == right);
            }
        }
        let rim: i32 = least(left, right);
        if rim > height {
            well_depth += rim - height;
        }
        col += 1;
    }
    let outlook: WordOutlook = measure_words(lexicon, board);
    assert(0 <= maximum * maximum <= 484) by (nonlinear_arith)
        requires
            0 <= maximum <= 22,
    ;
    let value: i128 = reduce(
        reduce(
            reduce(
                reduce(
                    reduce(
                        reduce(outlook.potential, surface.holes, HOLE_WEIGHT),
                        surface.buried_depth,
                        BURIED_WEIGHT,
                    ),
                    aggregate,
                    AGGREGATE_WEIGHT,
                ),
                maximum * maximum,
                MAXIMUM_WEIGHT,
            ),
            bumps,
            BUMPINESS_WEIGHT,
        ),
        well_depth,
        WELL_WEIGHT,
    );
    let evaluation = Evaluation {
        heights: tops,
        holes: surface.holes,
        buried_depth: surface.buried_depth,
        aggregate_height: aggregate,
        maximum_height: maximum,
        bumpiness: bumps,
        wells: well_depth,
        word_potential: outlook.potential,
        value,
        setup_words: outlook.texts,
    };
    assert(evaluation@.heights =~= heights(board@));
    evaluation
}

// ---------------------------------------------------------------------------
// What an evaluation promises
// ---------------------------------------------------------------------------

proof fn lemma_first_texts(setups: Seq<SetupModel>)
    ensures
        first_texts(setups).len() <= 4,
        first_texts(setups).no_duplicates(),
    decreases setups.len(),
{
    if setups.len() > 0 {
        lemma_first_texts(setups.drop_last());
    }
}

/// At most four words are named for setting up, and none twice.
pub proof fn setup_words_are_few_and_distinct(nodes: Seq<u32>, board: Seq<u8>)
    ensures
        evaluation_of(nodes, board).setup_words.len() <= 4,
        evaluation_of(nodes, board).setup_words.no_duplicates(),
{
    lemma_first_texts(rank(setups(nodes, board, 22), setup_value()));
}

proof fn lemma_blocks_above_zero(board: Seq<u8>, col: int, row: int)
    requires
        0 <= row <= 22,
        row <= column_top(board, col, 0),
    ensures
        blocks_above(board, col, row) == 0,
    decreases row,
{
    if row > 0 {
        lemma_blocks_above_zero(board, col, row - 1);
        lemma_above_top_is_empty(board, col, 0, row - 1);
    }
}

proof fn lemma_above_top_is_empty(board: Seq<u8>, col: int, from: int, row: int)
    requires
        0 <= from <= row < column_top(board, col, from),
    ensures
        board[row * 10 + col] == 0,
    decreases row - from,
{
    if from < row {
        lemma_above_top_is_empty(board, col, from + 1, row);
    }
}

/// A hole lies below the top of its column.
pub proof fn holes_lie_below_the_top(board: Seq<u8>, col: int, row: int)
    requires
        0 <= row < 22,
        is_hole(board, col, row),
    ensures
        column_top(board, col, 0) < row,
{
    if row <= column_top(board, col, 0) {
        lemma_blocks_above_zero(board, col, row);
    }
}

} // verus!
