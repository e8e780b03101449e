//! Laws of what is reported: labels of positions, tried moves, measured groups, selections
//! and what a model sees.

use vstd::prelude::*;

use crate::board::{cells_valid, letter_of, piece_of};
use crate::corpus::{Delta, Target};
use crate::counterfactual::{Task, TrialOptions};
use crate::evaluation::column_top;
use crate::features::{boundary_between, is_open, seen_letter, InputMode};
use crate::fragments::RecordFeatures;
use crate::game::{MetricsModel, Phase};
use crate::laws::counting::passing;
use crate::laws::lists::letters_are_counted_once;
use crate::laws::pieces::a_piece_fits_on_empty_cells;
use crate::native::{has_room, RootCandidate, SearchOutcome, Strategy};
use crate::pieces::block_at;
use crate::pool::PoolModel;
use crate::rollout::{
    candidate_with_board, has_baseline_first, is_trial, rollout_after, CounterfactualRecord,
};
use crate::selection::{last_greatest_is_greatest, Selection, SelectionPart};
use crate::trials::{first_greatest, first_greatest_is_greatest, worths, GroupMeasure, Quantity};

verus! {

// ---------------------------------------------------------------------------
// Labels
// ---------------------------------------------------------------------------

/// Whether one gain is two others together.
pub open spec fn is_both(all: Delta, first: Delta, second: Delta) -> bool {
    &&& all.score == first.score + second.score
    &&& all.lines == first.lines + second.lines
    &&& all.words == first.words + second.words
    &&& all.word_length == first.word_length + second.word_length
}

/// What is still to go at a position is what the next four moves bring and what is to go
/// after them; the next eight moves bring what four bring and the four after them; and
/// sixteen what eight bring and the eight after them.
pub proof fn gains_follow_one_another(
    positions: Seq<MetricsModel>,
    last: MetricsModel,
    phase: Phase,
    index: int,
    here: Target,
    four_on: Target,
    eight_on: Target,
)
    requires
        0 <= index,
        index + 8 < positions.len(),
        here.labels(positions, last, phase, index),
        four_on.labels(positions, last, phase, index + 4),
        eight_on.labels(positions, last, phase, index + 8),
    ensures
        is_both(here.to_go, here.four, four_on.to_go),
        is_both(here.to_go, here.eight, eight_on.to_go),
        is_both(here.eight, here.four, four_on.four),
        is_both(here.sixteen, here.eight, eight_on.eight),
{
}

/// What is to go leads from a position's numbers to those at the end, which every
/// position of a game is labelled with, and a horizon past the end reaches to it.
pub proof fn labels_tell_the_end(
    positions: Seq<MetricsModel>,
    last: MetricsModel,
    phase: Phase,
    index: int,
    label: Target,
)
    requires
        0 <= index < positions.len(),
        label.labels(positions, last, phase, index),
    ensures
        label.terminal_score == positions[index].score + label.to_go.score,
        label.terminal_lines == positions[index].lines + label.to_go.lines,
        last.score == label.terminal_score,
        last.lines == label.terminal_lines,
        last.words == positions[index].words + label.to_go.words,
        last.total_word_length == positions[index].total_word_length + label.to_go.word_length,
        label.completed <==> phase == Phase::Complete,
        label.topped_out <==> phase == Phase::Over,
        !(label.completed && label.topped_out),
        index + 4 >= positions.len() ==> label.four == label.to_go,
        index + 8 >= positions.len() ==> label.eight == label.to_go,
        index + 16 >= positions.len() ==> label.sixteen == label.to_go,
        index + 4 < positions.len() ==> positions[index + 4].score == positions[index].score
            + label.four.score && positions[index + 4].lines == positions[index].lines
            + label.four.lines,
        index + 8 < positions.len() ==> positions[index + 8].score == positions[index].score
            + label.eight.score && positions[index + 8].words == positions[index].words
            + label.eight.words,
        index + 16 < positions.len() ==> positions[index + 16].score == positions[index].score
            + label.sixteen.score && positions[index + 16].total_word_length
            == positions[index].total_word_length + label.sixteen.word_length,
{
}

// ---------------------------------------------------------------------------
// Tried moves
// ---------------------------------------------------------------------------

/// A tried move is worth what it brings at once and what playing on from its board brings,
/// less the penalty where that tops out. Its record shows the board it leaves, the lines
/// done by then and the five pieces behind the one that was placed.
pub proof fn a_trial_tells_what_was_tried(
    record: CounterfactualRecord,
    strategy: Strategy,
    task: Task,
    options: TrialOptions,
    candidate: RootCandidate,
    rank: int,
    count: int,
)
    requires
        is_trial(record, strategy, task, options, candidate, rank, count),
        task.future.len() >= 6,
    ensures
        ({
            let lines = task.current_lines + candidate.immediate_lines;
            let later = rollout_after(
                strategy,
                task.future@,
                options,
                candidate.board@,
                if lines < 256 {
                    lines
                } else {
                    255
                },
            );
            &&& record.worth() + (if later.topped_out {
                2_500int
            } else {
                0
            }) == candidate.immediate_score + later.score
            &&& record.current_lines == lines || (lines > 255 && record.current_lines == 255)
        }),
        forall|k: int| 0 <= k < 5 ==> #[trigger] record.visible@[k] == task.future@[k + 1],
        record.board@ == candidate.board@,
        record.seed == task.seed && record.step == task.step && record.lexicon == task.lexicon,
        record.rank == rank && record.candidate_count == count,
        record.immediate_score == candidate.immediate_score,
        record.immediate_lines == candidate.immediate_lines,
        record.immediate_words == candidate.immediate_words.len(),
        record.projected_score == candidate.projected_score,
        record.projected_lines == candidate.projected_lines,
        record.heuristic_value == candidate.heuristic_value,
{
    assert forall|k: int| 0 <= k < 5 implies #[trigger] record.visible@[k] == task.future@[k
        + 1] by {
        assert(task.future@.subrange(1, 6)[k] == task.future@[k + 1]);
    }
}

/// What a position has to know ahead is enough for the search, for playing on and for
/// the six pieces of a record, and no more than one of them asks for.
pub proof fn enough_pieces_are_asked_for(options: TrialOptions)
    ensures
        options.future() >= options.search_depth,
        options.future() >= options.horizon + options.rollout_depth,
        options.future() >= 6,
        options.future() == options.search_depth || options.future() == options.horizon
            + options.rollout_depth || options.future() == 6,
{
}

// ---------------------------------------------------------------------------
// Measured groups
// ---------------------------------------------------------------------------

/// Whether a number is the greatest worth among the first moves of a group.
pub open spec fn is_best_of_first(
    records: Seq<CounterfactualRecord>,
    count: int,
    best: int,
) -> bool {
    &&& forall|i: int|
        0 <= i < count && i < records.len() ==> (#[trigger] records[i]).worth() <= best
    &&& exists|i: int|
        0 <= i < count && i < records.len() && (#[trigger] records[i]).worth() == best
}

proof fn lemma_best_of_first(records: Seq<CounterfactualRecord>, count: int)
    requires
        records.len() >= 1,
        count >= 1,
    ensures
        is_best_of_first(records, count, crate::trials::greatest_within(worths(records), count)),
{
    let values = worths(records);
    let few = vstd::math::min(count, records.len() as int);
    first_greatest_is_greatest(values, few);
    let place = first_greatest(values, few);
    assert(records[place].worth() == values[place]);
    assert forall|i: int| 0 <= i < count && i < records.len() implies (
    #[trigger] records[i]).worth() <= values[place] by {
        assert(values[i] == records[i].worth());
    }
}

/// A measured group tells the worth of its first move and of its best, the first of the
/// best where several are equal, and the best of the first one, two, four, six, eight and
/// twelve moves.
pub proof fn groups_are_measured_by_their_best(
    records: Seq<CounterfactualRecord>,
    found: GroupMeasure,
)
    requires
        records.len() >= 1,
        found.measures(records),
    ensures
        found.candidates == records.len(),
        found.lexicon == records[0].lexicon,
        found.baseline_objective == records[0].worth(),
        found.baseline_topped_out == records[0].rollout.topped_out,
        0 <= found.oracle_rank < records.len(),
        found.oracle_objective == records[found.oracle_rank as int].worth(),
        found.oracle_topped_out == records[found.oracle_rank as int].rollout.topped_out,
        found.oracle_delta == found.oracle_objective - found.baseline_objective,
        forall|i: int|
            0 <= i < records.len() ==> (#[trigger] records[i]).worth() <= found.oracle_objective,
        forall|i: int|
            0 <= i < found.oracle_rank ==> (#[trigger] records[i]).worth()
                < found.oracle_objective,
        is_best_of_first(records, 1, found.curves@[0] as int),
        is_best_of_first(records, 2, found.curves@[1] as int),
        is_best_of_first(records, 4, found.curves@[2] as int),
        is_best_of_first(records, 6, found.curves@[3] as int),
        is_best_of_first(records, 8, found.curves@[4] as int),
        is_best_of_first(records, 12, found.curves@[5] as int),
{
    let values = worths(records);
    first_greatest_is_greatest(values, records.len() as int);
    assert forall|i: int| 0 <= i < records.len() implies (#[trigger] records[i]).worth()
        <= found.oracle_objective by {
        assert(values[i] == records[i].worth());
    }
    assert forall|i: int| 0 <= i < found.oracle_rank implies (#[trigger] records[i]).worth()
        < found.oracle_objective by {
        assert(values[i] == records[i].worth());
    }
    lemma_best_of_first(records, 1);
    lemma_best_of_first(records, 2);
    lemma_best_of_first(records, 4);
    lemma_best_of_first(records, 6);
    lemma_best_of_first(records, 8);
    lemma_best_of_first(records, 12);
    assert(crate::trials::CURVE_LIMITS@[0] == 1 && crate::trials::CURVE_LIMITS@[1] == 2);
    assert(crate::trials::CURVE_LIMITS@[2] == 4 && crate::trials::CURVE_LIMITS@[3] == 6);
    assert(crate::trials::CURVE_LIMITS@[4] == 8 && crate::trials::CURVE_LIMITS@[5] == 12);
}

/// The quantities of a group agree with one another: the gain is what the best move is
/// worth more than the first, there is headroom exactly where there is a gain, which is
/// where the best move is another one, and what the first moves gain is no more than that.
pub proof fn quantities_agree(records: Seq<CounterfactualRecord>, found: GroupMeasure, point: usize)
    requires
        records.len() >= 1,
        found.measures(records),
        point < 6,
    ensures
        found.quantity(Quantity::Candidates) == records.len(),
        found.quantity(Quantity::Delta) == found.quantity(Quantity::Oracle) - found.quantity(
            Quantity::Baseline,
        ),
        found.quantity(Quantity::Baseline) == records[0].worth(),
        found.quantity(Quantity::Headroom) == 1 <==> found.quantity(Quantity::Delta) > 0,
        found.quantity(Quantity::Headroom) == found.quantity(Quantity::ChangedAction),
        found.quantity(Quantity::Headroom) == 0 || found.quantity(Quantity::Headroom) == 1,
        found.quantity(Quantity::BaselineTopOut) == 1 <==> records[0].rollout.topped_out,
        found.quantity(Quantity::BaselineTopOut) == 0 <==> !records[0].rollout.topped_out,
        found.quantity(Quantity::OracleTopOut) == 1
            <==> records[found.oracle_rank as int].rollout.topped_out,
        found.quantity(Quantity::OracleTopOut) == 0
            <==> !records[found.oracle_rank as int].rollout.topped_out,
        0 <= found.quantity(Quantity::Uplift(point)) <= found.quantity(Quantity::Delta),
        found.quantity(Quantity::Uplift(0)) == 0,
        records.len() <= 12 ==> found.quantity(Quantity::Uplift(5)) == found.quantity(
            Quantity::Delta,
        ),
{
    groups_are_measured_by_their_best(records, found);
    assert(is_best_of_first(records, 1, found.curves@[0] as int));
    assert(records[0].worth() == found.baseline_objective);
    assert(found.oracle_rank > 0 ==> records[0].worth() < found.oracle_objective);
    if point == 0 {
        assert(is_best_of_first(records, 1, found.curves@[point as int] as int));
    } else if point == 1 {
        assert(is_best_of_first(records, 2, found.curves@[point as int] as int));
    } else if point == 2 {
        assert(is_best_of_first(records, 4, found.curves@[point as int] as int));
    } else if point == 3 {
        assert(is_best_of_first(records, 6, found.curves@[point as int] as int));
    } else if point == 4 {
        assert(is_best_of_first(records, 8, found.curves@[point as int] as int));
    } else {
        assert(is_best_of_first(records, 12, found.curves@[point as int] as int));
    }
    let best = records[found.oracle_rank as int];
    assert(best.worth() == found.oracle_objective);
}

// ---------------------------------------------------------------------------
// Selections
// ---------------------------------------------------------------------------

/// The parts of a selection agree with one another: the gain is what the selected move is
/// worth more than the first, and the action has changed where another move is selected.
pub proof fn selected_parts_agree(
    selection: Selection,
    lexicon: u8,
    values: Seq<int>,
    topped_out: Seq<bool>,
    scores: Seq<u32>,
    heuristics: Seq<u32>,
)
    requires
        values.len() >= 1,
        selection.selects(lexicon, values, topped_out, scores, heuristics),
    ensures
        selection.lexicon == lexicon,
        selection.part(SelectionPart::Baseline) == values[0],
        0 <= selection.selected_rank < values.len(),
        selection.part(SelectionPart::Model) == values[selection.selected_rank as int],
        selection.part(SelectionPart::Model) == selection.part(SelectionPart::Baseline)
            + selection.part(SelectionPart::Uplift),
        selection.part(SelectionPart::TopOut) == 1
            <==> topped_out[selection.selected_rank as int],
        selection.part(SelectionPart::TopOut) == 0
            <==> !topped_out[selection.selected_rank as int],
        selection.part(SelectionPart::ChangedAction) == 0 <==> selection.selected_rank == 0,
        selection.part(SelectionPart::ChangedAction) == 1 <==> selection.selected_rank > 0,
        exists|i: int|
            0 <= i < values.len() && #[trigger] values[i] == selection.part(
                SelectionPart::Heuristic,
            ),
        exists|i: int|
            0 <= i < values.len() && #[trigger] values[i] == selection.part(SelectionPart::Oracle),
        forall|i: int|
            0 <= i < values.len() ==> #[trigger] values[i] <= selection.part(SelectionPart::Oracle),
{
    let count = values.len() as int;
    last_greatest_is_greatest(scores, count);
    last_greatest_is_greatest(heuristics, count);
    let other = crate::selection::last_greatest(heuristics, count);
    assert(values[other] == selection.part(SelectionPart::Heuristic));
    lemma_greatest_is_one(values, count);
}

proof fn lemma_greatest_is_one(values: Seq<int>, count: int)
    requires
        1 <= count <= values.len(),
    ensures
        exists|i: int|
            0 <= i < count && #[trigger] values[i] == crate::selection::greatest(values, count),
        forall|i: int|
            0 <= i < count ==> #[trigger] values[i] <= crate::selection::greatest(values, count),
    decreases count,
{
    if count > 1 {
        lemma_greatest_is_one(values, count - 1);
        let before = choose|i: int|
            0 <= i < count - 1 && #[trigger] values[i] == crate::selection::greatest(
                values,
                count - 1,
            );
        let last = values[count - 1];
        assert(crate::selection::greatest(values, count) == last || crate::selection::greatest(
            values,
            count,
        ) == values[before]);
    } else {
        assert(crate::selection::greatest(values, count) == values[0]);
    }
}

// ---------------------------------------------------------------------------
// What a model sees
// ---------------------------------------------------------------------------

proof fn lemma_open(board: Seq<u8>, col: int, from: int, row: int)
    requires
        0 <= from <= row < 22,
    ensures
        row < column_top(board, col, from) <==> forall|above: int|
            from <= above <= row ==> #[trigger] board[above * 10 + col] == 0,
    decreases row - from,
{
    if board[from * 10 + col] == 0 {
        if from < row {
            lemma_open(board, col, from + 1, row);
            if row < column_top(board, col, from) {
                assert forall|above: int| from <= above <= row implies #[trigger] board[above * 10
                    + col] == 0 by {
                    if above > from {
                        assert(from + 1 <= above <= row);
                    }
                }
            }
        } else {
            assert(row < column_top(board, col, from)) by {
                lemma_top_is_below(board, col, from + 1);
            }
        }
    }
}

proof fn lemma_top_is_below(board: Seq<u8>, col: int, from: int)
    requires
        0 <= from <= 22,
    ensures
        from <= column_top(board, col, from) <= 22,
    decreases 22 - from,
{
    if from < 22 && board[from * 10 + col] == 0 {
        lemma_top_is_below(board, col, from + 1);
    }
}

/// A cell is open exactly if it and all cells above it are empty.
pub proof fn open_cells_have_nothing_above(board: Seq<u8>, row: int, col: int)
    requires
        0 <= row < 22,
    ensures
        is_open(board, row, col) <==> forall|above: int|
            0 <= above <= row ==> #[trigger] board[above * 10 + col] == 0,
{
    lemma_open(board, col, 0, row);
}

/// Between two cells lies the same whichever comes first: nothing where one is empty,
/// one where both are of one colour group, and two else. A hidden board shows only where
/// it is occupied, and no letter is hidden where none may be.
pub proof fn neighbours_are_told_alike(left: u8, right: u8)
    ensures
        boundary_between(left, right) == boundary_between(right, left),
        boundary_between(left, right) == 0 <==> left == 0 || right == 0,
        left != 0 && right != 0 ==> (boundary_between(left, right) == 2 <==> piece_of(left)
            != piece_of(right)),
        boundary_between(left, right) <= 2,
        left != 0 ==> seen_letter(left, true) == 1,
        seen_letter(left, true) <= 1,
        seen_letter(left, false) == letter_of(left),
{
    assert(0u8 & 0x1fu8 == 0) by (bit_vector);
}

/// What a model sees of a record: the letters of the board unless they are hidden, what
/// lies between neighbours in a row, which cells are open, how often each letter comes up
/// unless that is hidden, and the five pieces.
pub proof fn features_show_the_record(features: RecordFeatures, record: Seq<u8>, mode: InputMode)
    requires
        record.len() == 272,
        features.describes(record, mode),
    ensures
        forall|row: int, col: int|
            0 <= row < 22 && 0 <= col < 9 ==> #[trigger] features.boundaries@[row * 9 + col]
                == boundary_between(record[row * 10 + col], record[row * 10 + col + 1]),
        mode == InputMode::Full || mode == InputMode::MaskFutureLetters ==> forall|i: int|
            0 <= i < 220 ==> #[trigger] features.letters@[i] == letter_of(record[i]),
        mode == InputMode::MaskBoardLetters || mode == InputMode::MaskWordInputs ==> forall|i: int|
            0 <= i < 220 ==> #[trigger] features.letters@[i] <= 1,
        mode == InputMode::MaskFutureLetters || mode == InputMode::MaskWordInputs ==> forall|
            i: int,
        |
            0 <= i < 26 ==> #[trigger] features.queue_counts@[i] == 0,
        mode == InputMode::Full || mode == InputMode::MaskBoardLetters ==> forall|i: int|
            0 <= i < 26 ==> #[trigger] features.queue_counts@[i] == passing(
                |k: int| record[221 + k / 4 * 5 + k % 4] == i + 1,
                20,
            ).len(),
        forall|i: int| 0 <= i < 5 ==> #[trigger] features.shapes@[i] == record[220 + 5 * i],
        features.lines == record[245],
        features.lexicon == record[246],
{
    assert(0u8 & 0x1fu8 == 0) by (bit_vector);
    assert forall|row: int, col: int| 0 <= row < 22 && 0 <= col < 9 implies #[trigger]
        features.boundaries@[row * 9 + col] == boundary_between(
        record[row * 10 + col],
        record[row * 10 + col + 1],
    ) by {
        let i = row * 9 + col;
        assert(i / 9 == row && i % 9 == col);
        assert(record.take(220)[row * 10 + col] == record[row * 10 + col]);
        assert(record.take(220)[row * 10 + col + 1] == record[row * 10 + col + 1]);
    }
    assert forall|i: int| 0 <= i < 220 implies #[trigger] features.letters@[i] == seen_letter(
        record[i],
        mode.hides_board(),
    ) by {
        assert(record.take(220)[i] == record[i]);
    }
    let letters = crate::fragments::visible_letters(record);
    if !mode.hides_future() {
        assert forall|i: int| 0 <= i < 26 implies #[trigger] features.queue_counts@[i] == passing(
            |k: int| record[221 + k / 4 * 5 + k % 4] == i + 1,
            20,
        ).len() by {
            letters_are_counted_once(letters, i + 1, 20);
            assert(passing(|k: int| letters[k] == i + 1, 20) =~= passing(
                |k: int| record[221 + k / 4 * 5 + k % 4] == i + 1,
                20,
            ));
        }
    }
    assert forall|i: int| 0 <= i < 5 implies #[trigger] features.shapes@[i] == record[220 + 5
        * i] by {
        assert(crate::fragments::visible_shapes(record)[i] == record[220 + i * 5]);
    }
}

// ---------------------------------------------------------------------------
// Room and pools
// ---------------------------------------------------------------------------

/// Whether a piece that has not been turned finds empty cells from the fourth column on,
/// in this row.
pub open spec fn has_room_in(board: Seq<u8>, kind: int, row: int) -> bool {
    forall|block: int|
        0 <= block < 4 ==> {
            let (x, y) = #[trigger] block_at(kind, 0, block);
            &&& 0 <= row + y < 22
            &&& 0 <= 3 + x < 10
            &&& board[(row + y) * 10 + (3 + x)] == 0
        }
}

/// A new piece has room exactly if its four cells are empty in the second row or in the
/// first.
pub proof fn new_pieces_need_empty_cells(board: Seq<u8>, kind: int)
    requires
        0 <= kind < 7,
        cells_valid(board),
    ensures
        has_room(board, kind) <==> has_room_in(board, kind, 0) || has_room_in(board, kind, 1),
{
    a_piece_fits_on_empty_cells(board, kind, 0, 0, 3);
    a_piece_fits_on_empty_cells(board, kind, 0, 1, 3);
}

/// An entry of a pool shows the board and the lines of the move that it stands for, which
/// projects what its leaf has gained.
pub proof fn pool_entries_show_their_moves(pool: PoolModel, nodes: Seq<u32>, entry: int)
    requires
        0 <= entry < pool.len(),
    ensures
        pool.len() == pool.picks.len() + 1,
        pool.board(entry) == pool.result(nodes, entry).root.board,
        pool.lines(entry) == pool.result(nodes, entry).root.lines,
        pool.state(entry).score == pool.result(nodes, entry).projected_score,
        pool.state(entry).lines == pool.result(nodes, entry).projected_lines,
        entry == 0 ==> pool.state(entry) == pool.base.states[0],
        entry > 0 ==> pool.state(entry) == pool.wide.states[pool.picks[entry - 1]],
{
}

/// With the usual move in front, the other candidates keep their order behind it, and
/// only where the list is full does one fall out, the last.
pub proof fn the_others_keep_their_order(
    before: Seq<RootCandidate>,
    baseline: SearchOutcome,
    limit: int,
    after: Seq<RootCandidate>,
)
    requires
        1 <= limit,
        before.len() <= limit,
        has_baseline_first(before, baseline, limit, after),
    ensures
        after.len() >= 1,
        after[0].board@ == baseline.board@,
        before.len() <= after.len() <= before.len() + 1,
        after.len() <= limit,
        exists|place: int|
            0 <= place <= before.len() && #[trigger] is_moved_up(before, after, place),
{
    crate::rollout::the_usual_move_comes_first(before, baseline, limit, after);
    match candidate_with_board(before, baseline.board@, 0) {
        Some(place) => {
            lemma_found(before, baseline.board@, 0);
            assert(is_moved_up(before, after, place));
        },
        None => {
            assert(is_moved_up(before, after, before.len() as int));
        },
    }
}

/// Whether the items before a place have moved up by one and those behind it have stayed.
pub open spec fn is_moved_up(
    before: Seq<RootCandidate>,
    after: Seq<RootCandidate>,
    place: int,
) -> bool {
    &&& forall|i: int|
        1 <= i <= place && i < after.len() ==> #[trigger] after[i] == before[i - 1]
    &&& forall|i: int| place < i < after.len() ==> #[trigger] after[i] == before[i]
    &&& place < before.len() ==> after.len() == before.len() && after[0] == before[place]
}

proof fn lemma_found(candidates: Seq<RootCandidate>, board: Seq<u8>, from: int)
    requires
        0 <= from,
    ensures
        candidate_with_board(candidates, board, from) matches Some(place) ==> from <= place
            < candidates.len(),
    decreases candidates.len() - from,
{
    if from < candidates.len() && candidates[from].board@ != board {
        lemma_found(candidates, board, from + 1);
    }
}

} // verus!
