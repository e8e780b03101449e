//! Laws of clearing: which rows go, where the others end up, and what is banked.

use vstd::prelude::*;

use crate::board::row_of;
use crate::laws::counting::{lemma_passing, passing};
use crate::laws::words::{lie_side_by_side, lies_in_row, row_words_lie_side_by_side};
use crate::placement::{
    cleared_words, collapsed, full_row_words, full_rows, is_full_row, kept_rows,
    lemma_kept_rows_len,
};
use crate::words::{lemma_total_score_concat, row_words, total_score, WordModel};

verus! {

/// Whether all ten cells of a row are occupied.
pub open spec fn is_complete(board: Seq<u8>, row: int) -> bool {
    forall|col: int| 0 <= col < 10 ==> #[trigger] board[row * 10 + col] != 0
}

proof fn lemma_complete(board: Seq<u8>, row: int)
    requires
        board.len() == 220,
        0 <= row < 22,
    ensures
        is_complete(board, row) == is_full_row(board, row),
{
    let cells = row_of(board, row);
    assert forall|col: int| 0 <= col < 10 implies #[trigger] cells[col] == board[row * 10 + col] by {}
    if is_complete(board, row) {
        assert forall|i: int| 0 <= i < cells.len() implies #[trigger] cells[i] != 0 by {
            assert(board[row * 10 + i] != 0);
        }
    }
    if is_full_row(board, row) {
        assert forall|col: int| 0 <= col < 10 implies #[trigger] board[row * 10 + col] != 0 by {
            assert(cells[col] != 0);
        }
    }
}

proof fn lemma_rows_counted(board: Seq<u8>, above: int, limit: int)
    requires
        board.len() == 220,
        -1 <= above < limit <= 22,
    ensures
        passing(|row: int| above < row && is_complete(board, row), limit).len() == full_rows(
            board,
            limit,
        ) - full_rows(board, above + 1),
    decreases limit,
{
    let test = |row: int| above < row && is_complete(board, row);
    if limit > above + 1 {
        lemma_complete(board, limit - 1);
        lemma_passing(test, limit - 1);
        lemma_rows_counted(board, above, limit - 1);
    } else {
        assert(passing(test, limit) =~= Set::<int>::empty());
    }
}

/// As many lines are cleared as there are rows with ten occupied cells.
pub proof fn lines_count_the_complete_rows(board: Seq<u8>)
    requires
        board.len() == 220,
    ensures
        full_rows(board, 22) == Set::new(
            |row: int| 0 <= row < 22 && is_complete(board, row),
        ).len(),
{
    lemma_rows_counted(board, -1, 22);
    assert(passing(|row: int| -1 < row && is_complete(board, row), 22) =~= Set::new(
        |row: int| 0 <= row < 22 && is_complete(board, row),
    ));
}

proof fn lemma_kept_row(board: Seq<u8>, row: int, limit: int)
    requires
        board.len() == 220,
        0 <= row < limit <= 22,
        !is_full_row(board, row),
    ensures
        ({
            let place = row - full_rows(board, row);
            &&& 0 <= place < limit - full_rows(board, limit)
            &&& kept_rows(board, limit).len() == 10 * (limit - full_rows(board, limit))
            &&& forall|col: int|
                0 <= col < 10 ==> kept_rows(board, limit)[place * 10 + col] == #[trigger] board[row
                    * 10 + col]
        }),
    decreases limit,
{
    lemma_kept_rows_len(board, row);
    lemma_kept_rows_len(board, limit - 1);
    lemma_kept_rows_len(board, limit);
    let place = row - full_rows(board, row);
    let kept = kept_rows(board, limit);
    let before = kept_rows(board, limit - 1);
    if row < limit - 1 {
        lemma_kept_row(board, row, limit - 1);
        assert forall|col: int| 0 <= col < 10 implies kept[place * 10 + col] == #[trigger] board[row
            * 10 + col] by {
            assert(before[place * 10 + col] == board[row * 10 + col]);
        }
    } else {
        assert forall|col: int| 0 <= col < 10 implies kept[place * 10 + col] == #[trigger] board[row
            * 10 + col] by {
            assert(kept[before.len() + col] == row_of(board, row)[col]);
        }
    }
}

/// A row that stays moves down by as many rows as there are complete rows below it, and
/// keeps its cells.
pub proof fn rows_fall_by_the_complete_rows_below(board: Seq<u8>, row: int)
    requires
        board.len() == 220,
        0 <= row < 22,
        !is_complete(board, row),
    ensures
        ({
            let fall = Set::new(|below: int| row < below < 22 && is_complete(board, below)).len();
            &&& row + fall < 22
            &&& forall|col: int|
                0 <= col < 10 ==> collapsed(board)[(row + fall) * 10 + col] == #[trigger] board[row
                    * 10 + col]
        }),
{
    lemma_complete(board, row);
    lemma_kept_row(board, row, 22);
    let lines = full_rows(board, 22);
    lemma_kept_rows_len(board, 22);
    lemma_kept_rows_len(board, row);
    lemma_rows_counted(board, row, 22);
    let found = Set::new(|below: int| row < below < 22 && is_complete(board, below));
    assert(passing(|below: int| row < below && is_complete(board, below), 22) =~= found);
    let fall = found.len() as int;
    assert(fall == lines - full_rows(board, row));
    let place = row - full_rows(board, row);
    assert forall|col: int| 0 <= col < 10 implies collapsed(board)[(row + fall) * 10 + col]
        == #[trigger] board[row * 10 + col] by {
        assert((row + fall) * 10 + col == 10 * lines + (place * 10 + col));
        assert(kept_rows(board, 22)[place * 10 + col] == board[row * 10 + col]);
    }
}

/// As many rows are empty at the top as lines were cleared, and the board keeps its size.
pub proof fn cleared_lines_leave_empty_rows_at_the_top(board: Seq<u8>)
    requires
        board.len() == 220,
    ensures
        collapsed(board).len() == 220,
        forall|i: int| 0 <= i < 10 * full_rows(board, 22) ==> #[trigger] collapsed(board)[i] == 0,
{
    lemma_kept_rows_len(board, 22);
}

// ---------------------------------------------------------------------------
// What is banked
// ---------------------------------------------------------------------------

/// Where the words of each row begin among the banked words: those of a complete row
/// take as many places as there are, any other row takes none.
pub open spec fn are_starts(nodes: Seq<u32>, board: Seq<u8>, starts: Seq<int>) -> bool {
    &&& starts.len() == 23
    &&& starts[0] == 0
    &&& forall|row: int|
        0 <= row < 22 ==> #[trigger] starts[row + 1] == starts[row] + (if is_complete(board, row) {
            row_words(nodes, row_of(board, row)).len() as int
        } else {
            0
        })
}

spec fn start_of(nodes: Seq<u32>, board: Seq<u8>, row: int) -> int {
    full_row_words(nodes, board, row).len() as int
}

proof fn lemma_row_words_in_place(nodes: Seq<u32>, board: Seq<u8>, row: int, limit: int, index: int)
    requires
        board.len() == 220,
        0 <= row < limit <= 22,
        is_full_row(board, row),
        0 <= index < row_words(nodes, row_of(board, row)).len(),
    ensures
        start_of(nodes, board, row) + index < start_of(nodes, board, limit),
        full_row_words(nodes, board, limit)[start_of(nodes, board, row) + index] == row_words(
            nodes,
            row_of(board, row),
        )[index],
    decreases limit,
{
    if row < limit - 1 {
        lemma_row_words_in_place(nodes, board, row, limit - 1, index);
    }
}

/// The words of the complete rows are banked from top to bottom, row by row and each in
/// its place, as far as there are no more than twenty.
pub proof fn every_complete_row_is_banked(nodes: Seq<u32>, board: Seq<u8>)
    requires
        board.len() == 220,
    ensures
        exists|starts: Seq<int>|
            #[trigger] are_starts(nodes, board, starts) && cleared_words(nodes, board).len()
                == vstd::math::min(starts[22], 20) && forall|row: int, index: int|
                0 <= row < 22 && is_complete(board, row) && 0 <= index < row_words(
                    nodes,
                    row_of(board, row),
                ).len() && starts[row] + index < 20 ==> cleared_words(nodes, board)[starts[row]
                    + index] == #[trigger] row_words(nodes, row_of(board, row))[index],
{
    let starts = Seq::new(23, |row: int| start_of(nodes, board, row));
    assert(start_of(nodes, board, 0) == 0);
    assert forall|row: int| 0 <= row < 22 implies #[trigger] starts[row + 1] == starts[row] + (
    if is_complete(board, row) {
        row_words(nodes, row_of(board, row)).len() as int
    } else {
        0
    }) by {
        lemma_complete(board, row);
    }
    assert(are_starts(nodes, board, starts));
    let words = full_row_words(nodes, board, 22);
    assert(starts[22] == words.len());
    assert forall|row: int, index: int|
        0 <= row < 22 && is_complete(board, row) && 0 <= index < row_words(
            nodes,
            row_of(board, row),
        ).len() && starts[row] + index < 20 implies cleared_words(nodes, board)[starts[row]
        + index] == #[trigger] row_words(nodes, row_of(board, row))[index] by {
        lemma_complete(board, row);
        lemma_row_words_in_place(nodes, board, row, 22, index);
        assert(starts[row] == start_of(nodes, board, row));
        assert(cleared_words(nodes, board)[starts[row] + index] == words[starts[row] + index]);
    }
}

proof fn lemma_few_words(nodes: Seq<u32>, row: Seq<u8>, words: Seq<WordModel>, index: int)
    requires
        lie_side_by_side(nodes, row, words),
        0 <= index < words.len(),
    ensures
        words[index].end >= 2 * index + 1,
    decreases index,
{
    assert(lies_in_row(nodes, row, words[index]));
    if index > 0 {
        lemma_few_words(nodes, row, words, index - 1);
        assert(words[index - 1].end < words[index].start);
    }
}

/// A row has no more than five words.
pub proof fn a_row_has_at_most_five_words(nodes: Seq<u32>, row: Seq<u8>)
    ensures
        row_words(nodes, row).len() <= 5,
{
    let words = row_words(nodes, row);
    row_words_lie_side_by_side(nodes, row);
    if words.len() > 5 {
        lemma_few_words(nodes, row, words, 5);
        assert(lies_in_row(nodes, row, words[5]));
    }
}

/// The points made down to each row: a complete row adds what its words make, any other
/// row adds nothing.
pub open spec fn are_sums(nodes: Seq<u32>, board: Seq<u8>, sums: Seq<int>) -> bool {
    &&& sums.len() == 23
    &&& sums[0] == 0
    &&& forall|row: int|
        0 <= row < 22 ==> #[trigger] sums[row + 1] == sums[row] + (if is_complete(board, row) {
            total_score(row_words(nodes, row_of(board, row)))
        } else {
            0
        })
}

spec fn sum_down_to(nodes: Seq<u32>, board: Seq<u8>, row: int) -> int {
    total_score(full_row_words(nodes, board, row))
}

proof fn lemma_word_count(nodes: Seq<u32>, board: Seq<u8>, limit: int)
    requires
        board.len() == 220,
        0 <= limit <= 22,
    ensures
        full_row_words(nodes, board, limit).len() <= 5 * full_rows(board, limit),
    decreases limit,
{
    if limit > 0 {
        lemma_word_count(nodes, board, limit - 1);
        a_row_has_at_most_five_words(nodes, row_of(board, limit - 1));
    }
}

/// What a clearing of up to four lines scores is the sum of what each complete row makes.
pub proof fn a_clearing_scores_the_sum_of_its_rows(nodes: Seq<u32>, board: Seq<u8>)
    requires
        board.len() == 220,
        full_rows(board, 22) <= 4,
    ensures
        exists|sums: Seq<int>|
            #[trigger] are_sums(nodes, board, sums) && total_score(cleared_words(nodes, board))
                == sums[22],
{
    let sums = Seq::new(23, |row: int| sum_down_to(nodes, board, row));
    assert(sum_down_to(nodes, board, 0) == 0);
    assert forall|row: int| 0 <= row < 22 implies #[trigger] sums[row + 1] == sums[row] + (
    if is_complete(board, row) {
        total_score(row_words(nodes, row_of(board, row)))
    } else {
        0
    }) by {
        lemma_complete(board, row);
        lemma_total_score_concat(
            full_row_words(nodes, board, row),
            row_words(nodes, row_of(board, row)),
        );
    }
    assert(are_sums(nodes, board, sums));
    lemma_word_count(nodes, board, 22);
}

} // verus!
