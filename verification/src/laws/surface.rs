//! Laws of the surface of a board: what an evaluation measures, told cell by cell.

use vstd::math::abs;
use vstd::prelude::*;

use crate::evaluation::{
    aggregate_height, blocks_above, bumpiness, buried_depth, column_buried, column_holes,
    column_top, evaluation_of, height_or_wall, heights, holes, is_hole, maximum_height, wells,
};
use crate::laws::counting::{lemma_interval, lemma_passing, lemma_sections, passing, sections};

verus! {

// ---------------------------------------------------------------------------
// Heights
// ---------------------------------------------------------------------------

proof fn lemma_column_top(board: Seq<u8>, col: int, from: int)
    requires
        0 <= from <= 22,
    ensures
        from <= column_top(board, col, from) <= 22,
        forall|row: int|
            from <= row < column_top(board, col, from) ==> #[trigger] board[row * 10 + col] == 0,
        column_top(board, col, from) < 22 ==> board[column_top(board, col, from) * 10 + col] != 0,
    decreases 22 - from,
{
    if from < 22 && board[from * 10 + col] == 0 {
        lemma_column_top(board, col, from + 1);
    }
}

/// A column is as high as its topmost occupied cell; an empty column has no height.
pub proof fn heights_reach_to_the_topmost_cell(nodes: Seq<u32>, board: Seq<u8>, col: int)
    requires
        0 <= col < 10,
    ensures
        evaluation_of(nodes, board).heights.len() == 10,
        ({
            let height = evaluation_of(nodes, board).heights[col];
            &&& 0 <= height <= 22
            &&& height > 0 ==> board[(22 - height) * 10 + col] != 0
            &&& forall|row: int| 0 <= row < 22 - height ==> #[trigger] board[row * 10 + col] == 0
        }),
{
    lemma_column_top(board, col, 0);
}

/// The greatest height is the height of some column, and none is higher.
pub proof fn the_maximum_is_a_height(nodes: Seq<u32>, board: Seq<u8>)
    ensures
        forall|col: int|
            0 <= col < 10 ==> #[trigger] evaluation_of(nodes, board).heights[col] <= evaluation_of(
                nodes,
                board,
            ).maximum_height,
        exists|col: int|
            0 <= col < 10 && #[trigger] evaluation_of(nodes, board).heights[col] == evaluation_of(
                nodes,
                board,
            ).maximum_height,
{
    let tops = heights(board);
    assert forall|col: int| 0 <= col < 10 implies 0 <= #[trigger] tops[col] by {
        lemma_column_top(board, col, 0);
    }
    lemma_maximum(tops, 10);
    let evaluation = evaluation_of(nodes, board);
    assert(evaluation.heights == tops);
    let col = choose|col: int| 0 <= col < 10 && #[trigger] tops[col] == maximum_height(tops, 10);
    assert(evaluation.heights[col] == evaluation.maximum_height);
}

proof fn lemma_maximum(tops: Seq<int>, cols: int)
    requires
        0 <= cols,
        forall|col: int| 0 <= col < cols ==> 0 <= #[trigger] tops[col],
    ensures
        maximum_height(tops, cols) >= 0,
        forall|col: int| 0 <= col < cols ==> #[trigger] tops[col] <= maximum_height(tops, cols),
        cols > 0 ==> exists|col: int|
            0 <= col < cols && #[trigger] tops[col] == maximum_height(tops, cols),
    decreases cols,
{
    if cols > 0 {
        lemma_maximum(tops, cols - 1);
        if maximum_height(tops, cols) != tops[cols - 1] {
            if cols == 1 {
                assert(tops[0] >= 0);
            }
            let col = choose|col: int|
                0 <= col < cols - 1 && #[trigger] tops[col] == maximum_height(tops, cols - 1);
            assert(tops[col] == maximum_height(tops, cols));
        } else {
            assert(tops[cols - 1] == maximum_height(tops, cols));
        }
    }
}

/// The levels between two heights.
spec fn levels(low: int, high: int) -> Set<int> {
    passing(|level: int| low <= level < high, 22)
}

proof fn lemma_levels(low: int, high: int)
    requires
        0 <= low,
        high <= 22,
    ensures
        levels(low, high).finite(),
        levels(low, high).len() == (if low < high {
            high - low
        } else {
            0
        }),
{
    lemma_interval(low, high, 22);
    lemma_passing(|level: int| low <= level < high, 22);
}

proof fn lemma_aggregate(tops: Seq<int>, cols: int)
    requires
        0 <= cols <= 10,
        forall|col: int| 0 <= col < 10 ==> 0 <= #[trigger] tops[col] <= 22,
    ensures
        sections(|col: int| levels(0, tops[col]), cols).len() == aggregate_height(tops, cols),
    decreases cols,
{
    let inside = |col: int| levels(0, tops[col]);
    assert forall|col: int| 0 <= col < 10 implies (#[trigger] inside(col)).finite() by {
        lemma_passing(|level: int| 0 <= level < tops[col], 22);
    }
    if cols > 0 {
        lemma_aggregate(tops, cols - 1);
        lemma_sections(inside, cols - 1);
        lemma_levels(0, tops[cols - 1]);
    } else {
        lemma_sections(inside, 0);
    }
}

/// The heights taken together: as many as there are levels below the top of a column.
pub proof fn aggregate_height_counts_the_levels(nodes: Seq<u32>, board: Seq<u8>)
    ensures
        ({
            let evaluation = evaluation_of(nodes, board);
            evaluation.aggregate_height == Set::new(
                |at: (int, int)|
                    0 <= at.0 < 10 && 0 <= at.1 < 22 && at.1 < evaluation.heights[at.0],
            ).len()
        }),
{
    let tops = heights(board);
    assert forall|col: int| 0 <= col < 10 implies 0 <= #[trigger] tops[col] <= 22 by {
        lemma_column_top(board, col, 0);
    }
    lemma_aggregate(tops, 10);
    assert(sections(|col: int| levels(0, tops[col]), 10) =~= Set::new(
        |at: (int, int)| 0 <= at.0 < 10 && 0 <= at.1 < 22 && at.1 < tops[at.0],
    ));
}

// ---------------------------------------------------------------------------
// Bumpiness
// ---------------------------------------------------------------------------

proof fn lemma_bumpiness_between(tops: Seq<int>, left: int, right: int)
    requires
        0 <= left <= right < tops.len(),
    ensures
        bumpiness(tops, right + 1) - bumpiness(tops, left + 1) >= abs(tops[right] - tops[left]),
        bumpiness(tops, left + 1) >= 0,
    decreases right + left,
{
    if left < right {
        lemma_bumpiness_between(tops, left, right - 1);
    } else if left > 0 {
        lemma_bumpiness_between(tops, left - 1, left - 1);
    }
}

/// Bumpiness is no less than the difference between any two heights.
pub proof fn bumpiness_is_no_less_than_a_difference(
    nodes: Seq<u32>,
    board: Seq<u8>,
    left: int,
    right: int,
)
    requires
        0 <= left < 10,
        0 <= right < 10,
    ensures
        evaluation_of(nodes, board).bumpiness >= abs(
            evaluation_of(nodes, board).heights[right] - evaluation_of(nodes, board).heights[left],
        ),
{
    let tops = heights(board);
    let (low, high) = if left <= right {
        (left, right)
    } else {
        (right, left)
    };
    lemma_bumpiness_between(tops, low, high);
    lemma_bumpiness_between(tops, high, 9);
}

proof fn lemma_flat(tops: Seq<int>, cols: int)
    requires
        cols <= tops.len(),
        forall|i: int, j: int| 0 <= i < cols && 0 <= j < cols ==> tops[i] == tops[j],
    ensures
        bumpiness(tops, cols) == 0,
    decreases cols,
{
    if cols > 1 {
        lemma_flat(tops, cols - 1);
        assert(tops[cols - 1] == tops[cols - 2]);
    }
}

/// A surface has no bumpiness if and only if all ten heights are equal.
pub proof fn only_a_flat_surface_has_no_bumpiness(nodes: Seq<u32>, board: Seq<u8>)
    ensures
        evaluation_of(nodes, board).bumpiness == 0 <==> forall|i: int, j: int|
            0 <= i < 10 && 0 <= j < 10 ==> evaluation_of(nodes, board).heights[i]
                == evaluation_of(nodes, board).heights[j],
{
    let tops = heights(board);
    let evaluation = evaluation_of(nodes, board);
    assert(evaluation.heights == tops);
    if evaluation.bumpiness == 0 {
        assert forall|i: int, j: int| 0 <= i < 10 && 0 <= j < 10 implies tops[i] == tops[j] by {
            bumpiness_is_no_less_than_a_difference(nodes, board, i, j);
        }
    } else if forall|i: int, j: int|
        0 <= i < 10 && 0 <= j < 10 ==> evaluation.heights[i] == evaluation.heights[j] {
        lemma_flat(evaluation.heights, 10);
    }
}

/// The levels at which one of two heights ends.
spec fn step(left: int, right: int) -> Set<int> {
    passing(|level: int| (level < left) != (level < right), 22)
}

proof fn lemma_step(left: int, right: int)
    requires
        0 <= left <= 22,
        0 <= right <= 22,
    ensures
        step(left, right).finite(),
        step(left, right).len() == abs(right - left),
{
    lemma_passing(|level: int| (level < left) != (level < right), 22);
    if left <= right {
        lemma_levels(left, right);
        assert(step(left, right) =~= levels(left, right));
    } else {
        lemma_levels(right, left);
        assert(step(left, right) =~= levels(right, left));
    }
}

proof fn lemma_bumpiness_steps(tops: Seq<int>, cols: int)
    requires
        0 <= cols < 10,
        forall|col: int| 0 <= col < 10 ==> 0 <= #[trigger] tops[col] <= 22,
    ensures
        sections(|col: int| step(tops[col], tops[col + 1]), cols).len() == bumpiness(
            tops,
            cols + 1,
        ),
    decreases cols,
{
    let inside = |col: int| step(tops[col], tops[col + 1]);
    assert forall|col: int| 0 <= col < 10 implies (#[trigger] inside(col)).finite() by {
        lemma_passing(|level: int| (level < tops[col]) != (level < tops[col + 1]), 22);
    }
    if cols > 0 {
        lemma_bumpiness_steps(tops, cols - 1);
        lemma_sections(inside, cols - 1);
        lemma_step(tops[cols - 1], tops[cols]);
    } else {
        lemma_sections(inside, 0);
    }
}

/// Bumpiness counts the levels at which a column and the next one on its right differ:
/// one of them reaches above the level, the other does not.
pub proof fn bumpiness_counts_the_steps(nodes: Seq<u32>, board: Seq<u8>)
    ensures
        ({
            let evaluation = evaluation_of(nodes, board);
            evaluation.bumpiness == Set::new(
                |at: (int, int)|
                    0 <= at.0 < 9 && 0 <= at.1 < 22 && (at.1 < evaluation.heights[at.0]) != (at.1
                        < evaluation.heights[at.0 + 1]),
            ).len()
        }),
{
    let tops = heights(board);
    assert forall|col: int| 0 <= col < 10 implies 0 <= #[trigger] tops[col] <= 22 by {
        lemma_column_top(board, col, 0);
    }
    lemma_bumpiness_steps(tops, 9);
    assert(sections(|col: int| step(tops[col], tops[col + 1]), 9) =~= Set::new(
        |at: (int, int)|
            0 <= at.0 < 9 && 0 <= at.1 < 22 && (at.1 < tops[at.0]) != (at.1 < tops[at.0 + 1]),
    ));
}

// ---------------------------------------------------------------------------
// Wells
// ---------------------------------------------------------------------------

/// The levels above a column that are below both of its neighbours.
spec fn well_levels(tops: Seq<int>, col: int) -> Set<int> {
    passing(
        |level: int|
            tops[col] <= level && (col == 0 || level < tops[col - 1]) && (col == 9 || level
                < tops[col + 1]),
        22,
    )
}

proof fn lemma_well(tops: Seq<int>, col: int)
    requires
        0 <= col < 10,
        forall|col: int| 0 <= col < 10 ==> 0 <= #[trigger] tops[col] <= 22,
    ensures
        well_levels(tops, col).finite(),
        well_levels(tops, col).len() == vstd::math::max(
            0,
            vstd::math::min(height_or_wall(tops, col - 1), height_or_wall(tops, col + 1))
                - tops[col],
        ),
{
    lemma_passing(
        |level: int|
            tops[col] <= level && (col == 0 || level < tops[col - 1]) && (col == 9 || level
                < tops[col + 1]),
        22,
    );
    let rim = vstd::math::min(height_or_wall(tops, col - 1), height_or_wall(tops, col + 1));
    assert(0 <= tops[col] <= 22);
    if col > 0 {
        assert(0 <= tops[col - 1] <= 22);
    }
    if col < 9 {
        assert(0 <= tops[col + 1] <= 22);
    }
    lemma_levels(tops[col], rim);
    assert(well_levels(tops, col) =~= levels(tops[col], rim));
}

proof fn lemma_wells(tops: Seq<int>, cols: int)
    requires
        0 <= cols <= 10,
        forall|col: int| 0 <= col < 10 ==> 0 <= #[trigger] tops[col] <= 22,
    ensures
        sections(|col: int| well_levels(tops, col), cols).len() == wells(tops, cols),
    decreases cols,
{
    let inside = |col: int| well_levels(tops, col);
    assert forall|col: int| 0 <= col < 10 implies (#[trigger] inside(col)).finite() by {
        lemma_well(tops, col);
    }
    if cols > 0 {
        lemma_wells(tops, cols - 1);
        lemma_sections(inside, cols - 1);
        lemma_well(tops, cols - 1);
    } else {
        lemma_sections(inside, 0);
    }
}

/// Wells count the levels above a column that lie below the tops of both neighbours;
/// beside the field stands a wall as high as the field.
pub proof fn wells_count_the_levels_between_neighbours(nodes: Seq<u32>, board: Seq<u8>)
    ensures
        ({
            let evaluation = evaluation_of(nodes, board);
            let tops = evaluation.heights;
            evaluation.wells == Set::new(
                |at: (int, int)|
                    0 <= at.0 < 10 && 0 <= at.1 < 22 && tops[at.0] <= at.1 && (at.0 == 0 || at.1
                        < tops[at.0 - 1]) && (at.0 == 9 || at.1 < tops[at.0 + 1]),
            ).len()
        }),
{
    let tops = heights(board);
    assert forall|col: int| 0 <= col < 10 implies 0 <= #[trigger] tops[col] <= 22 by {
        lemma_column_top(board, col, 0);
    }
    lemma_wells(tops, 10);
    assert(sections(|col: int| well_levels(tops, col), 10) =~= Set::new(
        |at: (int, int)|
            0 <= at.0 < 10 && 0 <= at.1 < 22 && tops[at.0] <= at.1 && (at.0 == 0 || at.1
                < tops[at.0 - 1]) && (at.0 == 9 || at.1 < tops[at.0 + 1]),
    ));
}

// ---------------------------------------------------------------------------
// Holes
// ---------------------------------------------------------------------------

/// The rows above `row` in which a column is occupied.
spec fn blocks(board: Seq<u8>, col: int, row: int) -> Set<int> {
    passing(|above: int| board[above * 10 + col] != 0, row)
}

proof fn lemma_blocks(board: Seq<u8>, col: int, row: int)
    requires
        0 <= row,
    ensures
        blocks(board, col, row).finite(),
        blocks(board, col, row).len() == blocks_above(board, col, row),
    decreases row,
{
    let test = |above: int| board[above * 10 + col] != 0;
    lemma_passing(test, row);
    if row > 0 {
        lemma_passing(test, row - 1);
        lemma_blocks(board, col, row - 1);
    }
}

proof fn lemma_hole(board: Seq<u8>, col: int, row: int)
    requires
        0 <= row,
    ensures
        is_hole(board, col, row) <==> board[row * 10 + col] == 0 && exists|above: int|
            0 <= above < row && #[trigger] board[above * 10 + col] != 0,
{
    lemma_blocks(board, col, row);
    let found = blocks(board, col, row);
    if found.len() > 0 {
        let above = found.choose();
        assert(found.contains(above)) by {
            vstd::set_lib::axiom_is_empty_len0(found);
            vstd::set_lib::axiom_is_empty(found);
        }
        assert(board[above * 10 + col] != 0);
    }
    if exists|above: int| 0 <= above < row && #[trigger] board[above * 10 + col] != 0 {
        let above = choose|above: int| 0 <= above < row && #[trigger] board[above * 10 + col] != 0;
        assert(found.contains(above));
        if found.len() == 0 {
            vstd::set_lib::axiom_is_empty_len0(found);
            assert(found =~= Set::<int>::empty());
        }
    }
}

/// The rows of a column that are holes.
spec fn hole_rows(board: Seq<u8>, col: int, limit: int) -> Set<int> {
    passing(|row: int| is_hole(board, col, row), limit)
}

proof fn lemma_hole_rows(board: Seq<u8>, col: int, limit: int)
    requires
        0 <= limit,
    ensures
        hole_rows(board, col, limit).finite(),
        hole_rows(board, col, limit).len() == column_holes(board, col, limit),
    decreases limit,
{
    let test = |row: int| is_hole(board, col, row);
    lemma_passing(test, limit);
    if limit > 0 {
        lemma_passing(test, limit - 1);
        lemma_hole_rows(board, col, limit - 1);
    }
}

proof fn lemma_holes(board: Seq<u8>, cols: int)
    requires
        0 <= cols,
    ensures
        sections(|col: int| hole_rows(board, col, 22), cols).len() == holes(board, cols),
    decreases cols,
{
    let inside = |col: int| hole_rows(board, col, 22);
    assert forall|col: int| (#[trigger] inside(col)).finite() by {
        lemma_hole_rows(board, col, 22);
    }
    if cols > 0 {
        lemma_holes(board, cols - 1);
        lemma_sections(inside, cols - 1);
        lemma_hole_rows(board, cols - 1, 22);
    } else {
        lemma_sections(inside, 0);
    }
}

/// Holes are the empty cells with an occupied cell anywhere above them in their column.
pub proof fn holes_are_the_covered_empty_cells(nodes: Seq<u32>, board: Seq<u8>)
    ensures
        evaluation_of(nodes, board).holes == Set::new(
            |at: (int, int)|
                0 <= at.0 < 10 && 0 <= at.1 < 22 && board[at.1 * 10 + at.0] == 0 && exists|
                    above: int,
                |
                    0 <= above < at.1 && #[trigger] board[above * 10 + at.0] != 0,
        ).len(),
{
    lemma_holes(board, 10);
    let found = sections(|col: int| hole_rows(board, col, 22), 10);
    let wanted = Set::new(
        |at: (int, int)|
            0 <= at.0 < 10 && 0 <= at.1 < 22 && board[at.1 * 10 + at.0] == 0 && exists|above: int|
                0 <= above < at.1 && #[trigger] board[above * 10 + at.0] != 0,
    );
    assert forall|at: (int, int)| found.contains(at) == wanted.contains(at) by {
        if 0 <= at.1 {
            lemma_hole(board, at.0, at.1);
        }
    }
    assert(found =~= wanted);
}

/// The occupied cells above each empty cell of a column, as pairs of rows.
spec fn buried_pairs(board: Seq<u8>, col: int, limit: int) -> Set<(int, int)> {
    sections(
        |row: int|
            if board[row * 10 + col] == 0 {
                blocks(board, col, row)
            } else {
                Set::empty()
            },
        limit,
    )
}

proof fn lemma_buried_pairs(board: Seq<u8>, col: int, limit: int)
    requires
        0 <= limit,
    ensures
        buried_pairs(board, col, limit).finite(),
        buried_pairs(board, col, limit).len() == column_buried(board, col, limit),
    decreases limit,
{
    let inside = |row: int|
        if board[row * 10 + col] == 0 {
            blocks(board, col, row)
        } else {
            Set::empty()
        };
    assert forall|row: int| 0 <= row implies (#[trigger] inside(row)).finite() by {
        lemma_blocks(board, col, row);
    }
    lemma_sections(inside, limit);
    if limit > 0 {
        lemma_buried_pairs(board, col, limit - 1);
        lemma_sections(inside, limit - 1);
        lemma_blocks(board, col, limit - 1);
    }
}

proof fn lemma_buried(board: Seq<u8>, cols: int)
    requires
        0 <= cols,
    ensures
        sections(|col: int| buried_pairs(board, col, 22), cols).len() == buried_depth(board, cols),
    decreases cols,
{
    let inside = |col: int| buried_pairs(board, col, 22);
    assert forall|col: int| (#[trigger] inside(col)).finite() by {
        lemma_buried_pairs(board, col, 22);
    }
    if cols > 0 {
        lemma_buried(board, cols - 1);
        lemma_sections(inside, cols - 1);
        lemma_buried_pairs(board, cols - 1, 22);
    } else {
        lemma_sections(inside, 0);
    }
}

/// The buried depth counts the pairs of an empty cell and an occupied cell above it in
/// the same column.
pub proof fn buried_depth_counts_the_cells_above_holes(nodes: Seq<u32>, board: Seq<u8>)
    ensures
        evaluation_of(nodes, board).buried_depth == Set::new(
            |at: (int, (int, int))|
                0 <= at.0 < 10 && 0 <= at.1.1 < at.1.0 < 22 && board[at.1.0 * 10 + at.0] == 0
                    && board[at.1.1 * 10 + at.0] != 0,
        ).len(),
{
    lemma_buried(board, 10);
    assert(sections(|col: int| buried_pairs(board, col, 22), 10) =~= Set::new(
        |at: (int, (int, int))|
            0 <= at.0 < 10 && 0 <= at.1.1 < at.1.0 < 22 && board[at.1.0 * 10 + at.0] == 0
                && board[at.1.1 * 10 + at.0] != 0,
    ));
}

// ---------------------------------------------------------------------------
// Mirrors
// ---------------------------------------------------------------------------

/// Whether one board is the other with left and right exchanged.
pub open spec fn are_mirrored(left: Seq<u8>, right: Seq<u8>) -> bool {
    forall|row: int, col: int|
        0 <= row < 22 && 0 <= col < 10 ==> #[trigger] left[row * 10 + col] == right[row * 10 + (9
            - col)]
}

proof fn lemma_mirrored_column(left: Seq<u8>, right: Seq<u8>, col: int, row: int)
    requires
        are_mirrored(left, right),
        0 <= col < 10,
        0 <= row <= 22,
    ensures
        column_top(left, col, row) == column_top(right, 9 - col, row),
    decreases 22 - row,
{
    if row < 22 {
        assert(left[row * 10 + col] == right[row * 10 + (9 - col)]);
        lemma_mirrored_column(left, right, col, row + 1);
    }
}

proof fn lemma_mirrored_counts(left: Seq<u8>, right: Seq<u8>, col: int, row: int)
    requires
        are_mirrored(left, right),
        0 <= col < 10,
        0 <= row <= 22,
    ensures
        blocks_above(left, col, row) == blocks_above(right, 9 - col, row),
        column_holes(left, col, row) == column_holes(right, 9 - col, row),
        column_buried(left, col, row) == column_buried(right, 9 - col, row),
    decreases row,
{
    if row > 0 {
        assert(left[(row - 1) * 10 + col] == right[(row - 1) * 10 + (9 - col)]);
        lemma_mirrored_counts(left, right, col, row - 1);
    }
}

proof fn lemma_maximum_within(tops: Seq<int>, cols: int, bound: int)
    requires
        0 <= bound,
        forall|col: int| 0 <= col < cols ==> #[trigger] tops[col] <= bound,
    ensures
        0 <= maximum_height(tops, cols) <= bound,
    decreases cols,
{
    if cols > 0 {
        lemma_maximum_within(tops, cols - 1, bound);
        assert(tops[cols - 1] <= bound);
    }
}

proof fn lemma_maximum_bounds(tops: Seq<int>, cols: int)
    ensures
        maximum_height(tops, cols) >= 0,
        forall|col: int| 0 <= col < cols ==> #[trigger] tops[col] <= maximum_height(tops, cols),
    decreases cols,
{
    if cols > 0 {
        lemma_maximum_bounds(tops, cols - 1);
    }
}

proof fn lemma_mirrored_sums(tops: Seq<int>, others: Seq<int>, cols: int)
    requires
        forall|col: int| 0 <= col < 10 ==> #[trigger] tops[col] == others[9 - col],
        0 <= cols <= 10,
    ensures
        aggregate_height(tops, cols) == aggregate_height(others, 10) - aggregate_height(
            others,
            10 - cols,
        ),
        cols >= 1 ==> bumpiness(tops, cols) == bumpiness(others, 10) - bumpiness(
            others,
            11 - cols,
        ),
        wells(tops, cols) == wells(others, 10) - wells(others, 10 - cols),
    decreases cols,
{
    if cols > 0 {
        lemma_mirrored_sums(tops, others, cols - 1);
        let col = cols - 1;
        assert(tops[col] == others[9 - col]);
        if col > 0 {
            assert(tops[col - 1] == others[9 - (col - 1)]);
        }
        if col < 9 {
            assert(tops[col + 1] == others[9 - (col + 1)]);
        }
        assert(height_or_wall(tops, col - 1) == height_or_wall(others, 10 - col));
        assert(height_or_wall(tops, col + 1) == height_or_wall(others, 8 - col));
    }
}

proof fn lemma_mirrored_heights(tops: Seq<int>, others: Seq<int>)
    requires
        forall|col: int| 0 <= col < 10 ==> #[trigger] tops[col] == others[9 - col],
    ensures
        aggregate_height(tops, 10) == aggregate_height(others, 10),
        maximum_height(tops, 10) == maximum_height(others, 10),
        bumpiness(tops, 10) == bumpiness(others, 10),
        wells(tops, 10) == wells(others, 10),
{
    lemma_mirrored_sums(tops, others, 10);
    lemma_maximum_bounds(tops, 10);
    lemma_maximum_bounds(others, 10);
    assert forall|col: int| 0 <= col < 10 implies #[trigger] others[col] <= maximum_height(
        tops,
        10,
    ) by {
        assert(tops[9 - col] == others[9 - (9 - col)]);
    }
    lemma_maximum_within(tops, 10, maximum_height(others, 10));
    lemma_maximum_within(others, 10, maximum_height(tops, 10));
}

/// Exchanging left and right mirrors the heights and changes none of the numbers that
/// are measured on the surface.
pub proof fn a_mirrored_board_measures_the_same(
    nodes: Seq<u32>,
    left: Seq<u8>,
    right: Seq<u8>,
    col: int,
)
    requires
        are_mirrored(left, right),
        0 <= col < 10,
    ensures
        ({
            let one = evaluation_of(nodes, left);
            let other = evaluation_of(nodes, right);
            &&& one.heights[col] == other.heights[9 - col]
            &&& one.holes == other.holes
            &&& one.buried_depth == other.buried_depth
            &&& one.aggregate_height == other.aggregate_height
            &&& one.maximum_height == other.maximum_height
            &&& one.bumpiness == other.bumpiness
            &&& one.wells == other.wells
        }),
{
    let tops = heights(left);
    let others = heights(right);
    assert forall|col: int| 0 <= col < 10 implies #[trigger] tops[col] == others[9 - col] by {
        lemma_mirrored_column(left, right, col, 0);
    }
    lemma_mirrored_heights(tops, others);
    assert forall|col: int| 0 <= col < 10 implies #[trigger] column_holes(left, col, 22)
        == column_holes(right, 9 - col, 22) && column_buried(left, col, 22) == column_buried(
        right,
        9 - col,
        22,
    ) by {
        lemma_mirrored_counts(left, right, col, 22);
    }
    assert forall|col: int| 0 <= col < 10 implies #[trigger] column_buried(left, col, 22)
        == column_buried(right, 9 - col, 22) by {
        lemma_mirrored_counts(left, right, col, 22);
    }
    assert(holes(left, 10) == holes(right, 10)) by {
        reveal_with_fuel(holes, 11);
    }
    assert(buried_depth(left, 10) == buried_depth(right, 10)) by {
        reveal_with_fuel(buried_depth, 11);
    }
}

} // verus!
