//! Laws of placements: where a piece comes to rest, what it leaves on the board, and
//! which placements there are.

use vstd::prelude::*;

use crate::board::{letter_of, packed_cell_reads_back, piece_of};
use crate::laws::pieces::{is_tried, spell_alike, tried_shifts_spell_everything_once};
use crate::pieces::{
    block_at, blocks_are_distinct, cycle, is_colliding, letters_valid, new_shifts, Piece,
};
use crate::placement::{
    a_dropped_piece_rests, all_placements, can_enter, cleared_words, collapsed, full_rows,
    landing_row, left_edge, lemma_inside, placement_at, placements_across, placements_cycled,
    placements_turned, right_edge, settled, top_edge, with_blocks, PlacementModel,
};
use crate::words::total_score;

verus! {

// ---------------------------------------------------------------------------
// Falling
// ---------------------------------------------------------------------------

/// The cell on which a block of a piece lies.
pub open spec fn cell_under(kind: int, rotation: int, row: int, col: int, block: int) -> int {
    (row + block_at(kind, rotation, block).1) * 10 + (col + block_at(kind, rotation, block).0)
}

/// Whether a piece that enters in `start` falls freely to `row` and no further.
pub open spec fn falls_to(
    board: Seq<u8>,
    kind: int,
    rotation: int,
    start: int,
    row: int,
    col: int,
) -> bool {
    &&& start <= row
    &&& forall|r: int| start <= r <= row ==> !#[trigger] is_colliding(board, kind, rotation, r, col)
    &&& is_colliding(board, kind, rotation, row + 1, col)
}

/// Whether a piece whose corner is in `start` touches the top of the field from inside.
pub open spec fn touches_the_top(kind: int, rotation: int, start: int) -> bool {
    &&& forall|block: int| 0 <= block < 4 ==> start + (#[trigger] block_at(kind, rotation, block)).1
        >= 0
    &&& exists|block: int|
        0 <= block < 4 && start + (#[trigger] block_at(kind, rotation, block)).1 == 0
}

proof fn lemma_falls(board: Seq<u8>, kind: int, rotation: int, start: int, col: int)
    requires
        !is_colliding(board, kind, rotation, start, col),
        0 <= kind < 7,
        0 <= rotation,
    ensures
        falls_to(
            board,
            kind,
            rotation,
            start,
            landing_row(board, kind, rotation, start, col),
            col,
        ),
    decreases 22 - start,
{
    lemma_inside(board, kind, rotation, start, col, 0);
    a_dropped_piece_rests(board, kind, rotation, start, col);
    if !is_colliding(board, kind, rotation, start + 1, col) {
        lemma_falls(board, kind, rotation, start + 1, col);
    }
}

proof fn lemma_top(kind: int, rotation: int)
    requires
        0 <= kind < 7,
        0 <= rotation,
    ensures
        touches_the_top(kind, rotation, -top_edge(kind, rotation)),
{
    let start = -top_edge(kind, rotation);
    assert forall|block: int| 0 <= block < 4 implies start + (#[trigger] block_at(
        kind,
        rotation,
        block,
    )).1 >= 0 by {
        assert(block == 0 || block == 1 || block == 2 || block == 3);
    }
    assert(start + block_at(kind, rotation, 0).1 == 0 || start + block_at(kind, rotation, 1).1 == 0
        || start + block_at(kind, rotation, 2).1 == 0 || start + block_at(kind, rotation, 3).1
        == 0);
}

// ---------------------------------------------------------------------------
// Settling
// ---------------------------------------------------------------------------

/// Whether a board is another with a piece put on it: its four cells carry the letters
/// moved on by `shift` and the piece's colour group, and all other cells are as before.
pub open spec fn shows_piece(
    before: Seq<u8>,
    after: Seq<u8>,
    piece: Piece,
    shift: int,
    rotation: int,
    row: int,
    col: int,
) -> bool {
    &&& after.len() == before.len()
    &&& forall|block: int|
        0 <= block < 4 ==> {
            let cell = #[trigger] cell_under(piece.kind as int, rotation, row, col, block);
            &&& 0 <= cell < before.len()
            &&& before[cell] == 0
            &&& letter_of(after[cell]) == piece.letters@[(block + shift) % 4]
            &&& piece_of(after[cell]) == piece.kind + 1
        }
    &&& forall|cell: int|
        0 <= cell < before.len() && (forall|block: int|
            0 <= block < 4 ==> cell != #[trigger] cell_under(
                piece.kind as int,
                rotation,
                row,
                col,
                block,
            )) ==> #[trigger] after[cell] == before[cell]
}

proof fn lemma_blocks_laid(
    board: Seq<u8>,
    kind: u8,
    rotation: int,
    row: int,
    col: int,
    letters: Seq<u8>,
    count: int,
)
    requires
        board.len() == 220,
        kind < 7,
        0 <= rotation,
        letters.len() == 4,
        letters_valid(letters),
        !is_colliding(board, kind as int, rotation, row, col),
        0 <= count <= 4,
    ensures
        ({
            let after = with_blocks(board, kind, rotation, row, col, letters, count);
            &&& after.len() == 220
            &&& forall|block: int|
                0 <= block < count ==> {
                    let cell = #[trigger] cell_under(kind as int, rotation, row, col, block);
                    letter_of(after[cell]) == letters[block] && piece_of(after[cell]) == kind + 1
                }
            &&& forall|cell: int|
                0 <= cell < 220 && (forall|block: int|
                    0 <= block < count ==> cell != #[trigger] cell_under(
                        kind as int,
                        rotation,
                        row,
                        col,
                        block,
                    )) ==> #[trigger] after[cell] == board[cell]
        }),
    decreases count,
{
    if count > 0 {
        lemma_blocks_laid(board, kind, rotation, row, col, letters, count - 1);
        let before = with_blocks(board, kind, rotation, row, col, letters, count - 1);
        let after = with_blocks(board, kind, rotation, row, col, letters, count);
        let new = cell_under(kind as int, rotation, row, col, count - 1);
        packed_cell_reads_back(letters[count - 1], kind);
        lemma_inside(board, kind as int, rotation, row, col, count - 1);
        assert(after == before.update(
            new,
            crate::board::pack_cell(letters[count - 1], kind),
        ));
        assert forall|block: int| 0 <= block < count implies {
            let cell = #[trigger] cell_under(kind as int, rotation, row, col, block);
            letter_of(after[cell]) == letters[block] && piece_of(after[cell]) == kind + 1
        } by {
            if block < count - 1 {
                blocks_are_distinct(kind as int, rotation, block, count - 1);
                lemma_inside(board, kind as int, rotation, row, col, block);
                assert(cell_under(kind as int, rotation, row, col, block) != new);
            }
        }
        assert forall|cell: int|
            0 <= cell < 220 && (forall|block: int|
                0 <= block < count ==> cell != #[trigger] cell_under(
                    kind as int,
                    rotation,
                    row,
                    col,
                    block,
                )) implies #[trigger] after[cell] == board[cell] by {
            assert(cell != new);
            assert(after[cell] == before[cell]);
        }
    }
}

/// What a placement of a piece in a column is: the piece falls from the top of the field
/// until it rests, the board shows it there, and then complete rows are cleared and
/// their words banked.
pub open spec fn is_rest_of(
    nodes: Seq<u32>,
    board: Seq<u8>,
    piece: Piece,
    placement: PlacementModel,
) -> bool {
    exists|start: int, placed: Seq<u8>|
        {
            &&& touches_the_top(piece.kind as int, placement.rotation, start)
            &&& #[trigger] falls_to(
                board,
                piece.kind as int,
                placement.rotation,
                start,
                placement.row,
                placement.col,
            )
            &&& #[trigger] shows_piece(
                board,
                placed,
                piece,
                placement.letter_shift,
                placement.rotation,
                placement.row,
                placement.col,
            )
            &&& placement.board == collapsed(placed)
            &&& placement.lines == full_rows(placed, 22)
            &&& placement.words == cleared_words(nodes, placed)
            &&& placement.score == total_score(placement.words)
        }
}

proof fn lemma_rest(
    nodes: Seq<u32>,
    board: Seq<u8>,
    piece: Piece,
    shift: int,
    rotation: int,
    col: int,
)
    requires
        board.len() == 220,
        piece.valid(),
        0 <= shift,
        0 <= rotation,
        can_enter(board, piece.kind as int, rotation, col),
    ensures
        is_rest_of(nodes, board, piece, placement_at(nodes, board, piece, shift, rotation, col)),
{
    let kind = piece.kind as int;
    let placement = placement_at(nodes, board, piece, shift, rotation, col);
    let start = -top_edge(kind, rotation);
    let placed = settled(board, piece, shift, rotation, col);
    let letters = cycle(piece.letters@, shift);
    lemma_top(kind, rotation);
    lemma_falls(board, kind, rotation, start, col);
    let row = placement.row;
    assert(!is_colliding(board, kind, rotation, row, col));
    assert forall|i: int| 0 <= i < 4 implies 1 <= #[trigger] letters[i] <= 26 by {
        assert(letters[i] == piece.letters@[(i + shift) % 4]);
    }
    lemma_blocks_laid(board, piece.kind, rotation, row, col, letters, 4);
    assert forall|block: int| 0 <= block < 4 implies {
        let cell = #[trigger] cell_under(kind, rotation, row, col, block);
        &&& 0 <= cell < board.len()
        &&& board[cell] == 0
        &&& letter_of(placed[cell]) == piece.letters@[(block + shift) % 4]
        &&& piece_of(placed[cell]) == piece.kind + 1
    } by {
        lemma_inside(board, kind, rotation, row, col, block);
        assert(letters[block] == piece.letters@[(block + shift) % 4]);
    }
    assert(shows_piece(
        board,
        placed,
        piece,
        placement.letter_shift,
        placement.rotation,
        placement.row,
        placement.col,
    ));
    assert(falls_to(
        board,
        piece.kind as int,
        placement.rotation,
        start,
        placement.row,
        placement.col,
    ));
    assert(touches_the_top(piece.kind as int, placement.rotation, start));
}

// ---------------------------------------------------------------------------
// Every placement
// ---------------------------------------------------------------------------

/// Whether one placement is told before another: by letter shift, then by rotation, then
/// from left to right.
pub open spec fn is_before(left: PlacementModel, right: PlacementModel) -> bool {
    ||| left.letter_shift < right.letter_shift
    ||| left.letter_shift == right.letter_shift && left.rotation < right.rotation
    ||| left.letter_shift == right.letter_shift && left.rotation == right.rotation && left.col
        < right.col
}

/// Whether a list holds a placement with this shift, rotation and column.
pub open spec fn holds_place(
    placements: Seq<PlacementModel>,
    shift: int,
    rotation: int,
    col: int,
) -> bool {
    exists|i: int|
        0 <= i < placements.len() && (#[trigger] placements[i]).letter_shift == shift
            && placements[i].rotation == rotation && placements[i].col == col
}

spec fn stands(
    nodes: Seq<u32>,
    board: Seq<u8>,
    piece: Piece,
    placement: PlacementModel,
) -> bool {
    &&& placement == placement_at(
        nodes,
        board,
        piece,
        placement.letter_shift,
        placement.rotation,
        placement.col,
    )
    &&& can_enter(board, piece.kind as int, placement.rotation, placement.col)
    &&& 0 <= placement.rotation
}

proof fn lemma_held_before(
    fewer: Seq<PlacementModel>,
    more: Seq<PlacementModel>,
    shift: int,
    rotation: int,
    col: int,
)
    requires
        holds_place(fewer, shift, rotation, col),
    ensures
        holds_place(fewer + more, shift, rotation, col),
        holds_place(more + fewer, shift, rotation, col),
{
    let i = choose|i: int|
        0 <= i < fewer.len() && (#[trigger] fewer[i]).letter_shift == shift && fewer[i].rotation
            == rotation && fewer[i].col == col;
    assert((fewer + more)[i] == fewer[i]);
    assert((more + fewer)[more.len() + i] == fewer[i]);
}

proof fn lemma_across(
    nodes: Seq<u32>,
    board: Seq<u8>,
    piece: Piece,
    shift: int,
    rotation: int,
    limit: int,
)
    requires
        0 <= rotation,
    ensures
        ({
            let found = placements_across(nodes, board, piece, shift, rotation, limit);
            &&& forall|i: int|
                0 <= i < found.len() ==> stands(nodes, board, piece, #[trigger] found[i])
                    && found[i].letter_shift == shift && found[i].rotation == rotation
                    && found[i].col < limit
            &&& forall|i: int, j: int| 0 <= i < j < found.len() ==> is_before(found[i], found[j])
            &&& forall|col: int|
                -left_edge(piece.kind as int, rotation) <= col < limit && can_enter(
                    board,
                    piece.kind as int,
                    rotation,
                    col,
                ) ==> #[trigger] holds_place(found, shift, rotation, col)
        }),
    decreases limit + left_edge(piece.kind as int, rotation),
{
    let found = placements_across(nodes, board, piece, shift, rotation, limit);
    if limit > -left_edge(piece.kind as int, rotation) {
        lemma_across(nodes, board, piece, shift, rotation, limit - 1);
        let before = placements_across(nodes, board, piece, shift, rotation, limit - 1);
        let new = placement_at(nodes, board, piece, shift, rotation, limit - 1);
        let entered = can_enter(board, piece.kind as int, rotation, limit - 1);
        if entered {
            assert(found =~= before + seq![new]);
        }
        assert forall|col: int|
            -left_edge(piece.kind as int, rotation) <= col < limit && can_enter(
                board,
                piece.kind as int,
                rotation,
                col,
            ) implies #[trigger] holds_place(found, shift, rotation, col) by {
            if col == limit - 1 {
                assert(found[before.len() as int] == new);
            } else {
                assert(holds_place(before, shift, rotation, col));
                if entered {
                    lemma_held_before(before, seq![new], shift, rotation, col);
                }
            }
        }
        assert forall|i: int| 0 <= i < found.len() implies stands(
            nodes,
            board,
            piece,
            #[trigger] found[i],
        ) && found[i].letter_shift == shift && found[i].rotation == rotation && found[i].col
            < limit by {
            if i < before.len() {
                assert(found[i] == before[i]);
            } else {
                assert(found[i] == new);
            }
        }
        assert forall|i: int, j: int| 0 <= i < j < found.len() implies is_before(
            found[i],
            found[j],
        ) by {
            assert(found[i] == before[i]);
            if j < before.len() {
                assert(found[j] == before[j]);
            } else {
                assert(found[j] == new);
            }
        }
    }
}

/// A piece can enter only between the edges of the field.
proof fn lemma_columns(board: Seq<u8>, kind: int, rotation: int, row: int, col: int)
    requires
        0 <= kind < 7,
        0 <= rotation,
        !is_colliding(board, kind, rotation, row, col),
    ensures
        -left_edge(kind, rotation) <= col < 10 - right_edge(kind, rotation),
{
    lemma_inside(board, kind, rotation, row, col, 0);
    lemma_inside(board, kind, rotation, row, col, 1);
    lemma_inside(board, kind, rotation, row, col, 2);
    lemma_inside(board, kind, rotation, row, col, 3);
}

proof fn lemma_turned(nodes: Seq<u32>, board: Seq<u8>, piece: Piece, shift: int, limit: int)
    requires
        piece.valid(),
    ensures
        ({
            let found = placements_turned(nodes, board, piece, shift, limit);
            &&& forall|i: int|
                0 <= i < found.len() ==> stands(nodes, board, piece, #[trigger] found[i])
                    && found[i].letter_shift == shift && found[i].rotation < limit
            &&& forall|i: int, j: int| 0 <= i < j < found.len() ==> is_before(found[i], found[j])
            &&& forall|rotation: int, col: int|
                0 <= rotation < limit && can_enter(board, piece.kind as int, rotation, col)
                    ==> #[trigger] holds_place(found, shift, rotation, col)
        }),
    decreases limit,
{
    let found = placements_turned(nodes, board, piece, shift, limit);
    if limit > 0 {
        lemma_turned(nodes, board, piece, shift, limit - 1);
        let before = placements_turned(nodes, board, piece, shift, limit - 1);
        let columns = 10 - right_edge(piece.kind as int, limit - 1);
        lemma_across(nodes, board, piece, shift, limit - 1, columns);
        let new = placements_across(nodes, board, piece, shift, limit - 1, columns);
        assert(found == before + new);
        assert forall|rotation: int, col: int|
            0 <= rotation < limit && can_enter(
                board,
                piece.kind as int,
                rotation,
                col,
            ) implies #[trigger] holds_place(found, shift, rotation, col) by {
            if rotation == limit - 1 {
                lemma_columns(
                    board,
                    piece.kind as int,
                    rotation,
                    -top_edge(piece.kind as int, rotation),
                    col,
                );
                assert(holds_place(new, shift, rotation, col));
                lemma_held_before(new, before, shift, rotation, col);
            } else {
                assert(holds_place(before, shift, rotation, col));
                lemma_held_before(before, new, shift, rotation, col);
            }
        }
        lemma_joined(nodes, board, piece, before, new);
        assert forall|i: int| 0 <= i < found.len() implies stands(
            nodes,
            board,
            piece,
            #[trigger] found[i],
        ) && found[i].letter_shift == shift && found[i].rotation < limit by {
            if i < before.len() {
                assert(found[i] == before[i]);
            } else {
                assert(found[i] == new[i - before.len()]);
            }
        }
    }
}

proof fn lemma_joined(
    nodes: Seq<u32>,
    board: Seq<u8>,
    piece: Piece,
    left: Seq<PlacementModel>,
    right: Seq<PlacementModel>,
)
    requires
        forall|i: int, j: int| 0 <= i < j < left.len() ==> is_before(left[i], left[j]),
        forall|i: int, j: int| 0 <= i < j < right.len() ==> is_before(right[i], right[j]),
        forall|i: int, j: int|
            0 <= i < left.len() && 0 <= j < right.len() ==> is_before(left[i], right[j]),
    ensures
        forall|i: int, j: int|
            0 <= i < j < (left + right).len() ==> is_before((left + right)[i], (left + right)[j]),
{
    let both = left + right;
    assert forall|i: int, j: int| 0 <= i < j < both.len() implies is_before(both[i], both[j]) by {
        if j < left.len() {
            assert(both[i] == left[i] && both[j] == left[j]);
        } else if i < left.len() {
            assert(both[i] == left[i] && both[j] == right[j - left.len()]);
        } else {
            assert(both[i] == right[i - left.len()] && both[j] == right[j - left.len()]);
        }
    }
}

proof fn lemma_cycled(nodes: Seq<u32>, board: Seq<u8>, piece: Piece, count: int)
    requires
        piece.valid(),
        0 <= count <= new_shifts(piece.letters@, 4).len(),
    ensures
        ({
            let shifts = new_shifts(piece.letters@, 4);
            let found = placements_cycled(nodes, board, piece, count);
            &&& forall|i: int|
                0 <= i < found.len() ==> stands(nodes, board, piece, #[trigger] found[i])
                    && found[i].rotation < 4 && 0 <= found[i].letter_shift && (count > 0
                    && found[i].letter_shift <= shifts[count - 1]) && found[i].letter_shift < 4
            &&& forall|i: int, j: int| 0 <= i < j < found.len() ==> is_before(found[i], found[j])
            &&& forall|k: int, rotation: int, col: int|
                0 <= k < count && 0 <= rotation < 4 && can_enter(
                    board,
                    piece.kind as int,
                    rotation,
                    col,
                ) ==> #[trigger] holds_place(found, shifts[k], rotation, col)
        }),
    decreases count,
{
    let shifts = new_shifts(piece.letters@, 4);
    let found = placements_cycled(nodes, board, piece, count);
    tried_shifts_spell_everything_once(piece.letters@, 4);
    if count > 0 {
        lemma_cycled(nodes, board, piece, count - 1);
        let before = placements_cycled(nodes, board, piece, count - 1);
        let shift = shifts[count - 1];
        lemma_turned(nodes, board, piece, shift, 4);
        let new = placements_turned(nodes, board, piece, shift, 4);
        assert(found == before + new);
        assert forall|i: int, j: int|
            0 <= i < before.len() && 0 <= j < new.len() implies is_before(before[i], new[j]) by {
            assert(before[i].letter_shift <= shifts[count - 2]);
            assert(shifts[count - 2] < shifts[count - 1]);
        }
        lemma_joined(nodes, board, piece, before, new);
        assert forall|k: int, rotation: int, col: int|
            0 <= k < count && 0 <= rotation < 4 && can_enter(
                board,
                piece.kind as int,
                rotation,
                col,
            ) implies #[trigger] holds_place(found, shifts[k], rotation, col) by {
            if k == count - 1 {
                assert(holds_place(new, shift, rotation, col));
                lemma_held_before(new, before, shift, rotation, col);
            } else {
                assert(holds_place(before, shifts[k], rotation, col));
                lemma_held_before(before, new, shifts[k], rotation, col);
            }
        }
        assert forall|i: int| 0 <= i < found.len() implies stands(
            nodes,
            board,
            piece,
            #[trigger] found[i],
        ) && found[i].rotation < 4 && 0 <= found[i].letter_shift && found[i].letter_shift
            <= shifts[count - 1] && found[i].letter_shift < 4 by {
            if i < before.len() {
                assert(found[i] == before[i]);
                assert(shifts[count - 2] < shifts[count - 1]);
            } else {
                assert(found[i] == new[i - before.len()]);
            }
        }
    }
}

/// Every placement is a rest of the piece, in one of four rotations and with its letters
/// moved on by less than four.
pub proof fn every_placement_is_a_rest(
    nodes: Seq<u32>,
    board: Seq<u8>,
    piece: Piece,
    index: int,
)
    requires
        board.len() == 220,
        piece.valid(),
        0 <= index < all_placements(nodes, board, piece).len(),
    ensures
        ({
            let placement = all_placements(nodes, board, piece)[index];
            &&& 0 <= placement.rotation < 4
            &&& 0 <= placement.letter_shift < 4
            &&& is_rest_of(nodes, board, piece, placement)
        }),
{
    let count = new_shifts(piece.letters@, 4).len() as int;
    lemma_cycled(nodes, board, piece, count);
    let placement = all_placements(nodes, board, piece)[index];
    assert(stands(nodes, board, piece, placement));
    lemma_rest(
        nodes,
        board,
        piece,
        placement.letter_shift,
        placement.rotation,
        placement.col,
    );
}

/// Placements are told in order: by letter shift, by rotation, and from left to right;
/// so none is told twice.
pub proof fn placements_are_told_in_order(
    nodes: Seq<u32>,
    board: Seq<u8>,
    piece: Piece,
    left: int,
    right: int,
)
    requires
        piece.valid(),
        0 <= left < right < all_placements(nodes, board, piece).len(),
    ensures
        is_before(
            all_placements(nodes, board, piece)[left],
            all_placements(nodes, board, piece)[right],
        ),
{
    lemma_cycled(nodes, board, piece, new_shifts(piece.letters@, 4).len() as int);
}

/// Wherever a piece can enter at the top of the field, in any rotation and with its
/// letters moved on by any shift, there is a placement with that rotation, that column
/// and letters that spell alike.
pub proof fn no_placement_is_missed(
    nodes: Seq<u32>,
    board: Seq<u8>,
    piece: Piece,
    shift: int,
    rotation: int,
    start: int,
    col: int,
)
    requires
        piece.valid(),
        0 <= shift < 4,
        0 <= rotation < 4,
        touches_the_top(piece.kind as int, rotation, start),
        !is_colliding(board, piece.kind as int, rotation, start, col),
    ensures
        exists|i: int|
            0 <= i < all_placements(nodes, board, piece).len() && (#[trigger] all_placements(
                nodes,
                board,
                piece,
            )[i]).rotation == rotation && all_placements(nodes, board, piece)[i].col == col
                && spell_alike(
                piece.letters@,
                all_placements(nodes, board, piece)[i].letter_shift,
                shift,
            ),
{
    let kind = piece.kind as int;
    let shifts = new_shifts(piece.letters@, 4);
    let found = all_placements(nodes, board, piece);
    lemma_top(kind, rotation);
    assert(start == -top_edge(kind, rotation)) by {
        let block = choose|block: int|
            0 <= block < 4 && start + (#[trigger] block_at(kind, rotation, block)).1 == 0;
        let other = choose|block: int|
            0 <= block < 4 && -top_edge(kind, rotation) + (#[trigger] block_at(
                kind,
                rotation,
                block,
            )).1 == 0;
        assert(start + block_at(kind, rotation, other).1 >= 0);
        assert(-top_edge(kind, rotation) + block_at(kind, rotation, block).1 >= 0);
    }
    tried_shifts_spell_everything_once(piece.letters@, 4);
    assert(is_tried(piece.letters@, shifts, shift));
    let k = choose|k: int|
        0 <= k < shifts.len() && #[trigger] shifts[k] <= shift && spell_alike(
            piece.letters@,
            shifts[k],
            shift,
        );
    lemma_cycled(nodes, board, piece, shifts.len() as int);
    assert(can_enter(board, kind, rotation, col));
    assert(holds_place(found, shifts[k], rotation, col));
    let i = choose|i: int|
        0 <= i < found.len() && (#[trigger] found[i]).letter_shift == shifts[k]
            && found[i].rotation == rotation && found[i].col == col;
    assert(found[i].rotation == rotation);
}

} // verus!
