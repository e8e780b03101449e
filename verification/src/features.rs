//! What the learned models see of a position.

use vstd::prelude::*;

use crate::board::{cell_letter, cell_piece, letter_of, piece_of};
use crate::evaluation::column_top;
use crate::pieces::{letters_valid, Piece};

verus! {

/// What of a position's letters a model may see.
#[derive(Clone, Copy, Debug, PartialEq, Eq, Structural)]
pub enum InputMode {
    Full,
    MaskBoardLetters,
    MaskFutureLetters,
    MaskWordInputs,
}

impl InputMode {
    pub open spec fn hides_board(self) -> bool {
        self == InputMode::MaskBoardLetters || self == InputMode::MaskWordInputs
    }

    pub open spec fn hides_future(self) -> bool {
        self == InputMode::MaskFutureLetters || self == InputMode::MaskWordInputs
    }

    pub fn masks_board_letters(self) -> (masks: bool)
        ensures
            masks == self.hides_board(),
    {
        self == InputMode::MaskBoardLetters || self == InputMode::MaskWordInputs
    }

    pub fn masks_future_letters(self) -> (masks: bool)
        ensures
            masks == self.hides_future(),
    {
        self == InputMode::MaskFutureLetters || self == InputMode::MaskWordInputs
    }
}

// ---------------------------------------------------------------------------
// Boards
// ---------------------------------------------------------------------------

/// A cell's letter as a model sees it; all letters look alike where they are hidden.
pub open spec fn seen_letter(cell: u8, hidden: bool) -> u32 {
    if hidden && cell != 0 {
        1
    } else {
        letter_of(cell) as u32
    }
}

/// What lies between two neighbouring cells: an empty cell, one colour group, or two.
pub open spec fn boundary_between(left: u8, right: u8) -> u32 {
    if left == 0 || right == 0 {
        0
    } else if piece_of(left) == piece_of(right) {
        1
    } else {
        2
    }
}

/// Whether a cell can be seen from the top of its column.
pub open spec fn is_open(board: Seq<u8>, row: int, col: int) -> bool {
    board[row * 10 + col] == 0 && row < column_top(board, col, 0)
}

/// The letters of a board, cell by cell.
pub fn seen_letters(board: &[u8], hidden: bool) -> (letters: Vec<u32>)
    requires
        board.len() == 220,
    ensures
        letters@ == Seq::new(220, |i: int| seen_letter(board@[i], hidden)),
{
    let mut letters: Vec<u32> = Vec::new();
    let mut index: usize = 0;
    while index < 220
        invariant
            index <= 220,
            board.len() == 220,
            letters.len() == index,
            forall|i: int|
                0 <= i < index ==> #[trigger] letters@[i] == seen_letter(board@[i], hidden),
        decreases 220 - index,
    {
        let cell: u8 = board[index];
        letters.push(
            if hidden && cell != 0 {
                1
            } else {
                cell_letter(cell) as u32
            },
        );
        index += 1;
    }
    assert(letters@ =~= Seq::new(220, |i: int| seen_letter(board@[i], hidden)));
    letters
}

/// The boundaries of a board: nine for each row.
pub fn boundaries(board: &[u8]) -> (found: Vec<u32>)
    requires
        board.len() == 220,
    ensures
        found@ == Seq::new(
            198,
            |i: int| boundary_between(board@[i / 9 * 10 + i % 9], board@[i / 9 * 10 + i % 9 + 1]),
        ),
{
    let mut found: Vec<u32> = Vec::new();
    let mut index: usize = 0;
    while index < 198
        invariant
            index <= 198,
            board.len() == 220,
            found.len() == index,
            forall|i: int|
                0 <= i < index ==> #[trigger] found@[i] == boundary_between(
                    board@[i / 9 * 10 + i % 9],
                    board@[i / 9 * 10 + i % 9 + 1],
                ),
        decreases 198 - index,
    {
        let place: usize = index / 9 * 10 + index % 9;
        let left: u8 = board[place];
        let right: u8 = board[place + 1];
        let boundary: u32 = if left == 0 || right == 0 {
            0
        } else if cell_piece(left) == cell_piece(right) {
            1
        } else {
            2
        };
        found.push(boundary);
        index += 1;
    }
    assert(found@ =~= Seq::new(
        198,
        |i: int| boundary_between(board@[i / 9 * 10 + i % 9], board@[i / 9 * 10 + i % 9 + 1]),
    ));
    found
}

/// The topmost occupied row of a column, or 22.
pub fn first_filled(board: &[u8], col: usize) -> (top: usize)
    requires
        board.len() == 220,
        col < 10,
    ensures
        top == column_top(board@, col as int, 0),
        top <= 22,
{
    let mut row: usize = 0;
    while row < 22 && board[row * 10 + col] == 0
        invariant
            row <= 22,
            col < 10,
            board.len() == 220,
            column_top(board@, col as int, 0) == column_top(board@, col as int, row as int),
        decreases 22 - row,
    {
        row += 1;
    }
    row
}

/// Which cells of a board can be seen from above, cell by cell.
pub fn open_cells(board: &[u8]) -> (open: Vec<bool>)
    requires
        board.len() == 220,
    ensures
        open@ == Seq::new(220, |i: int| is_open(board@, i / 10, i % 10)),
{
    let mut tops: [usize; 10] = [22usize; 10];
    let mut col: usize = 0;
    while col < 10
        invariant
            col <= 10,
            board.len() == 220,
            forall|c: int| 0 <= c < col ==> #[trigger] tops@[c] == column_top(board@, c, 0),
        decreases 10 - col,
    {
        tops[col] = first_filled(board, col);
        col += 1;
    }
    let mut open: Vec<bool> = Vec::new();
    let mut index: usize = 0;
    while index < 220
        invariant
            index <= 220,
            board.len() == 220,
            forall|c: int| 0 <= c < 10 ==> #[trigger] tops@[c] == column_top(board@, c, 0),
            open.len() == index,
            forall|i: int|
                0 <= i < index ==> #[trigger] open@[i] == is_open(board@, i / 10, i % 10),
        decreases 220 - index,
    {
        let row: usize = index / 10;
        let top: usize = tops[index % 10];
        assert(tops@[index as int % 10] == top);
        open.push(board[index] == 0 && row < top);
        index += 1;
    }
    assert(open@ =~= Seq::new(220, |i: int| is_open(board@, i / 10, i % 10)));
    open
}

/// Every cell that can be seen from above is empty.
pub proof fn open_cells_are_empty(board: Seq<u8>, row: int, col: int)
    requires
        is_open(board, row, col),
    ensures
        board[row * 10 + col] == 0,
        seen_letter(board[row * 10 + col], false) == 0,
{
    assert(0u8 & 0x1fu8 == 0) by (bit_vector);
}

// ---------------------------------------------------------------------------
// Pieces
// ---------------------------------------------------------------------------

/// How often a letter occurs among the first `count` letters.
pub open spec fn times(letters: Seq<u8>, letter: int, count: int) -> int
    decreases count,
{
    if count <= 0 {
        0
    } else {
        times(letters, letter, count - 1) + (if letters[count - 1] == letter {
            1int
        } else {
            0
        })
    }
}

/// The letters of the first `count` pieces, one after the other.
pub open spec fn piece_letters(pieces: Seq<Piece>, count: int) -> Seq<u8>
    decreases count,
{
    if count <= 0 {
        Seq::empty()
    } else {
        piece_letters(pieces, count - 1) + pieces[count - 1].letters@
    }
}

/// Counts each letter, A first.
pub fn count_letters(letters: &Vec<u8>) -> (counts: [u8; 26])
    requires
        letters.len() <= 255,
        letters_valid(letters@),
    ensures
        forall|i: int|
            0 <= i < 26 ==> #[trigger] counts@[i] == times(letters@, i + 1, letters.len() as int),
{
    let mut counts: [u8; 26] = [0u8; 26];
    let mut index: usize = 0;
    while index < letters.len()
        invariant
            index <= letters.len() <= 255,
            letters_valid(letters@),
            forall|i: int|
                0 <= i < 26 ==> #[trigger] counts@[i] == times(letters@, i + 1, index as int),
            forall|i: int| 0 <= i < 26 ==> #[trigger] counts@[i] <= index,
        decreases letters.len() - index,
    {
        assert(1 <= letters@[index as int] <= 26);
        let place: usize = letters[index] as usize - 1;
        assert(counts@[place as int] <= index);
        counts[place] = counts[place] + 1;
        index += 1;
    }
    counts
}

/// Counts the letters of the next pieces, as far as a model looks ahead; none
/// where they are hidden.
pub fn queue_counts(pieces: &[Piece], hidden: bool) -> (counts: [u8; 26])
    requires
        forall|i: int| 0 <= i < pieces.len() ==> (#[trigger] pieces@[i]).valid(),
    ensures
        ({
            let ahead = vstd::math::min(pieces.len() as int, 5);
            let letters = piece_letters(pieces@, ahead);
            forall|i: int|
                0 <= i < 26 ==> #[trigger] counts@[i] == (if hidden {
                    0
                } else {
                    times(letters, i + 1, letters.len() as int)
                })
        }),
{
    if hidden {
        return [0u8; 26];
    }
    let ahead: usize = if pieces.len() < 5 {
        pieces.len()
    } else {
        5
    };
    let mut letters: Vec<u8> = Vec::new();
    let mut index: usize = 0;
    while index < ahead
        invariant
            index <= ahead <= 5,
            ahead <= pieces.len(),
            forall|i: int| 0 <= i < pieces.len() ==> (#[trigger] pieces@[i]).valid(),
            letters@ == piece_letters(pieces@, index as int),
            letters.len() == 4 * index,
            letters_valid(letters@),
        decreases ahead - index,
    {
        let piece: Piece = pieces[index];
        assert(pieces@[index as int].valid());
        let ghost before = letters@;
        letters.push(piece.letters[0]);
        letters.push(piece.letters[1]);
        letters.push(piece.letters[2]);
        letters.push(piece.letters[3]);
        proof {
            assert(letters@ =~= before + piece.letters@);
            assert forall|i: int| 0 <= i < letters@.len() implies 1 <= #[trigger] letters@[i]
                <= 26 by {
                if i < before.len() {
                    assert(1 <= before[i] <= 26);
                } else {
                    assert(1 <= piece.letters@[i - before.len()] <= 26);
                }
            }
        }
        index += 1;
    }
    count_letters(&letters)
}

} // verus!
