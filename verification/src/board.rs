//! The packed playing field: ten columns, twenty-two rows, one byte per cell.
//!
//! Bits 0-4 of a cell hold its letter (A-Z as 1-26), bits 5-7 the tetromino
//! colour group (1-7). An empty cell is zero.

use vstd::prelude::*;

verus! {

pub const BOARD_WIDTH: usize = 10;

pub const BOARD_HEIGHT: usize = 22;

pub const BOARD_CELLS: usize = 220;

/// A game ends once this many lines have been cleared.
pub const MAX_LINES: u16 = 40;

pub type Board = [u8; BOARD_CELLS];

pub open spec fn letter_of(cell: u8) -> u8 {
    cell & 0x1f
}

pub open spec fn piece_of(cell: u8) -> u8 {
    cell >> 5
}

/// An empty cell, or one that carries a letter and a colour group.
pub open spec fn is_valid_cell(cell: u8) -> bool {
    cell == 0 || (1 <= letter_of(cell) <= 26 && 1 <= piece_of(cell) <= 7)
}

pub open spec fn cells_valid(cells: Seq<u8>) -> bool {
    forall|i: int| 0 <= i < cells.len() ==> is_valid_cell(#[trigger] cells[i])
}

/// The cells of row `row`, left to right.
pub open spec fn row_of(board: Seq<u8>, row: int) -> Seq<u8> {
    board.subrange(row * 10, row * 10 + 10)
}

pub open spec fn all_filled(cells: Seq<u8>) -> bool {
    forall|i: int| 0 <= i < cells.len() ==> #[trigger] cells[i] != 0
}

/// How many of the cells are occupied.
pub open spec fn filled_count(cells: Seq<u8>) -> nat
    decreases cells.len(),
{
    if cells.len() == 0 {
        0
    } else {
        filled_count(cells.drop_last()) + (if cells.last() != 0 {
            1nat
        } else {
            0nat
        })
    }
}

/// The letter carried by a packed cell.
pub fn cell_letter(cell: u8) -> (letter: u8)
    ensures
        letter == letter_of(cell),
{
    cell & 0x1f
}

/// The colour group of a packed cell.
pub fn cell_piece(cell: u8) -> (piece: u8)
    ensures
        piece == piece_of(cell),
{
    cell >> 5
}

pub fn valid_cell(cell: u8) -> (valid: bool)
    ensures
        valid == is_valid_cell(cell),
{
    let letter: u8 = cell_letter(cell);
    let piece: u8 = cell_piece(cell);
    cell == 0 || (1 <= letter && letter <= 26 && 1 <= piece && piece <= 7)
}

/// Whether every cell of a run of cells is valid.
pub fn valid_cells(cells: &[u8]) -> (valid: bool)
    ensures
        valid == cells_valid(cells@),
{
    let mut index: usize = 0;
    while index < cells.len()
        invariant
            index <= cells.len(),
            forall|i: int| 0 <= i < index ==> is_valid_cell(#[trigger] cells@[i]),
        decreases cells.len() - index,
    {
        if !valid_cell(cells[index]) {
            assert(!is_valid_cell(cells@[index as int]));
            return false;
        }
        index += 1;
    }
    true
}

/// A letter and a colour group packed into one cell make a valid, occupied cell
/// from which both can be read back.
pub proof fn packed_cell_reads_back(letter: u8, piece: u8)
    requires
        1 <= letter <= 26,
        piece < 7,
    ensures
        is_valid_cell(pack_cell(letter, piece)),
        pack_cell(letter, piece) != 0,
        letter_of(pack_cell(letter, piece)) == letter,
        piece_of(pack_cell(letter, piece)) == piece + 1,
{
    assert(((letter | (((piece + 1) as u8) << 5)) & 0x1f) == letter) by (bit_vector)
        requires
            1 <= letter <= 26,
            piece < 7,
    ;
    assert(((letter | (((piece + 1) as u8) << 5)) >> 5) == piece + 1) by (bit_vector)
        requires
            1 <= letter <= 26,
            piece < 7,
    ;
    assert((letter | (((piece + 1) as u8) << 5)) != 0) by (bit_vector)
        requires
            1 <= letter <= 26,
    ;
}

/// The cell that a block of tetromino `piece` (0-6) with `letter` leaves behind.
pub open spec fn pack_cell(letter: u8, piece: u8) -> u8 {
    letter | (((piece + 1) as u8) << 5)
}

/// A copy of one row of the board.
pub fn board_row(board: &Board, row: usize) -> (cells: [u8; 10])
    requires
        row < 22,
    ensures
        cells@ == row_of(board@, row as int),
{
    let start: usize = row * BOARD_WIDTH;
    let mut cells: [u8; 10] = [0u8; 10];
    let mut col: usize = 0;
    while col < 10
        invariant
            row < 22,
            start == row * 10,
            col <= 10,
            forall|i: int| 0 <= i < col ==> #[trigger] cells@[i] == board@[start + i],
        decreases 10 - col,
    {
        cells[col] = board[start + col];
        col += 1;
    }
    assert(cells@ =~= row_of(board@, row as int));
    cells
}

} // verus!
