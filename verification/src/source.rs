//! Reading written positions back.

use vstd::prelude::*;

use crate::board::{
    is_valid_cell, letter_of, pack_cell, packed_cell_reads_back, piece_of, cells_valid, Board,
};
use crate::native::string_views;
use crate::pieces::{letters_valid, Piece};
use crate::records::{
    cell_letter_char, cell_piece_char, row_letter_text, row_piece_text, PieceView,
};
use crate::text::{is_capital, letter_id, piece_char, piece_id, names_piece, spelled, PIECE_NAMES};

verus! {

/// What is wrong with a written position.
#[derive(Clone, Copy, Debug, PartialEq, Eq, Structural)]
pub enum SourceFault {
    /// A row without exactly ten cells.
    RowWidth,
    /// An empty cell with a colour.
    EmptyColor,
    /// A byte that is no capital letter.
    Letter(u8),
    /// A byte that names no tetromino, in a board.
    Color(u8),
    /// A piece without exactly four letters.
    LetterCount,
    /// A piece without a name.
    EmptyName,
    /// A piece whose name begins with no tetromino's letter.
    Name,
}

/// The bytes of a text.
pub open spec fn text_bytes(text: Seq<char>) -> Seq<u8> {
    vstd::utf8::encode_utf8(text)
}

/// The tetromino that a byte names.
pub open spec fn kind_named(byte: u8) -> Option<u8> {
    if byte == 0x49 {
        Some(0u8)
    } else if byte == 0x4a {
        Some(1u8)
    } else if byte == 0x4c {
        Some(2u8)
    } else if byte == 0x4f {
        Some(3u8)
    } else if byte == 0x53 {
        Some(4u8)
    } else if byte == 0x54 {
        Some(5u8)
    } else if byte == 0x5a {
        Some(6u8)
    } else {
        None
    }
}

fn find_kind(byte: u8) -> (kind: Option<u8>)
    ensures
        kind == kind_named(byte),
        kind matches Some(found) ==> found < 7,
{
    let kind: Option<u8> = piece_id(byte);
    proof {
        assert forall|k: int| names_piece(byte, k) implies kind_named(byte) == Some(k as u8) by {
            if k == 0 {
            } else if k == 1 {
            } else if k == 2 {
            } else if k == 3 {
            } else if k == 4 {
            } else if k == 5 {
            } else {
            }
        }
        if kind.is_none() {
            assert(!names_piece(byte, 0) && !names_piece(byte, 1) && !names_piece(byte, 2)
                && !names_piece(byte, 3) && !names_piece(byte, 4) && !names_piece(byte, 5)
                && !names_piece(byte, 6));
        }
    }
    kind
}

// ---------------------------------------------------------------------------
// Boards
// ---------------------------------------------------------------------------

/// The cell of a letter and a colour, both written. Where both are wrong,
/// `color_first` says which is reported.
pub open spec fn written_cell(letter: u8, color: u8, color_first: bool) -> Result<u8, SourceFault> {
    if letter == 0x2e {
        if color == 0x2e {
            Ok(0u8)
        } else {
            Err(SourceFault::EmptyColor)
        }
    } else if !is_capital(letter) && (kind_named(color).is_some() || !color_first) {
        Err(SourceFault::Letter(letter))
    } else {
        match kind_named(color) {
            None => Err(SourceFault::Color(color)),
            Some(kind) => Ok(pack_cell((letter - 0x40) as u8, kind)),
        }
    }
}

/// The first `count` cells of a written row.
pub open spec fn written_cells(
    letters: Seq<u8>,
    colors: Seq<u8>,
    color_first: bool,
    count: int,
) -> Result<Seq<u8>, SourceFault>
    decreases count,
{
    if count <= 0 {
        Ok(Seq::empty())
    } else {
        match written_cells(letters, colors, color_first, count - 1) {
            Err(fault) => Err(fault),
            Ok(cells) => match written_cell(letters[count - 1], colors[count - 1], color_first) {
                Err(fault) => Err(fault),
                Ok(cell) => Ok(cells.push(cell)),
            },
        }
    }
}

/// The cells of a written row.
pub open spec fn written_row(letters: Seq<u8>, colors: Seq<u8>, color_first: bool) -> Result<
    Seq<u8>,
    SourceFault,
> {
    if letters.len() != 10 || colors.len() != 10 {
        Err(SourceFault::RowWidth)
    } else {
        written_cells(letters, colors, color_first, 10)
    }
}

/// The cells of the first `count` rows of a written board.
pub open spec fn written_rows(
    letters: Seq<Seq<char>>,
    colors: Seq<Seq<char>>,
    color_first: bool,
    count: int,
) -> Result<Seq<u8>, SourceFault>
    decreases count,
{
    if count <= 0 {
        Ok(Seq::empty())
    } else {
        match written_rows(letters, colors, color_first, count - 1) {
            Err(fault) => Err(fault),
            Ok(cells) => match written_row(
                text_bytes(letters[count - 1]),
                text_bytes(colors[count - 1]),
                color_first,
            ) {
                Err(fault) => Err(fault),
                Ok(row) => Ok(cells + row),
            },
        }
    }
}

fn read_cell(letter: u8, color: u8, color_first: bool) -> (cell: Result<u8, SourceFault>)
    ensures
        cell == written_cell(letter, color, color_first),
        cell matches Ok(found) ==> is_valid_cell(found),
{
    if letter == 0x2e {
        if color != 0x2e {
            return Err(SourceFault::EmptyColor);
        }
        return Ok(0);
    }
    let tile: Option<u8> = letter_id(letter);
    let kind: Option<u8> = find_kind(color);
    match (tile, kind) {
        (Some(tile), Some(kind)) => {
            proof {
                packed_cell_reads_back(tile, kind);
            }
            Ok(tile | ((kind + 1) << 5))
        },
        (Some(_), None) => Err(SourceFault::Color(color)),
        (None, Some(_)) => Err(SourceFault::Letter(letter)),
        (None, None) => if color_first {
            Err(SourceFault::Color(color))
        } else {
            Err(SourceFault::Letter(letter))
        },
    }
}

fn read_row(letters: &[u8], colors: &[u8], color_first: bool) -> (cells: Result<
    [u8; 10],
    SourceFault,
>)
    ensures
        cells.is_ok() == written_row(letters@, colors@, color_first).is_ok(),
        match cells {
            Ok(found) => {
                &&& written_row(letters@, colors@, color_first) == Ok::<Seq<u8>, SourceFault>(found@)
                &&& cells_valid(found@)
            },
            Err(fault) => written_row(letters@, colors@, color_first) == Err::<
                Seq<u8>,
                SourceFault,
            >(fault),
        },
{
    if letters.len() != 10 || colors.len() != 10 {
        return Err(SourceFault::RowWidth);
    }
    let mut cells: [u8; 10] = [0u8; 10];
    let mut col: usize = 0;
    assert(cells@.take(0) =~= Seq::<u8>::empty());
    while col < 10
        invariant
            col <= 10,
            letters.len() == 10,
            colors.len() == 10,
            written_cells(letters@, colors@, color_first, col as int) == Ok::<Seq<u8>, SourceFault>(
                cells@.take(col as int),
            ),
            forall|i: int| 0 <= i < col ==> is_valid_cell(#[trigger] cells@[i]),
        decreases 10 - col,
    {
        match read_cell(letters[col], colors[col], color_first) {
            Ok(cell) => {
                let ghost before = cells@;
                cells[col] = cell;
                assert(cells@.take(col + 1) =~= before.take(col as int).push(cell));
            },
            Err(fault) => {
                proof {
                    lemma_fault_stays(letters@, colors@, color_first, col + 1, 10, fault);
                }
                return Err(fault);
            },
        }
        col += 1;
    }
    assert(cells@.take(10) =~= cells@);
    Ok(cells)
}

proof fn lemma_fault_stays(
    letters: Seq<u8>,
    colors: Seq<u8>,
    color_first: bool,
    count: int,
    last: int,
    fault: SourceFault,
)
    requires
        0 <= count <= last,
        written_cells(letters, colors, color_first, count) == Err::<Seq<u8>, SourceFault>(fault),
    ensures
        written_cells(letters, colors, color_first, last) == Err::<Seq<u8>, SourceFault>(fault),
    decreases last - count,
{
    if count < last {
        lemma_fault_stays(letters, colors, color_first, count, last - 1, fault);
    }
}

proof fn lemma_row_fault_stays(
    letters: Seq<Seq<char>>,
    colors: Seq<Seq<char>>,
    color_first: bool,
    count: int,
    last: int,
    fault: SourceFault,
)
    requires
        0 <= count <= last,
        written_rows(letters, colors, color_first, count) == Err::<Seq<u8>, SourceFault>(fault),
    ensures
        written_rows(letters, colors, color_first, last) == Err::<Seq<u8>, SourceFault>(fault),
    decreases last - count,
{
    if count < last {
        lemma_row_fault_stays(letters, colors, color_first, count, last - 1, fault);
    }
}

/// Reads the 22 rows of a written board.
pub fn read_rows(letters: &Vec<String>, colors: &Vec<String>, color_first: bool) -> (board: Result<
    Board,
    SourceFault,
>)
    requires
        letters.len() == 22,
        colors.len() == 22,
    ensures
        ({
            let rows = written_rows(
                string_views(letters@),
                string_views(colors@),
                color_first,
                22,
            );
            match board {
                Ok(found) => rows == Ok::<Seq<u8>, SourceFault>(found@) && cells_valid(found@),
                Err(fault) => rows == Err::<Seq<u8>, SourceFault>(fault),
            }
        }),
{
    let mut board: Board = [0u8; 220];
    let mut row: usize = 0;
    let ghost letter_views = string_views(letters@);
    let ghost color_views = string_views(colors@);
    assert(board@.take(0) =~= Seq::<u8>::empty());
    while row < 22
        invariant
            row <= 22,
            letters.len() == 22,
            colors.len() == 22,
            letter_views == string_views(letters@),
            color_views == string_views(colors@),
            written_rows(letter_views, color_views, color_first, row as int) == Ok::<
                Seq<u8>,
                SourceFault,
            >(board@.take(10 * row)),
            forall|i: int| 0 <= i < 10 * row ==> is_valid_cell(#[trigger] board@[i]),
        decreases 22 - row,
    {
        assert(letter_views[row as int] == letters@[row as int]@);
        assert(color_views[row as int] == colors@[row as int]@);
        match read_row(
            letters[row].as_str().as_bytes(),
            colors[row].as_str().as_bytes(),
            color_first,
        ) {
            Ok(cells) => {
                let ghost before = board@;
                let mut col: usize = 0;
                while col < 10
                    invariant
                        col <= 10,
                        row < 22,
                        before.len() == 220,
                        cells_valid(cells@),
                        forall|i: int| 0 <= i < 10 * row ==> #[trigger] board@[i] == before[i],
                        forall|i: int|
                            10 * row <= i < 10 * row + col ==> #[trigger] board@[i] == cells@[i
                                - 10 * row],
                    decreases 10 - col,
                {
                    board[row * 10 + col] = cells[col];
                    col += 1;
                }
                proof {
                    assert(board@.take(10 * (row + 1)) =~= before.take(10 * row) + cells@);
                    assert forall|i: int| 0 <= i < 10 * (row + 1) implies is_valid_cell(
                        #[trigger] board@[i],
                    ) by {
                        if i < 10 * row {
                            assert(is_valid_cell(before[i]));
                        } else {
                            assert(is_valid_cell(cells@[i - 10 * row]));
                        }
                    }
                }
            },
            Err(fault) => {
                proof {
                    lemma_row_fault_stays(
                        letter_views,
                        color_views,
                        color_first,
                        row + 1,
                        22,
                        fault,
                    );
                }
                return Err(fault);
            },
        }
        row += 1;
    }
    assert(board@.take(220) =~= board@);
    Ok(board)
}

proof fn lemma_written_cells_len(letters: Seq<u8>, colors: Seq<u8>, color_first: bool, count: int)
    requires
        0 <= count,
    ensures
        written_cells(letters, colors, color_first, count) matches Ok(cells) ==> cells.len() == count,
    decreases count,
{
    if count > 0 {
        lemma_written_cells_len(letters, colors, color_first, count - 1);
    }
}

/// Every written row that reads at all reads as ten cells.
pub proof fn lemma_written_rows_len(
    letters: Seq<Seq<char>>,
    colors: Seq<Seq<char>>,
    color_first: bool,
    count: int,
)
    requires
        0 <= count,
    ensures
        written_rows(letters, colors, color_first, count) matches Ok(cells) ==> cells.len() == 10
            * count,
    decreases count,
{
    if count > 0 {
        lemma_written_rows_len(letters, colors, color_first, count - 1);
        lemma_written_cells_len(
            text_bytes(letters[count - 1]),
            text_bytes(colors[count - 1]),
            color_first,
            10,
        );
    }
}

// ---------------------------------------------------------------------------
// Pieces
// ---------------------------------------------------------------------------

/// The tetromino that a name begins with.
pub open spec fn written_kind(name: Seq<u8>) -> Result<u8, SourceFault> {
    if name.len() == 0 {
        Err(SourceFault::EmptyName)
    } else {
        match kind_named(name[0]) {
            None => Err(SourceFault::Name),
            Some(kind) => Ok(kind),
        }
    }
}

/// The first fault among the first `count` letters.
pub open spec fn letter_fault(letters: Seq<u8>, count: int) -> Option<SourceFault>
    decreases count,
{
    if count <= 0 {
        None
    } else {
        match letter_fault(letters, count - 1) {
            Some(fault) => Some(fault),
            None => if is_capital(letters[count - 1]) {
                None
            } else {
                Some(SourceFault::Letter(letters[count - 1]))
            },
        }
    }
}

/// What is wrong with a written piece, if anything is. Where both its name and a
/// letter are wrong, `name_first` says which is reported.
pub open spec fn piece_fault(name: Seq<u8>, letters: Seq<u8>, name_first: bool) -> Option<
    SourceFault,
> {
    if letters.len() != 4 {
        Some(SourceFault::LetterCount)
    } else {
        match (written_kind(name), letter_fault(letters, 4)) {
            (Err(fault), None) => Some(fault),
            (Ok(_), letter) => letter,
            (Err(fault), Some(letter)) => if name_first {
                Some(fault)
            } else {
                Some(letter)
            },
        }
    }
}

/// Whether a piece is the written one.
pub open spec fn is_written_piece(name: Seq<u8>, letters: Seq<u8>, piece: Piece) -> bool {
    &&& written_kind(name) == Ok::<u8, SourceFault>(piece.kind)
    &&& letters.len() == 4
    &&& forall|i: int| 0 <= i < 4 ==> #[trigger] piece.letters@[i] == letters[i] - 0x40
    &&& piece.valid()
}

fn find_written_kind(name: &[u8]) -> (kind: Result<u8, SourceFault>)
    ensures
        kind == written_kind(name@),
        kind matches Ok(found) ==> found < 7,
{
    if name.len() == 0 {
        return Err(SourceFault::EmptyName);
    }
    match find_kind(name[0]) {
        Some(kind) => Ok(kind),
        None => Err(SourceFault::Name),
    }
}

fn find_letters(letters: &[u8]) -> (tiles: Result<[u8; 4], SourceFault>)
    requires
        letters.len() == 4,
    ensures
        match tiles {
            Ok(found) => {
                &&& letter_fault(letters@, 4).is_none()
                &&& letters_valid(found@)
                &&& forall|i: int| 0 <= i < 4 ==> #[trigger] found@[i] == letters@[i] - 0x40
            },
            Err(fault) => letter_fault(letters@, 4) == Some(fault),
        },
{
    let mut tiles: [u8; 4] = [0u8; 4];
    let mut index: usize = 0;
    while index < 4
        invariant
            index <= 4,
            letters.len() == 4,
            letter_fault(letters@, index as int).is_none(),
            forall|i: int| 0 <= i < index ==> #[trigger] tiles@[i] == letters@[i] - 0x40,
            forall|i: int| 0 <= i < index ==> 1 <= #[trigger] tiles@[i] <= 26,
        decreases 4 - index,
    {
        match letter_id(letters[index]) {
            Some(tile) => {
                tiles[index] = tile;
            },
            None => {
                proof {
                    lemma_letter_fault_stays(letters@, index + 1, 4);
                }
                return Err(SourceFault::Letter(letters[index]));
            },
        }
        index += 1;
    }
    Ok(tiles)
}

proof fn lemma_letter_fault_stays(letters: Seq<u8>, count: int, last: int)
    requires
        0 <= count <= last,
        letter_fault(letters, count).is_some(),
    ensures
        letter_fault(letters, last) == letter_fault(letters, count),
    decreases last - count,
{
    if count < last {
        lemma_letter_fault_stays(letters, count, last - 1);
    }
}

/// Reads a written piece.
pub fn read_piece(view: &PieceView, name_first: bool) -> (piece: Result<Piece, SourceFault>)
    ensures
        match piece {
            Ok(found) => {
                &&& piece_fault(
                    text_bytes(view.piece@),
                    text_bytes(view.letters@),
                    name_first,
                ).is_none()
                &&& is_written_piece(text_bytes(view.piece@), text_bytes(view.letters@), found)
            },
            Err(fault) => piece_fault(
                text_bytes(view.piece@),
                text_bytes(view.letters@),
                name_first,
            ) == Some(fault),
        },
{
    let name: &[u8] = view.piece.as_str().as_bytes();
    let letters: &[u8] = view.letters.as_str().as_bytes();
    if letters.len() != 4 {
        return Err(SourceFault::LetterCount);
    }
    let kind: Result<u8, SourceFault> = find_written_kind(name);
    let tiles: Result<[u8; 4], SourceFault> = find_letters(letters);
    match (kind, tiles) {
        (Ok(kind), Ok(tiles)) => Ok(Piece { kind, letters: tiles }),
        (Err(fault), Ok(_)) => Err(fault),
        (Ok(_), Err(fault)) => Err(fault),
        (Err(first), Err(second)) => if name_first {
            Err(first)
        } else {
            Err(second)
        },
    }
}

// ---------------------------------------------------------------------------
// Reading what was written
// ---------------------------------------------------------------------------

proof fn lemma_cell_reads_back(cell: u8, color_first: bool)
    requires
        is_valid_cell(cell),
    ensures
        cell_letter_char(cell) as u32 <= 0x7f,
        cell_piece_char(cell) as u32 <= 0x7f,
        written_cell(cell_letter_char(cell) as u8, cell_piece_char(cell) as u8, color_first) == Ok::<
            u8,
            SourceFault,
        >(cell),
{
    if cell == 0 {
        assert(0u8 & 0x1fu8 == 0) by (bit_vector);
        assert(0u8 >> 5u8 == 0) by (bit_vector);
    } else {
        let letter = letter_of(cell);
        let piece = piece_of(cell);
        assert(cell == (cell & 0x1fu8) | (((((cell >> 5u8) - 1) as u8 + 1) as u8) << 5u8))
            by (bit_vector)
            requires
                cell >> 5u8 >= 1,
        ;
        let kind = (piece - 1) as u8;
        assert(pack_cell(letter, kind) == cell);
        let name = PIECE_NAMES@[kind as int];
        if kind == 0 {
        } else if kind == 1 {
        } else if kind == 2 {
        } else if kind == 3 {
        } else if kind == 4 {
        } else if kind == 5 {
        } else {
        }
        assert(kind_named(name) == Some(kind));
    }
}

proof fn lemma_row_reads_back(board: Seq<u8>, row: int, color_first: bool, count: int)
    requires
        board.len() == 220,
        cells_valid(board),
        0 <= row < 22,
        0 <= count <= 10,
        text_bytes(row_letter_text(board, row)).len() == 10,
        text_bytes(row_piece_text(board, row)).len() == 10,
        forall|i: int|
            0 <= i < 10 ==> #[trigger] text_bytes(row_letter_text(board, row))[i]
                == row_letter_text(board, row)[i] as u8,
        forall|i: int|
            0 <= i < 10 ==> #[trigger] text_bytes(row_piece_text(board, row))[i]
                == row_piece_text(board, row)[i] as u8,
    ensures
        written_cells(
            text_bytes(row_letter_text(board, row)),
            text_bytes(row_piece_text(board, row)),
            color_first,
            count,
        ) == Ok::<Seq<u8>, SourceFault>(board.subrange(row * 10, row * 10 + count)),
    decreases count,
{
    if count > 0 {
        lemma_row_reads_back(board, row, color_first, count - 1);
        let cell = board[row * 10 + count - 1];
        lemma_cell_reads_back(cell, color_first);
        assert(row_letter_text(board, row)[count - 1] == cell_letter_char(cell));
        assert(row_piece_text(board, row)[count - 1] == cell_piece_char(cell));
        assert(board.subrange(row * 10, row * 10 + count) =~= board.subrange(
            row * 10,
            row * 10 + count - 1,
        ).push(cell));
    } else {
        assert(board.subrange(row * 10, row * 10) =~= Seq::<u8>::empty());
    }
}

proof fn lemma_rows_read_back(board: Seq<u8>, color_first: bool, count: int)
    requires
        board.len() == 220,
        cells_valid(board),
        0 <= count <= 22,
    ensures
        written_rows(
            Seq::new(22, |row: int| row_letter_text(board, row)),
            Seq::new(22, |row: int| row_piece_text(board, row)),
            color_first,
            count,
        ) == Ok::<Seq<u8>, SourceFault>(board.take(10 * count)),
    decreases count,
{
    if count > 0 {
        lemma_rows_read_back(board, color_first, count - 1);
        let row = count - 1;
        let letters = row_letter_text(board, row);
        let pieces = row_piece_text(board, row);
        assert forall|i: int| 0 <= i < 10 implies '\0' <= #[trigger] letters[i] <= '\u{7f}' by {
            lemma_cell_reads_back(board[row * 10 + i], color_first);
        }
        assert forall|i: int| 0 <= i < 10 implies '\0' <= #[trigger] pieces[i] <= '\u{7f}' by {
            lemma_cell_reads_back(board[row * 10 + i], color_first);
        }
        vstd::utf8::is_ascii_chars_encode_utf8(letters);
        vstd::utf8::is_ascii_chars_encode_utf8(pieces);
        lemma_row_reads_back(board, row, color_first, 10);
        assert(board.take(10 * count) =~= board.take(10 * row) + board.subrange(
            row * 10,
            row * 10 + 10,
        ));
    } else {
        assert(board.take(0) =~= Seq::<u8>::empty());
    }
}

/// A valid board that is written down reads back as the same board.
pub proof fn a_written_board_reads_back(board: Seq<u8>, color_first: bool)
    requires
        board.len() == 220,
        cells_valid(board),
    ensures
        written_rows(
            Seq::new(22, |row: int| row_letter_text(board, row)),
            Seq::new(22, |row: int| row_piece_text(board, row)),
            color_first,
            22,
        ) == Ok::<Seq<u8>, SourceFault>(board),
{
    lemma_rows_read_back(board, color_first, 22);
    assert(board.take(220) =~= board);
}

/// A valid piece that is written down reads back as the same piece.
pub proof fn a_written_piece_reads_back(piece: Piece, name_first: bool)
    requires
        piece.valid(),
    ensures
        ({
            let name = text_bytes(seq![piece_char(piece.kind as int)]);
            let letters = text_bytes(spelled(piece.letters@));
            &&& piece_fault(name, letters, name_first).is_none()
            &&& is_written_piece(name, letters, piece)
        }),
{
    let name_text = seq![piece_char(piece.kind as int)];
    let letter_text = spelled(piece.letters@);
    let kind = piece.kind;
    if kind == 0 {
    } else if kind == 1 {
    } else if kind == 2 {
    } else if kind == 3 {
    } else if kind == 4 {
    } else if kind == 5 {
    } else {
    }
    assert(kind_named(PIECE_NAMES@[kind as int]) == Some(kind));
    assert('\0' <= name_text[0] <= '\u{7f}');
    assert forall|i: int| 0 <= i < 4 implies '\0' <= #[trigger] letter_text[i] <= '\u{7f}' by {
        assert(1 <= piece.letters@[i] <= 26);
    }
    vstd::utf8::is_ascii_chars_encode_utf8(name_text);
    vstd::utf8::is_ascii_chars_encode_utf8(letter_text);
    let name = text_bytes(name_text);
    let letters = text_bytes(letter_text);
    assert(name[0] == name_text[0] as u8);
    assert forall|i: int| 0 <= i < 4 implies is_capital(#[trigger] letters[i]) && letters[i]
        == piece.letters@[i] + 0x40 by {
        assert(1 <= piece.letters@[i] <= 26);
        assert(letters[i] == letter_text[i] as u8);
    }
    reveal_with_fuel(letter_fault, 5);
    assert(is_capital(letters[0]) && is_capital(letters[1]) && is_capital(letters[2])
        && is_capital(letters[3]));
}

} // verus!
