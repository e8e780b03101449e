//! Where a piece can come to rest, and what each placement clears and scores.

use vstd::math::{max, min};
use vstd::prelude::*;

use crate::board::{
    all_filled, board_row, cells_valid, filled_count, is_valid_cell, pack_cell, packed_cell_reads_back,
    row_of, Board, BOARD_WIDTH,
};
use crate::pieces::{
    are_blocks_of, block_at, blocks_are_distinct, blocks_collide, blocks_stay_in_their_square,
    cycle, is_blocked, is_colliding, letters_valid, new_shifts, rotated_blocks, unique_cycles,
    Block, LetterCycle, Piece,
};
use crate::words::{
    analyze_row, keep_words, lemma_row_words_bounded, lemma_total_score_bounded, row_words,
    sum_scores, total_score, WordList, WordModel,
};

verus! {

// ---------------------------------------------------------------------------
// Dropping a piece
// ---------------------------------------------------------------------------

pub open spec fn left_edge(kind: int, rotation: int) -> int {
    min(
        min(block_at(kind, rotation, 0).0, block_at(kind, rotation, 1).0),
        min(block_at(kind, rotation, 2).0, block_at(kind, rotation, 3).0),
    )
}

pub open spec fn right_edge(kind: int, rotation: int) -> int {
    max(
        max(block_at(kind, rotation, 0).0, block_at(kind, rotation, 1).0),
        max(block_at(kind, rotation, 2).0, block_at(kind, rotation, 3).0),
    )
}

pub open spec fn top_edge(kind: int, rotation: int) -> int {
    min(
        min(block_at(kind, rotation, 0).1, block_at(kind, rotation, 1).1),
        min(block_at(kind, rotation, 2).1, block_at(kind, rotation, 3).1),
    )
}

/// The row in which a piece that falls from `row` comes to rest.
pub open spec fn landing_row(board: Seq<u8>, kind: int, rotation: int, row: int, col: int) -> int
    decreases 22 - row,
{
    if row >= 22 || is_colliding(board, kind, rotation, row + 1, col) {
        row
    } else {
        landing_row(board, kind, rotation, row + 1, col)
    }
}

/// A piece that hits nothing lies inside the field.
pub proof fn lemma_inside(board: Seq<u8>, kind: int, rotation: int, row: int, col: int, block: int)
    requires
        !is_colliding(board, kind, rotation, row, col),
        0 <= kind < 7,
        0 <= rotation,
        0 <= block < 4,
    ensures
        0 <= row + block_at(kind, rotation, block).1 < 22,
        0 <= col + block_at(kind, rotation, block).0 < 10,
        board[(row + block_at(kind, rotation, block).1) * 10 + col + block_at(
            kind,
            rotation,
            block,
        ).0] == 0,
        -3 <= row < 22,
        -3 <= col < 10,
{
    blocks_stay_in_their_square(kind, rotation, block);
    assert(!is_blocked(
        board,
        row + block_at(kind, rotation, block).1,
        col + block_at(kind, rotation, block).0,
    ));
}

/// A dropped piece lies free, and one row lower it would hit something.
pub proof fn a_dropped_piece_rests(board: Seq<u8>, kind: int, rotation: int, row: int, col: int)
    requires
        !is_colliding(board, kind, rotation, row, col),
        0 <= kind < 7,
        0 <= rotation,
    ensures
        row <= landing_row(board, kind, rotation, row, col) < 22,
        !is_colliding(board, kind, rotation, landing_row(board, kind, rotation, row, col), col),
        is_colliding(board, kind, rotation, landing_row(board, kind, rotation, row, col) + 1, col),
    decreases 22 - row,
{
    lemma_inside(board, kind, rotation, row, col, 0);
    if !is_colliding(board, kind, rotation, row + 1, col) {
        a_dropped_piece_rests(board, kind, rotation, row + 1, col);
    }
}

fn drop_row(
    board: &Board,
    blocks: &[Block; 4],
    start: i8,
    col: i8,
    Ghost(kind): Ghost<int>,
    Ghost(rotation): Ghost<int>,
) -> (row: i8)
    requires
        are_blocks_of(blocks@, kind, rotation),
        0 <= kind < 7,
        0 <= rotation,
        !is_colliding(board@, kind, rotation, start as int, col as int),
    ensures
        row == landing_row(board@, kind, rotation, start as int, col as int),
{
    let mut row: i8 = start;
    proof {
        lemma_inside(board@, kind, rotation, row as int, col as int, 0);
    }
    while !blocks_collide(board, blocks, row + 1, col, Ghost(kind), Ghost(rotation))
        invariant
            are_blocks_of(blocks@, kind, rotation),
            0 <= kind < 7,
            0 <= rotation,
            -3 <= row < 22,
            col < 10,
            landing_row(board@, kind, rotation, row as int, col as int) == landing_row(
                board@,
                kind,
                rotation,
                start as int,
                col as int,
            ),
        decreases 22 - row,
    {
        row += 1;
        proof {
            lemma_inside(board@, kind, rotation, row as int, col as int, 0);
        }
    }
    row
}

/// The board once the first `count` blocks of a piece lie on it.
pub open spec fn with_blocks(
    board: Seq<u8>,
    kind: u8,
    rotation: int,
    row: int,
    col: int,
    letters: Seq<u8>,
    count: int,
) -> Seq<u8>
    decreases count,
{
    if count <= 0 {
        board
    } else {
        let block = block_at(kind as int, rotation, count - 1);
        with_blocks(board, kind, rotation, row, col, letters, count - 1).update(
            (row + block.1) * 10 + col + block.0,
            pack_cell(letters[count - 1], kind),
        )
    }
}

fn place_blocks(
    board: &Board,
    blocks: &[Block; 4],
    kind: u8,
    row: i8,
    col: i8,
    letters: &[u8; 4],
    Ghost(rotation): Ghost<int>,
) -> (placed: Board)
    requires
        kind < 7,
        0 <= rotation,
        are_blocks_of(blocks@, kind as int, rotation),
        !is_colliding(board@, kind as int, rotation, row as int, col as int),
    ensures
        placed@ == with_blocks(board@, kind, rotation, row as int, col as int, letters@, 4),
{
    let mut placed: Board = *board;
    let mut index: usize = 0;
    while index < 4
        invariant
            kind < 7,
            0 <= rotation,
            are_blocks_of(blocks@, kind as int, rotation),
            !is_colliding(board@, kind as int, rotation, row as int, col as int),
            index <= 4,
            placed@ == with_blocks(
                board@,
                kind,
                rotation,
                row as int,
                col as int,
                letters@,
                index as int,
            ),
        decreases 4 - index,
    {
        let block: Block = blocks[index];
        proof {
            assert(blocks@[index as int] == block);
            lemma_inside(board@, kind as int, rotation, row as int, col as int, index as int);
        }
        let board_row: usize = (row + block.y) as usize;
        let board_col: usize = (col + block.x) as usize;
        placed[board_row * BOARD_WIDTH + board_col] = letters[block.letter_index as usize] | ((kind
            + 1) << 5);
        index += 1;
    }
    placed
}

// ---------------------------------------------------------------------------
// Clearing lines
// ---------------------------------------------------------------------------

pub open spec fn is_full_row(board: Seq<u8>, row: int) -> bool {
    all_filled(row_of(board, row))
}

/// How many of the first `limit` rows are full.
pub open spec fn full_rows(board: Seq<u8>, limit: int) -> int
    decreases limit,
{
    if limit <= 0 {
        0
    } else if is_full_row(board, limit - 1) {
        full_rows(board, limit - 1) + 1
    } else {
        full_rows(board, limit - 1)
    }
}

/// The words in the full rows among the first `limit` rows, top to bottom.
pub open spec fn full_row_words(nodes: Seq<u32>, board: Seq<u8>, limit: int) -> Seq<WordModel>
    decreases limit,
{
    if limit <= 0 {
        Seq::empty()
    } else if is_full_row(board, limit - 1) {
        full_row_words(nodes, board, limit - 1) + row_words(nodes, row_of(board, limit - 1))
    } else {
        full_row_words(nodes, board, limit - 1)
    }
}

/// The cells of those among the first `limit` rows that are not full.
pub open spec fn kept_rows(board: Seq<u8>, limit: int) -> Seq<u8>
    decreases limit,
{
    if limit <= 0 {
        Seq::empty()
    } else if is_full_row(board, limit - 1) {
        kept_rows(board, limit - 1)
    } else {
        kept_rows(board, limit - 1) + row_of(board, limit - 1)
    }
}

/// The board after its full rows are gone and the rows above have moved down.
pub open spec fn collapsed(board: Seq<u8>) -> Seq<u8> {
    Seq::new((10 * full_rows(board, 22)) as nat, |i: int| 0u8) + kept_rows(board, 22)
}

/// The words that a board's full rows score, as far as a word list holds them.
pub open spec fn cleared_words(nodes: Seq<u32>, board: Seq<u8>) -> Seq<WordModel> {
    keep_words(full_row_words(nodes, board, 22))
}

pub proof fn lemma_kept_rows_len(board: Seq<u8>, limit: int)
    requires
        board.len() == 220,
        0 <= limit <= 22,
    ensures
        0 <= full_rows(board, limit) <= limit,
        kept_rows(board, limit).len() == 10 * (limit - full_rows(board, limit)),
    decreases limit,
{
    if limit > 0 {
        lemma_kept_rows_len(board, limit - 1);
    }
}

proof fn lemma_full_row_words_bounded(nodes: Seq<u32>, board: Seq<u8>, limit: int)
    requires
        board.len() == 220,
        cells_valid(board),
        0 <= limit <= 22,
    ensures
        forall|i: int|
            0 <= i < full_row_words(nodes, board, limit).len() ==> 0 <= (#[trigger] full_row_words(
                nodes,
                board,
                limit,
            )[i]).score <= 10_000,
        full_rows(board, limit) == 0 ==> full_row_words(nodes, board, limit).len() == 0,
    decreases limit,
{
    if limit > 0 {
        lemma_kept_rows_len(board, limit - 1);
        lemma_full_row_words_bounded(nodes, board, limit - 1);
        lemma_row_words_bounded(nodes, row_of(board, limit - 1));
        let earlier = full_row_words(nodes, board, limit - 1);
        let words = full_row_words(nodes, board, limit);
        assert forall|i: int| 0 <= i < words.len() implies 0 <= (#[trigger] words[i]).score
            <= 10_000 by {
            if i < earlier.len() {
                assert(words[i] == earlier[i]);
            } else {
                assert(words[i] == row_words(nodes, row_of(board, limit - 1))[i - earlier.len()]);
            }
        }
    }
}

/// What the cleared lines of one placement can score.
pub proof fn cleared_words_are_bounded(nodes: Seq<u32>, board: Seq<u8>)
    requires
        board.len() == 220,
        cells_valid(board),
    ensures
        forall|i: int|
            0 <= i < cleared_words(nodes, board).len() ==> 0 <= (#[trigger] cleared_words(
                nodes,
                board,
            )[i]).score <= 10_000,
        0 <= total_score(cleared_words(nodes, board)) <= 200_000,
        full_rows(board, 22) == 0 ==> total_score(cleared_words(nodes, board)) == 0,
        full_rows(board, 22) == 0 ==> cleared_words(nodes, board).len() == 0,
{
    lemma_full_row_words_bounded(nodes, board, 22);
    let words = full_row_words(nodes, board, 22);
    let kept = cleared_words(nodes, board);
    assert forall|i: int| 0 <= i < kept.len() implies 0 <= (#[trigger] kept[i]).score <= 10_000 by {
        assert(kept[i] == words[i]);
    }
    lemma_total_score_bounded(kept);
}

fn is_row_full(cells: &[u8; 10]) -> (full: bool)
    ensures
        full == all_filled(cells@),
{
    let mut col: usize = 0;
    while col < 10
        invariant
            col <= 10,
            forall|i: int| 0 <= i < col ==> #[trigger] cells@[i] != 0,
        decreases 10 - col,
    {
        if cells[col] == 0 {
            return false;
        }
        col += 1;
    }
    true
}

/// A board without its full rows, with what clearing them brought.
pub struct Clearing {
    pub board: Board,
    pub lines: u8,
    pub words: WordList,
    pub score: i32,
}

/// Takes the full rows off a board and scores the words in them.
pub fn clear_lines(lexicon: &[u32], board: &Board) -> (clearing: Clearing)
    requires
        cells_valid(board@),
    ensures
        clearing.board@ == collapsed(board@),
        clearing.lines == full_rows(board@, 22),
        clearing.words.wf(),
        clearing.words@ == cleared_words(lexicon@, board@),
        clearing.score == total_score(cleared_words(lexicon@, board@)),
{
    let mut cleared: [bool; 22] = [false; 22];
    let mut lines: u8 = 0;
    let mut words: WordList = WordList::empty();
    let mut row: usize = 0;
    while row < 22
        invariant
            cells_valid(board@),
            row <= 22,
            lines <= row,
            lines == full_rows(board@, row as int),
            words.wf(),
            words@ == keep_words(full_row_words(lexicon@, board@, row as int)),
            forall|r: int| 0 <= r < row ==> #[trigger] cleared@[r] == is_full_row(board@, r),
        decreases 22 - row,
    {
        let cells: [u8; 10] = board_row(board, row);
        if is_row_full(&cells) {
            cleared[row] = true;
            lines += 1;
            assert(cells_valid(cells@)) by {
                assert forall|i: int| 0 <= i < cells@.len() implies is_valid_cell(
                    #[trigger] cells@[i],
                ) by {
                    assert(cells@[i] == board@[row * 10 + i]);
                }
            }
            let found: WordList = analyze_row(lexicon, &cells);
            words.extend(&found);
            proof {
                let earlier = full_row_words(lexicon@, board@, row as int);
                assert(keep_words(keep_words(earlier) + found@) =~= keep_words(earlier + found@));
            }
        } else {
            cleared[row] = false;
        }
        row += 1;
    }
    proof {
        cleared_words_are_bounded(lexicon@, board@);
        lemma_kept_rows_len(board@, 22);
    }
    let score: i32 = sum_scores(&words);
    let mut result: Board = [0u8; 220];
    let mut destination: usize = lines as usize * 10;
    let mut source: usize = 0;
    while source < 22
        invariant
            source <= 22,
            lines <= 22,
            lines == full_rows(board@, 22),
            forall|r: int| 0 <= r < 22 ==> #[trigger] cleared@[r] == is_full_row(board@, r),
            kept_rows(board@, 22).len() == 10 * (22 - lines),
            destination == 10 * lines + kept_rows(board@, source as int).len(),
            kept_rows(board@, source as int).len() == 10 * (source - full_rows(
                board@,
                source as int,
            )),
            forall|i: int| 0 <= i < 10 * lines ==> #[trigger] result@[i] == 0,
            forall|i: int|
                10 * lines <= i < destination ==> #[trigger] result@[i] == kept_rows(
                    board@,
                    source as int,
                )[i - 10 * lines],
        decreases 22 - source,
    {
        if !cleared[source] {
            let cells: [u8; 10] = board_row(board, source);
            proof {
                lemma_full_rows_grow(board@, source + 1, 22);
            }
            let ghost before = result@;
            let ghost kept = kept_rows(board@, source as int);
            let ghost longer = kept_rows(board@, source + 1);
            assert(longer == kept + cells@);
            let mut col: usize = 0;
            while col < 10
                invariant
                    col <= 10,
                    destination + 10 <= 220,
                    before.len() == 220,
                    forall|i: int| 0 <= i < destination ==> #[trigger] result@[i] == before[i],
                    forall|i: int|
                        destination <= i < destination + col ==> #[trigger] result@[i] == cells@[i
                            - destination],
                decreases 10 - col,
            {
                result[destination + col] = cells[col];
                col += 1;
            }
            destination += 10;
        }
        source += 1;
    }
    assert(result@ =~= collapsed(board@));
    Clearing { board: result, lines, words, score }
}

proof fn lemma_full_rows_grow(board: Seq<u8>, limit: int, last: int)
    requires
        0 <= limit <= last,
    ensures
        full_rows(board, limit) <= full_rows(board, last) <= full_rows(board, limit) + last - limit,
    decreases last - limit,
{
    if limit < last {
        lemma_full_rows_grow(board, limit, last - 1);
    }
}

// ---------------------------------------------------------------------------
// Every placement of a piece
// ---------------------------------------------------------------------------

/// What a placement says: how the piece lies, and what that leaves and brings.
pub ghost struct PlacementModel {
    pub board: Seq<u8>,
    pub letter_shift: int,
    pub rotation: int,
    pub row: int,
    pub col: int,
    pub score: int,
    pub lines: int,
    pub words: Seq<WordModel>,
}

/// A piece at rest and the board after its full rows are cleared.
#[derive(Clone, Copy)]
pub struct Placement {
    pub board: Board,
    pub letter_shift: u8,
    pub rotation: u8,
    pub row: i8,
    pub col: i8,
    pub score: i32,
    pub lines: u8,
    pub words: WordList,
}

impl Placement {
    pub open spec fn view(&self) -> PlacementModel {
        PlacementModel {
            board: self.board@,
            letter_shift: self.letter_shift as int,
            rotation: self.rotation as int,
            row: self.row as int,
            col: self.col as int,
            score: self.score as int,
            lines: self.lines as int,
            words: self.words@,
        }
    }

    pub open spec fn wf(&self) -> bool {
        &&& self.words.wf()
        &&& cells_valid(self.board@)
        &&& self.letter_shift < 4
        &&& self.rotation < 4
        &&& -3 <= self.col < 10
        &&& self.lines <= 22
        &&& 0 <= self.score <= 200_000 * self.lines
        &&& self.words.len as int <= 20 * self.lines
    }
}

pub open spec fn placement_views(placements: Seq<Placement>) -> Seq<PlacementModel> {
    Seq::new(placements.len(), |i: int| placements[i]@)
}

/// The board on which a piece has come to rest in column `col`, before lines are cleared.
pub open spec fn settled(board: Seq<u8>, piece: Piece, shift: int, rotation: int, col: int) -> Seq<
    u8,
> {
    let kind = piece.kind as int;
    let row = landing_row(board, kind, rotation, -top_edge(kind, rotation), col);
    with_blocks(board, piece.kind, rotation, row, col, cycle(piece.letters@, shift), 4)
}

/// The placement of a piece dropped in column `col`.
pub open spec fn placement_at(
    nodes: Seq<u32>,
    board: Seq<u8>,
    piece: Piece,
    shift: int,
    rotation: int,
    col: int,
) -> PlacementModel {
    let kind = piece.kind as int;
    let placed = settled(board, piece, shift, rotation, col);
    PlacementModel {
        board: collapsed(placed),
        letter_shift: shift,
        rotation,
        row: landing_row(board, kind, rotation, -top_edge(kind, rotation), col),
        col,
        score: total_score(cleared_words(nodes, placed)),
        lines: full_rows(placed, 22),
        words: cleared_words(nodes, placed),
    }
}

/// Whether a piece can enter the field at the top of column `col`.
pub open spec fn can_enter(board: Seq<u8>, kind: int, rotation: int, col: int) -> bool {
    !is_colliding(board, kind, rotation, -top_edge(kind, rotation), col)
}

/// The placements of one rotation in the columns left of `limit`.
pub open spec fn placements_across(
    nodes: Seq<u32>,
    board: Seq<u8>,
    piece: Piece,
    shift: int,
    rotation: int,
    limit: int,
) -> Seq<PlacementModel>
    decreases limit + left_edge(piece.kind as int, rotation),
{
    if limit <= -left_edge(piece.kind as int, rotation) {
        Seq::empty()
    } else {
        let before = placements_across(nodes, board, piece, shift, rotation, limit - 1);
        if can_enter(board, piece.kind as int, rotation, limit - 1) {
            before.push(placement_at(nodes, board, piece, shift, rotation, limit - 1))
        } else {
            before
        }
    }
}

/// The placements of one letter cycle in the rotations below `limit`.
pub open spec fn placements_turned(
    nodes: Seq<u32>,
    board: Seq<u8>,
    piece: Piece,
    shift: int,
    limit: int,
) -> Seq<PlacementModel>
    decreases limit,
{
    if limit <= 0 {
        Seq::empty()
    } else {
        placements_turned(nodes, board, piece, shift, limit - 1) + placements_across(
            nodes,
            board,
            piece,
            shift,
            limit - 1,
            10 - right_edge(piece.kind as int, limit - 1),
        )
    }
}

/// The placements of the first `count` different letter cycles.
pub open spec fn placements_cycled(
    nodes: Seq<u32>,
    board: Seq<u8>,
    piece: Piece,
    count: int,
) -> Seq<PlacementModel>
    decreases count,
{
    if count <= 0 {
        Seq::empty()
    } else {
        placements_cycled(nodes, board, piece, count - 1) + placements_turned(
            nodes,
            board,
            piece,
            new_shifts(piece.letters@, 4)[count - 1],
            4,
        )
    }
}

/// Every placement of a piece: by letter cycle, by rotation, from left to right.
pub open spec fn all_placements(nodes: Seq<u32>, board: Seq<u8>, piece: Piece) -> Seq<
    PlacementModel,
> {
    placements_cycled(nodes, board, piece, new_shifts(piece.letters@, 4).len() as int)
}

proof fn lemma_edges(kind: int, rotation: int)
    requires
        0 <= kind < 7,
        0 <= rotation,
    ensures
        0 <= left_edge(kind, rotation) <= right_edge(kind, rotation) <= 3,
        0 <= top_edge(kind, rotation) <= 3,
{
    assert forall|k: int| 0 <= k < 4 implies 0 <= (#[trigger] block_at(kind, rotation, k)).0 <= 3
        && 0 <= block_at(kind, rotation, k).1 <= 3 by {
        blocks_stay_in_their_square(kind, rotation, k);
    }
}

proof fn lemma_with_blocks_valid(
    board: Seq<u8>,
    kind: u8,
    rotation: int,
    row: int,
    col: int,
    letters: Seq<u8>,
    count: int,
)
    requires
        board.len() == 220,
        cells_valid(board),
        kind < 7,
        letters.len() == 4,
        letters_valid(letters),
        0 <= rotation,
        !is_colliding(board, kind as int, rotation, row, col),
        0 <= count <= 4,
    ensures
        with_blocks(board, kind, rotation, row, col, letters, count).len() == 220,
        cells_valid(with_blocks(board, kind, rotation, row, col, letters, count)),
    decreases count,
{
    if count > 0 {
        lemma_with_blocks_valid(board, kind, rotation, row, col, letters, count - 1);
        let before = with_blocks(board, kind, rotation, row, col, letters, count - 1);
        let after = with_blocks(board, kind, rotation, row, col, letters, count);
        packed_cell_reads_back(letters[count - 1], kind);
        lemma_inside(board, kind as int, rotation, row, col, count - 1);
        assert forall|i: int| 0 <= i < after.len() implies is_valid_cell(#[trigger] after[i]) by {
            if after[i] != pack_cell(letters[count - 1], kind) {
                assert(after[i] == before[i]);
            }
        }
    }
}

proof fn lemma_kept_rows_valid(board: Seq<u8>, limit: int)
    requires
        board.len() == 220,
        cells_valid(board),
        0 <= limit <= 22,
    ensures
        cells_valid(kept_rows(board, limit)),
    decreases limit,
{
    if limit > 0 {
        lemma_kept_rows_valid(board, limit - 1);
        let before = kept_rows(board, limit - 1);
        let after = kept_rows(board, limit);
        assert forall|i: int| 0 <= i < after.len() implies is_valid_cell(#[trigger] after[i]) by {
            if i < before.len() {
                assert(after[i] == before[i]);
            } else {
                assert(after[i] == board[(limit - 1) * 10 + i - before.len()]);
            }
        }
    }
}

/// Clearing lines keeps a board's size and leaves valid cells valid.
pub proof fn clearing_keeps_cells_valid(board: Seq<u8>)
    requires
        board.len() == 220,
        cells_valid(board),
    ensures
        collapsed(board).len() == 220,
        cells_valid(collapsed(board)),
{
    lemma_kept_rows_len(board, 22);
    lemma_kept_rows_valid(board, 22);
    let lines = full_rows(board, 22);
    assert forall|i: int| 0 <= i < 220 implies is_valid_cell(#[trigger] collapsed(board)[i]) by {
        if i >= 10 * lines {
            assert(collapsed(board)[i] == kept_rows(board, 22)[i - 10 * lines]);
        }
    }
}

proof fn lemma_cycle_valid(letters: Seq<u8>, shift: int)
    requires
        letters.len() == 4,
        letters_valid(letters),
        0 <= shift,
    ensures
        letters_valid(cycle(letters, shift)),
{
    assert forall|i: int| 0 <= i < 4 implies 1 <= #[trigger] cycle(letters, shift)[i] <= 26 by {
        assert(cycle(letters, shift)[i] == letters[(i + shift) % 4]);
    }
}

/// A valid piece on a valid board leaves a valid board.
pub proof fn a_settled_piece_keeps_cells_valid(
    board: Seq<u8>,
    piece: Piece,
    shift: int,
    rotation: int,
    col: int,
)
    requires
        board.len() == 220,
        cells_valid(board),
        piece.valid(),
        0 <= shift,
        0 <= rotation,
        can_enter(board, piece.kind as int, rotation, col),
    ensures
        settled(board, piece, shift, rotation, col).len() == 220,
        cells_valid(settled(board, piece, shift, rotation, col)),
{
    lemma_cycle_valid(piece.letters@, shift);
    let kind = piece.kind as int;
    let row = landing_row(board, kind, rotation, -top_edge(kind, rotation), col);
    a_dropped_piece_rests(board, kind, rotation, -top_edge(kind, rotation), col);
    lemma_with_blocks_valid(
        board,
        piece.kind,
        rotation,
        row,
        col,
        cycle(piece.letters@, shift),
        4,
    );
}

fn low(left: i8, right: i8) -> (least: i8)
    ensures
        least == min(left as int, right as int),
{
    if left <= right {
        left
    } else {
        right
    }
}

fn high(left: i8, right: i8) -> (most: i8)
    ensures
        most == max(left as int, right as int),
{
    if left >= right {
        left
    } else {
        right
    }
}

fn simulate_placement(
    lexicon: &[u32],
    board: &Board,
    piece: Piece,
    letters: &LetterCycle,
    rotation: u8,
    blocks: &[Block; 4],
    top: i8,
    col: i8,
) -> (placement: Placement)
    requires
        cells_valid(board@),
        piece.valid(),
        letters.shift < 4,
        letters.letters@ == cycle(piece.letters@, letters.shift as int),
        rotation < 4,
        are_blocks_of(blocks@, piece.kind as int, rotation as int),
        top == top_edge(piece.kind as int, rotation as int),
        0 <= top <= 3,
        can_enter(board@, piece.kind as int, rotation as int, col as int),
    ensures
        placement.wf(),
        placement@ == placement_at(
            lexicon@,
            board@,
            piece,
            letters.shift as int,
            rotation as int,
            col as int,
        ),
{
    let row: i8 = drop_row(
        board,
        blocks,
        -top,
        col,
        Ghost(piece.kind as int),
        Ghost(rotation as int),
    );
    proof {
        a_dropped_piece_rests(board@, piece.kind as int, rotation as int, -top as int, col as int);
        a_settled_piece_keeps_cells_valid(
            board@,
            piece,
            letters.shift as int,
            rotation as int,
            col as int,
        );
    }
    let placed: Board = place_blocks(
        board,
        blocks,
        piece.kind,
        row,
        col,
        &letters.letters,
        Ghost(rotation as int),
    );
    let clearing: Clearing = clear_lines(lexicon, &placed);
    proof {
        clearing_keeps_cells_valid(placed@);
        cleared_words_are_bounded(lexicon@, placed@);
        lemma_kept_rows_len(placed@, 22);
        lemma_inside(board@, piece.kind as int, rotation as int, row as int, col as int, 0);
        assert(clearing.words@.len() == clearing.words.len);
    }
    Placement {
        board: clearing.board,
        letter_shift: letters.shift,
        rotation,
        row,
        col,
        score: clearing.score,
        lines: clearing.lines,
        words: clearing.words,
    }
}

/// Every placement of a piece: by letter cycle, by rotation, from left to right.
pub fn simulate_placements(lexicon: &[u32], board: &Board, piece: Piece) -> (placements: Vec<
    Placement,
>)
    requires
        cells_valid(board@),
        piece.valid(),
    ensures
        placement_views(placements@) == all_placements(lexicon@, board@, piece),
        forall|i: int| 0 <= i < placements.len() ==> (#[trigger] placements@[i]).wf(),
        placements.len() <= 160,
{
    let mut placements: Vec<Placement> = Vec::new();
    let cycles: Vec<LetterCycle> = unique_cycles(piece.letters);
    let mut index: usize = 0;
    while index < cycles.len()
        invariant
            cells_valid(board@),
            piece.valid(),
            index <= cycles.len() <= 4,
            cycles.len() == new_shifts(piece.letters@, 4).len(),
            forall|i: int|
                0 <= i < cycles.len() ==> {
                    &&& (#[trigger] cycles@[i]).shift == new_shifts(piece.letters@, 4)[i]
                    &&& cycles@[i].shift < 4
                    &&& cycles@[i].letters@ == cycle(piece.letters@, cycles@[i].shift as int)
                },
            placement_views(placements@) =~= placements_cycled(
                lexicon@,
                board@,
                piece,
                index as int,
            ),
            forall|i: int| 0 <= i < placements.len() ==> (#[trigger] placements@[i]).wf(),
            placements.len() <= 40 * index,
        decreases cycles.len() - index,
    {
        let letters: LetterCycle = cycles[index];
        let ghost shift = letters.shift as int;
        let ghost done = placement_views(placements@);
        let mut rotation: u8 = 0;
        while rotation < 4
            invariant
                cells_valid(board@),
                piece.valid(),
                index < 4,
                letters.shift < 4,
                letters.shift == shift,
                letters.letters@ == cycle(piece.letters@, shift),
                rotation <= 4,
                placement_views(placements@) =~= done + placements_turned(
                    lexicon@,
                    board@,
                    piece,
                    shift,
                    rotation as int,
                ),
                forall|i: int| 0 <= i < placements.len() ==> (#[trigger] placements@[i]).wf(),
                placements.len() <= 40 * index + 10 * rotation,
            decreases 4 - rotation,
        {
            let blocks: [Block; 4] = rotated_blocks(piece.kind, rotation);
            assert(are_blocks_of(blocks@, piece.kind as int, rotation as int));
            assert(blocks@[0].letter_index == 0 && blocks@[1].letter_index == 1
                && blocks@[2].letter_index == 2 && blocks@[3].letter_index == 3);
            let left: i8 = low(low(blocks[0].x, blocks[1].x), low(blocks[2].x, blocks[3].x));
            let right: i8 = high(high(blocks[0].x, blocks[1].x), high(blocks[2].x, blocks[3].x));
            let top: i8 = low(low(blocks[0].y, blocks[1].y), low(blocks[2].y, blocks[3].y));
            let ghost turned = placement_views(placements@);
            proof {
                lemma_edges(piece.kind as int, rotation as int);
            }
            let mut col: i8 = -left;
            while col < 10 - right
                invariant
                    cells_valid(board@),
                    piece.valid(),
                    index < 4,
                    letters.shift < 4,
                    letters.shift == shift,
                    letters.letters@ == cycle(piece.letters@, shift),
                    rotation < 4,
                    are_blocks_of(blocks@, piece.kind as int, rotation as int),
                    left == left_edge(piece.kind as int, rotation as int),
                    right == right_edge(piece.kind as int, rotation as int),
                    top == top_edge(piece.kind as int, rotation as int),
                    0 <= left <= right <= 3,
                    0 <= top <= 3,
                    -left <= col <= 10 - right,
                    placement_views(placements@) =~= turned + placements_across(
                        lexicon@,
                        board@,
                        piece,
                        shift,
                        rotation as int,
                        col as int,
                    ),
                    forall|i: int| 0 <= i < placements.len() ==> (#[trigger] placements@[i]).wf(),
                    placements.len() <= 40 * index + 10 * rotation + col + left,
                decreases 10 - right - col,
            {
                if !blocks_collide(
                    board,
                    &blocks,
                    -top,
                    col,
                    Ghost(piece.kind as int),
                    Ghost(rotation as int),
                ) {
                    let ghost before = placements@;
                    let placement: Placement = simulate_placement(
                        lexicon,
                        board,
                        piece,
                        &letters,
                        rotation,
                        &blocks,
                        top,
                        col,
                    );
                    placements.push(placement);
                    assert(placement_views(placements@) =~= placement_views(before).push(
                        placement@,
                    ));
                }
                col += 1;
            }
            rotation += 1;
        }
        index += 1;
    }
    placements
}

// ---------------------------------------------------------------------------
// What a placement promises
// ---------------------------------------------------------------------------

proof fn lemma_filled_count_concat(left: Seq<u8>, right: Seq<u8>)
    ensures
        filled_count(left + right) == filled_count(left) + filled_count(right),
    decreases right.len(),
{
    if right.len() == 0 {
        assert(left + right =~= left);
    } else {
        lemma_filled_count_concat(left, right.drop_last());
        assert((left + right).drop_last() =~= left + right.drop_last());
    }
}

proof fn lemma_filled_count_extremes(cells: Seq<u8>)
    ensures
        all_filled(cells) ==> filled_count(cells) == cells.len(),
        (forall|i: int| 0 <= i < cells.len() ==> #[trigger] cells[i] == 0) ==> filled_count(cells)
            == 0,
    decreases cells.len(),
{
    if cells.len() > 0 {
        lemma_filled_count_extremes(cells.drop_last());
        if all_filled(cells) {
            assert forall|i: int| 0 <= i < cells.len() - 1 implies #[trigger] cells.drop_last()[i]
                != 0 by {
                assert(cells[i] != 0);
            }
            assert(cells[cells.len() - 1] != 0);
        }
        if forall|i: int| 0 <= i < cells.len() ==> #[trigger] cells[i] == 0 {
            assert forall|i: int| 0 <= i < cells.len() - 1 implies #[trigger] cells.drop_last()[i]
                == 0 by {
                assert(cells[i] == 0);
            }
            assert(cells[cells.len() - 1] == 0);
        }
    }
}

proof fn lemma_filled_count_update(cells: Seq<u8>, index: int, cell: u8)
    requires
        0 <= index < cells.len(),
        cells[index] == 0,
        cell != 0,
    ensures
        filled_count(cells.update(index, cell)) == filled_count(cells) + 1,
    decreases cells.len(),
{
    let updated = cells.update(index, cell);
    if index == cells.len() - 1 {
        assert(updated.drop_last() =~= cells.drop_last());
    } else {
        lemma_filled_count_update(cells.drop_last(), index, cell);
        assert(updated.drop_last() =~= cells.drop_last().update(index, cell));
    }
}

proof fn lemma_kept_rows_count(board: Seq<u8>, limit: int)
    requires
        board.len() == 220,
        0 <= limit <= 22,
    ensures
        filled_count(kept_rows(board, limit)) + 10 * full_rows(board, limit) == filled_count(
            board.take(limit * 10),
        ),
    decreases limit,
{
    if limit > 0 {
        lemma_kept_rows_count(board, limit - 1);
        let row = row_of(board, limit - 1);
        assert(board.take(limit * 10) =~= board.take((limit - 1) * 10) + row);
        lemma_filled_count_concat(board.take((limit - 1) * 10), row);
        lemma_filled_count_concat(kept_rows(board, limit - 1), row);
        lemma_filled_count_extremes(row);
    } else {
        assert(board.take(0) =~= Seq::<u8>::empty());
    }
}

/// Clearing takes ten cells off the board for each line, and no others.
pub proof fn clearing_takes_ten_cells_a_line(board: Seq<u8>)
    requires
        board.len() == 220,
    ensures
        filled_count(collapsed(board)) == filled_count(board) - 10 * full_rows(board, 22),
{
    lemma_kept_rows_len(board, 22);
    lemma_kept_rows_count(board, 22);
    assert(board.take(220) =~= board);
    let empty = Seq::new((10 * full_rows(board, 22)) as nat, |i: int| 0u8);
    lemma_filled_count_concat(empty, kept_rows(board, 22));
    lemma_filled_count_extremes(empty);
}

proof fn lemma_with_blocks_count(
    board: Seq<u8>,
    kind: u8,
    rotation: int,
    row: int,
    col: int,
    letters: Seq<u8>,
    count: int,
)
    requires
        board.len() == 220,
        kind < 7,
        letters.len() == 4,
        letters_valid(letters),
        0 <= rotation,
        !is_colliding(board, kind as int, rotation, row, col),
        0 <= count <= 4,
    ensures
        with_blocks(board, kind, rotation, row, col, letters, count).len() == 220,
        filled_count(with_blocks(board, kind, rotation, row, col, letters, count)) == filled_count(
            board,
        ) + count,
        forall|k: int|
            count <= k < 4 ==> with_blocks(board, kind, rotation, row, col, letters, count)[(row
                + (#[trigger] block_at(kind as int, rotation, k)).1) * 10 + col + block_at(
                kind as int,
                rotation,
                k,
            ).0] == 0,
    decreases count,
{
    if count > 0 {
        lemma_with_blocks_count(board, kind, rotation, row, col, letters, count - 1);
        let before = with_blocks(board, kind, rotation, row, col, letters, count - 1);
        let block = block_at(kind as int, rotation, count - 1);
        packed_cell_reads_back(letters[count - 1], kind);
        lemma_inside(board, kind as int, rotation, row, col, count - 1);
        lemma_filled_count_update(
            before,
            (row + block.1) * 10 + col + block.0,
            pack_cell(letters[count - 1], kind),
        );
        assert forall|k: int| count <= k < 4 implies with_blocks(
            board,
            kind,
            rotation,
            row,
            col,
            letters,
            count,
        )[(row + (#[trigger] block_at(kind as int, rotation, k)).1) * 10 + col + block_at(
            kind as int,
            rotation,
            k,
        ).0] == 0 by {
            blocks_are_distinct(kind as int, rotation, k, count - 1);
            lemma_inside(board, kind as int, rotation, row, col, k);
        }
    } else {
        assert forall|k: int| 0 <= k < 4 implies board[(row + (#[trigger] block_at(
            kind as int,
            rotation,
            k,
        )).1) * 10 + col + block_at(kind as int, rotation, k).0] == 0 by {
            lemma_inside(board, kind as int, rotation, row, col, k);
        }
    }
}

/// A placement adds the piece's four cells and takes ten for each cleared line.
pub proof fn a_placement_adds_four_cells(
    nodes: Seq<u32>,
    board: Seq<u8>,
    piece: Piece,
    shift: int,
    rotation: int,
    col: int,
)
    requires
        board.len() == 220,
        piece.valid(),
        0 <= shift,
        0 <= rotation,
        can_enter(board, piece.kind as int, rotation, col),
    ensures
        ({
            let placement = placement_at(nodes, board, piece, shift, rotation, col);
            filled_count(placement.board) == filled_count(board) + 4 - 10 * placement.lines
        }),
{
    let kind = piece.kind as int;
    let top = top_edge(kind, rotation);
    a_dropped_piece_rests(board, kind, rotation, -top, col);
    lemma_cycle_valid(piece.letters@, shift);
    lemma_with_blocks_count(
        board,
        piece.kind,
        rotation,
        landing_row(board, kind, rotation, -top, col),
        col,
        cycle(piece.letters@, shift),
        4,
    );
    clearing_takes_ten_cells_a_line(settled(board, piece, shift, rotation, col));
}

/// Whether placing one piece can have turned one board into the other.
pub open spec fn adds_four_cells(board: Seq<u8>, placement: PlacementModel) -> bool {
    filled_count(placement.board) == filled_count(board) + 4 - 10 * placement.lines
}

proof fn lemma_across_adds_four_cells(
    nodes: Seq<u32>,
    board: Seq<u8>,
    piece: Piece,
    shift: int,
    rotation: int,
    limit: int,
)
    requires
        board.len() == 220,
        piece.valid(),
        0 <= shift,
        0 <= rotation,
    ensures
        forall|i: int|
            0 <= i < placements_across(nodes, board, piece, shift, rotation, limit).len()
                ==> adds_four_cells(
                board,
                #[trigger] placements_across(nodes, board, piece, shift, rotation, limit)[i],
            ),
    decreases limit + left_edge(piece.kind as int, rotation),
{
    if limit > -left_edge(piece.kind as int, rotation) {
        lemma_across_adds_four_cells(nodes, board, piece, shift, rotation, limit - 1);
        let before = placements_across(nodes, board, piece, shift, rotation, limit - 1);
        let after = placements_across(nodes, board, piece, shift, rotation, limit);
        if can_enter(board, piece.kind as int, rotation, limit - 1) {
            a_placement_adds_four_cells(nodes, board, piece, shift, rotation, limit - 1);
        }
        assert forall|i: int| 0 <= i < after.len() implies adds_four_cells(
            board,
            #[trigger] after[i],
        ) by {
            if i < before.len() {
                assert(after[i] == before[i]);
            }
        }
    }
}

proof fn lemma_turned_adds_four_cells(
    nodes: Seq<u32>,
    board: Seq<u8>,
    piece: Piece,
    shift: int,
    limit: int,
)
    requires
        board.len() == 220,
        piece.valid(),
        0 <= shift,
    ensures
        forall|i: int|
            0 <= i < placements_turned(nodes, board, piece, shift, limit).len() ==> adds_four_cells(
                board,
                #[trigger] placements_turned(nodes, board, piece, shift, limit)[i],
            ),
    decreases limit,
{
    if limit > 0 {
        lemma_turned_adds_four_cells(nodes, board, piece, shift, limit - 1);
        let before = placements_turned(nodes, board, piece, shift, limit - 1);
        let columns = 10 - right_edge(piece.kind as int, limit - 1);
        lemma_across_adds_four_cells(nodes, board, piece, shift, limit - 1, columns);
        let after = placements_turned(nodes, board, piece, shift, limit);
        assert forall|i: int| 0 <= i < after.len() implies adds_four_cells(
            board,
            #[trigger] after[i],
        ) by {
            if i < before.len() {
                assert(after[i] == before[i]);
            } else {
                assert(after[i] == placements_across(
                    nodes,
                    board,
                    piece,
                    shift,
                    limit - 1,
                    columns,
                )[i - before.len()]);
            }
        }
    }
}

proof fn lemma_new_shifts_range(letters: Seq<u8>, limit: int)
    ensures
        forall|i: int|
            0 <= i < new_shifts(letters, limit).len() ==> 0 <= #[trigger] new_shifts(
                letters,
                limit,
            )[i] < limit,
    decreases limit,
{
    if limit > 0 {
        lemma_new_shifts_range(letters, limit - 1);
        let before = new_shifts(letters, limit - 1);
        let after = new_shifts(letters, limit);
        assert forall|i: int| 0 <= i < after.len() implies 0 <= #[trigger] after[i] < limit by {
            if i < before.len() {
                assert(after[i] == before[i]);
            }
        }
    }
}

proof fn lemma_cycled_adds_four_cells(nodes: Seq<u32>, board: Seq<u8>, piece: Piece, count: int)
    requires
        board.len() == 220,
        piece.valid(),
        count <= new_shifts(piece.letters@, 4).len(),
    ensures
        forall|i: int|
            0 <= i < placements_cycled(nodes, board, piece, count).len() ==> adds_four_cells(
                board,
                #[trigger] placements_cycled(nodes, board, piece, count)[i],
            ),
    decreases count,
{
    if count > 0 {
        lemma_cycled_adds_four_cells(nodes, board, piece, count - 1);
        let before = placements_cycled(nodes, board, piece, count - 1);
        let shift = new_shifts(piece.letters@, 4)[count - 1];
        lemma_new_shifts_range(piece.letters@, 4);
        lemma_turned_adds_four_cells(nodes, board, piece, shift, 4);
        let after = placements_cycled(nodes, board, piece, count);
        assert forall|i: int| 0 <= i < after.len() implies adds_four_cells(
            board,
            #[trigger] after[i],
        ) by {
            if i < before.len() {
                assert(after[i] == before[i]);
            } else {
                assert(after[i] == placements_turned(nodes, board, piece, shift, 4)[i
                    - before.len()]);
            }
        }
    }
}

/// Every placement of a piece adds four cells and takes ten for each cleared line.
pub proof fn every_placement_adds_four_cells(nodes: Seq<u32>, board: Seq<u8>, piece: Piece)
    requires
        board.len() == 220,
        piece.valid(),
    ensures
        forall|i: int|
            0 <= i < all_placements(nodes, board, piece).len() ==> adds_four_cells(
                board,
                #[trigger] all_placements(nodes, board, piece)[i],
            ),
{
    lemma_cycled_adds_four_cells(nodes, board, piece, new_shifts(piece.letters@, 4).len() as int);
}

/// A board never holds more than its 220 cells.
pub proof fn filled_count_is_bounded(cells: Seq<u8>)
    ensures
        0 <= filled_count(cells) <= cells.len(),
    decreases cells.len(),
{
    if cells.len() > 0 {
        filled_count_is_bounded(cells.drop_last());
    }
}

proof fn lemma_kept_rows_are_not_full(board: Seq<u8>, limit: int, row: int)
    requires
        board.len() == 220,
        0 <= limit <= 22,
        0 <= row < limit - full_rows(board, limit),
    ensures
        kept_rows(board, limit).len() == 10 * (limit - full_rows(board, limit)),
        !all_filled(row_of(kept_rows(board, limit), row)),
    decreases limit,
{
    lemma_kept_rows_len(board, limit);
    lemma_kept_rows_len(board, limit - 1);
    let before = kept_rows(board, limit - 1);
    let after = kept_rows(board, limit);
    if row < limit - 1 - full_rows(board, limit - 1) {
        lemma_kept_rows_are_not_full(board, limit - 1, row);
        assert(row_of(after, row) =~= row_of(before, row));
    } else {
        assert(row_of(after, row) =~= row_of(board, limit - 1));
    }
}

/// Once lines are cleared, no row is full.
pub proof fn clearing_leaves_no_full_row(board: Seq<u8>, row: int)
    requires
        board.len() == 220,
        0 <= row < 22,
    ensures
        !is_full_row(collapsed(board), row),
{
    lemma_kept_rows_len(board, 22);
    let lines = full_rows(board, 22);
    if row < lines {
        assert(row_of(collapsed(board), row)[0] == 0);
    } else {
        lemma_kept_rows_are_not_full(board, 22, row - lines);
        assert(row_of(collapsed(board), row) =~= row_of(kept_rows(board, 22), row - lines));
    }
}

} // verus!
