//! The seven tetrominos, their rotations and their letter cycles.

use vstd::prelude::*;

use crate::board::Board;

verus! {

/// A falling piece: its tetromino (0-6 for I, J, L, O, S, T, Z) and its four
/// letters (A-Z as 1-26).
#[derive(Clone, Copy, Debug)]
pub struct Piece {
    pub kind: u8,
    pub letters: [u8; 4],
}

pub open spec fn letters_valid(letters: Seq<u8>) -> bool {
    forall|i: int| 0 <= i < letters.len() ==> 1 <= #[trigger] letters[i] <= 26
}

impl Piece {
    pub open spec fn valid(&self) -> bool {
        self.kind < 7 && letters_valid(self.letters@)
    }
}

/// Whether all four letters are between A and Z.
pub fn valid_letters(letters: &[u8; 4]) -> (valid: bool)
    ensures
        valid == letters_valid(letters@),
{
    let mut index: usize = 0;
    while index < 4
        invariant
            index <= 4,
            forall|i: int| 0 <= i < index ==> 1 <= #[trigger] letters@[i] <= 26,
        decreases 4 - index,
    {
        if letters[index] < 1 || letters[index] > 26 {
            assert(!(1 <= letters@[index as int] <= 26));
            return false;
        }
        index += 1;
    }
    true
}

/// One of a piece's four blocks, relative to the piece's corner.
#[derive(Clone, Copy)]
pub struct Block {
    pub x: i8,
    pub y: i8,
    pub letter_index: u8,
}

/// The columns of each tetromino's blocks before it is turned.
pub const BASE_XS: [[i8; 4]; 7] = [
    [0, 1, 2, 3],
    [0, 0, 1, 2],
    [2, 0, 1, 2],
    [1, 2, 1, 2],
    [1, 2, 0, 1],
    [1, 0, 1, 2],
    [0, 1, 1, 2],
];

/// The rows of each tetromino's blocks before it is turned.
pub const BASE_YS: [[i8; 4]; 7] = [
    [1, 1, 1, 1],
    [0, 1, 1, 1],
    [0, 1, 1, 1],
    [1, 1, 2, 2],
    [0, 0, 1, 1],
    [0, 1, 1, 1],
    [0, 0, 1, 1],
];

/// The side of the square in which each tetromino turns.
pub const PIECE_SIZES: [i8; 7] = [4, 3, 3, 4, 3, 3, 3];

/// A clockwise quarter turn inside a square of side `size`.
pub open spec fn quarter_turn(point: (int, int), size: int) -> (int, int) {
    (size - 1 - point.1, point.0)
}

/// Where block `block` of tetromino `kind` lies after `rotation` quarter turns.
pub open spec fn block_at(kind: int, rotation: int, block: int) -> (int, int)
    decreases rotation,
{
    if rotation <= 0 {
        (BASE_XS@[kind]@[block] as int, BASE_YS@[kind]@[block] as int)
    } else {
        quarter_turn(block_at(kind, rotation - 1, block), PIECE_SIZES@[kind] as int)
    }
}

/// Whether a block may not lie there: outside the field, or on an occupied cell.
pub open spec fn is_blocked(board: Seq<u8>, row: int, col: int) -> bool {
    row < 0 || row >= 22 || col < 0 || col >= 10 || board[row * 10 + col] != 0
}

/// Whether a piece with its corner at `row`, `col` hits the field's edge or another piece.
pub open spec fn is_colliding(
    board: Seq<u8>,
    kind: int,
    rotation: int,
    row: int,
    col: int,
) -> bool {
    exists|k: int|
        0 <= k < 4 && is_blocked(
            board,
            row + (#[trigger] block_at(kind, rotation, k)).1,
            col + block_at(kind, rotation, k).0,
        )
}

proof fn lemma_base_blocks(kind: int)
    requires
        0 <= kind < 7,
    ensures
        3 <= PIECE_SIZES@[kind] <= 4,
        forall|k: int|
            0 <= k < 4 ==> 0 <= #[trigger] BASE_XS@[kind]@[k] < PIECE_SIZES@[kind],
        forall|k: int|
            0 <= k < 4 ==> 0 <= #[trigger] BASE_YS@[kind]@[k] < PIECE_SIZES@[kind],
{
    if kind == 0 {
    } else if kind == 1 {
    } else if kind == 2 {
    } else if kind == 3 {
    } else if kind == 4 {
    } else if kind == 5 {
    } else {
    }
}

/// Every block stays inside the square in which its piece turns.
pub proof fn blocks_stay_in_their_square(kind: int, rotation: int, block: int)
    requires
        0 <= kind < 7,
        0 <= rotation,
        0 <= block < 4,
    ensures
        0 <= block_at(kind, rotation, block).0 < PIECE_SIZES@[kind] <= 4,
        0 <= block_at(kind, rotation, block).1 < PIECE_SIZES@[kind] <= 4,
    decreases rotation,
{
    lemma_base_blocks(kind);
    if rotation > 0 {
        blocks_stay_in_their_square(kind, rotation - 1, block);
    }
}

/// Four quarter turns bring every block back.
pub proof fn four_quarter_turns_restore_a_block(kind: int, rotation: int, block: int)
    requires
        0 <= rotation,
    ensures
        block_at(kind, rotation + 4, block) == block_at(kind, rotation, block),
{
    reveal_with_fuel(block_at, 5);
}

/// The four blocks of a piece lie on four different cells.
pub proof fn blocks_are_distinct(kind: int, rotation: int, left: int, right: int)
    requires
        0 <= kind < 7,
        0 <= rotation,
        0 <= left < 4,
        0 <= right < 4,
        left != right,
    ensures
        block_at(kind, rotation, left) != block_at(kind, rotation, right),
    decreases rotation,
{
    if rotation > 0 {
        blocks_are_distinct(kind, rotation - 1, left, right);
    } else if kind == 0 {
    } else if kind == 1 {
    } else if kind == 2 {
    } else if kind == 3 {
    } else if kind == 4 {
    } else if kind == 5 {
    } else {
    }
}

pub open spec fn are_blocks_of(blocks: Seq<Block>, kind: int, rotation: int) -> bool {
    &&& blocks.len() == 4
    &&& forall|k: int|
        0 <= k < 4 ==> {
            &&& (#[trigger] blocks[k]).x == block_at(kind, rotation, k).0
            &&& blocks[k].y == block_at(kind, rotation, k).1
            &&& blocks[k].letter_index == k
            &&& 0 <= blocks[k].x <= 3
            &&& 0 <= blocks[k].y <= 3
        }
}

/// The blocks of a tetromino after `rotation` quarter turns.
pub fn rotated_blocks(kind: u8, rotation: u8) -> (blocks: [Block; 4])
    requires
        kind < 7,
    ensures
        are_blocks_of(blocks@, kind as int, rotation as int),
{
    let size: i8 = PIECE_SIZES[kind as usize];
    let xs: [i8; 4] = BASE_XS[kind as usize];
    let ys: [i8; 4] = BASE_YS[kind as usize];
    let mut blocks: [Block; 4] = [
        Block { x: xs[0], y: ys[0], letter_index: 0 },
        Block { x: xs[1], y: ys[1], letter_index: 1 },
        Block { x: xs[2], y: ys[2], letter_index: 2 },
        Block { x: xs[3], y: ys[3], letter_index: 3 },
    ];
    proof {
        lemma_base_blocks(kind as int);
    }
    let mut turned: u8 = 0;
    while turned < rotation
        invariant
            kind < 7,
            turned <= rotation,
            size == PIECE_SIZES@[kind as int],
            3 <= size <= 4,
            are_blocks_of(blocks@, kind as int, turned as int),
        decreases rotation - turned,
    {
        let ghost before = blocks@;
        let mut index: usize = 0;
        while index < 4
            invariant
                kind < 7,
                size == PIECE_SIZES@[kind as int],
                3 <= size <= 4,
                index <= 4,
                are_blocks_of(before, kind as int, turned as int),
                forall|k: int| index <= k < 4 ==> #[trigger] blocks@[k] == before[k],
                forall|k: int|
                    0 <= k < index ==> {
                        &&& (#[trigger] blocks@[k]).x == block_at(kind as int, turned + 1, k).0
                        &&& blocks@[k].y == block_at(kind as int, turned + 1, k).1
                        &&& blocks@[k].letter_index == k
                        &&& 0 <= blocks@[k].x <= 3
                        &&& 0 <= blocks@[k].y <= 3
                    },
            decreases 4 - index,
        {
            let previous: Block = blocks[index];
            proof {
                assert(before[index as int] == previous);
                blocks_stay_in_their_square(kind as int, turned + 1, index as int);
            }
            blocks[index] = Block {
                x: size - 1 - previous.y,
                y: previous.x,
                letter_index: previous.letter_index,
            };
            index += 1;
        }
        turned += 1;
    }
    blocks
}

/// Whether blocks with their corner at `row`, `col` hit the edge or another piece.
pub(crate) fn blocks_collide(
    board: &Board,
    blocks: &[Block; 4],
    row: i8,
    col: i8,
    Ghost(kind): Ghost<int>,
    Ghost(rotation): Ghost<int>,
) -> (hit: bool)
    requires
        are_blocks_of(blocks@, kind, rotation),
        row <= 124,
        col <= 124,
    ensures
        hit == is_colliding(board@, kind, rotation, row as int, col as int),
{
    let mut index: usize = 0;
    while index < 4
        invariant
            are_blocks_of(blocks@, kind, rotation),
            row <= 124,
            col <= 124,
            index <= 4,
            forall|k: int|
                0 <= k < index ==> !is_blocked(
                    board@,
                    row + (#[trigger] block_at(kind, rotation, k)).1,
                    col + block_at(kind, rotation, k).0,
                ),
        decreases 4 - index,
    {
        let block: Block = blocks[index];
        assert(blocks@[index as int] == block);
        let board_row: i8 = row + block.y;
        let board_col: i8 = col + block.x;
        if board_row < 0 || board_row >= 22 || board_col < 0 || board_col >= 10 {
            assert(is_blocked(
                board@,
                row + block_at(kind, rotation, index as int).1,
                col + block_at(kind, rotation, index as int).0,
            ));
            return true;
        }
        if board[board_row as usize * 10 + board_col as usize] != 0 {
            assert(is_blocked(
                board@,
                row + block_at(kind, rotation, index as int).1,
                col + block_at(kind, rotation, index as int).0,
            ));
            return true;
        }
        index += 1;
    }
    false
}

/// Whether a piece with its corner at `row`, `col` hits the edge or another piece.
pub fn collides(board: &Board, kind: u8, rotation: u8, row: i8, col: i8) -> (hit: bool)
    requires
        kind < 7,
        row <= 124,
        col <= 124,
    ensures
        hit == is_colliding(board@, kind as int, rotation as int, row as int, col as int),
{
    let blocks: [Block; 4] = rotated_blocks(kind, rotation);
    blocks_collide(board, &blocks, row, col, Ghost(kind as int), Ghost(rotation as int))
}

// ---------------------------------------------------------------------------
// Letter cycles
// ---------------------------------------------------------------------------

/// The letters moved `shift` places to the front, wrapping round.
pub open spec fn cycle(letters: Seq<u8>, shift: int) -> Seq<u8> {
    Seq::new(4, |i: int| letters[(i + shift) % 4])
}

/// Whether a shift spells something that no smaller shift spells.
pub open spec fn is_new_cycle(letters: Seq<u8>, shift: int) -> bool {
    forall|s: int| 0 <= s < shift ==> #[trigger] cycle(letters, s) != cycle(letters, shift)
}

/// The shifts below `limit` that spell something new, in order.
pub open spec fn new_shifts(letters: Seq<u8>, limit: int) -> Seq<int>
    decreases limit,
{
    if limit <= 0 {
        Seq::empty()
    } else if is_new_cycle(letters, limit - 1) {
        new_shifts(letters, limit - 1).push(limit - 1)
    } else {
        new_shifts(letters, limit - 1)
    }
}

pub fn shifted_letters(letters: [u8; 4], shift: u8) -> (shifted: [u8; 4])
    ensures
        shifted@ == cycle(letters@, shift as int),
{
    let mut shifted: [u8; 4] = [0u8; 4];
    let mut index: usize = 0;
    while index < 4
        invariant
            index <= 4,
            forall|i: int| 0 <= i < index ==> #[trigger] shifted@[i] == letters@[(i + shift) % 4],
        decreases 4 - index,
    {
        shifted[index] = letters[(index + shift as usize) % 4];
        index += 1;
    }
    assert(shifted@ =~= cycle(letters@, shift as int));
    shifted
}

fn same_letters(left: &[u8; 4], right: &[u8; 4]) -> (same: bool)
    ensures
        same == (left@ == right@),
{
    let same: bool = left[0] == right[0] && left[1] == right[1] && left[2] == right[2] && left[3]
        == right[3];
    proof {
        if same {
            assert(left@ =~= right@);
        }
    }
    same
}

/// One way to turn a piece's letters round, with the shift that gives it.
#[derive(Clone, Copy)]
pub struct LetterCycle {
    pub letters: [u8; 4],
    pub shift: u8,
}

fn spells_something_new(letters: [u8; 4], shift: u8) -> (new: bool)
    ensures
        new == is_new_cycle(letters@, shift as int),
{
    let shifted: [u8; 4] = shifted_letters(letters, shift);
    let mut earlier: u8 = 0;
    while earlier < shift
        invariant
            earlier <= shift,
            shifted@ == cycle(letters@, shift as int),
            forall|s: int| 0 <= s < earlier ==> #[trigger] cycle(letters@, s) != shifted@,
        decreases shift - earlier,
    {
        let other: [u8; 4] = shifted_letters(letters, earlier);
        if same_letters(&other, &shifted) {
            return false;
        }
        earlier += 1;
    }
    true
}

/// The different letter cycles of a piece, by increasing shift.
pub fn unique_cycles(letters: [u8; 4]) -> (cycles: Vec<LetterCycle>)
    ensures
        cycles.len() == new_shifts(letters@, 4).len(),
        1 <= cycles.len() <= 4,
        forall|i: int|
            0 <= i < cycles.len() ==> {
                &&& (#[trigger] cycles@[i]).shift == new_shifts(letters@, 4)[i]
                &&& cycles@[i].shift < 4
                &&& cycles@[i].letters@ == cycle(letters@, cycles@[i].shift as int)
            },
{
    let mut cycles: Vec<LetterCycle> = Vec::new();
    let mut shift: u8 = 0;
    while shift < 4
        invariant
            shift <= 4,
            cycles.len() == new_shifts(letters@, shift as int).len(),
            cycles.len() <= shift,
            shift > 0 ==> cycles.len() >= 1,
            forall|i: int|
                0 <= i < cycles.len() ==> {
                    &&& (#[trigger] cycles@[i]).shift == new_shifts(letters@, shift as int)[i]
                    &&& cycles@[i].shift < 4
                    &&& cycles@[i].letters@ == cycle(letters@, cycles@[i].shift as int)
                },
        decreases 4 - shift,
    {
        if spells_something_new(letters, shift) {
            cycles.push(LetterCycle { letters: shifted_letters(letters, shift), shift });
        }
        shift += 1;
    }
    cycles
}

} // verus!
