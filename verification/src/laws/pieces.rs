//! Laws of pieces: their shapes, how they turn, where they fit, and how their letters
//! go round.

use vstd::prelude::*;

use crate::pieces::{
    block_at, blocks_stay_in_their_square, cycle, is_blocked, is_colliding, is_new_cycle,
    new_shifts,
};

verus! {

/// Before a piece is turned its blocks are told line by line, each from left to right.
pub proof fn blocks_are_in_reading_order(kind: int, block: int)
    requires
        0 <= kind < 7,
        0 <= block < 3,
    ensures
        ({
            let here = block_at(kind, 0, block);
            let next = block_at(kind, 0, block + 1);
            here.1 < next.1 || here.1 == next.1 && here.0 < next.0
        }),
{
    if kind == 0 {
    } else if kind == 1 {
    } else if kind == 2 {
    } else if kind == 3 {
    } else if kind == 4 {
    } else if kind == 5 {
    } else {
    }
}

/// Whether a block of a piece that has not been turned lies at `x`, `y`.
pub open spec fn covers(kind: int, x: int, y: int) -> bool {
    exists|block: int| 0 <= block < 4 && #[trigger] block_at(kind, 0, block) == (x, y)
}

/// The shapes: I is a bar of four in the second line of its square; J, L and T are a bar
/// of three in their second line with a block above its left end, its right end and its
/// middle; O is the square in the middle; S and Z are two pairs, the upper one shifted
/// to the right and to the left.
pub proof fn pieces_have_their_shapes(x: int, y: int)
    ensures
        covers(0, x, y) <==> y == 1 && 0 <= x <= 3,
        covers(1, x, y) <==> y == 1 && 0 <= x <= 2 || y == 0 && x == 0,
        covers(2, x, y) <==> y == 1 && 0 <= x <= 2 || y == 0 && x == 2,
        covers(3, x, y) <==> 1 <= y <= 2 && 1 <= x <= 2,
        covers(4, x, y) <==> y == 0 && 1 <= x <= 2 || y == 1 && 0 <= x <= 1,
        covers(5, x, y) <==> y == 1 && 0 <= x <= 2 || y == 0 && x == 1,
        covers(6, x, y) <==> y == 0 && 0 <= x <= 1 || y == 1 && 1 <= x <= 2,
{
    assert forall|kind: int| 0 <= kind < 7 implies #[trigger] covers(kind, x, y) == (block_at(
        kind,
        0,
        0,
    ) == (x, y) || block_at(kind, 0, 1) == (x, y) || block_at(kind, 0, 2) == (x, y) || block_at(
        kind,
        0,
        3,
    ) == (x, y)) by {
        if covers(kind, x, y) {
            let block = choose|block: int|
                0 <= block < 4 && #[trigger] block_at(kind, 0, block) == (x, y);
            assert(block == 0 || block == 1 || block == 2 || block == 3);
        }
    }
}

/// A quarter turn is clockwise: what was to the right of a block is below it, and what
/// was below it is to its left.
pub proof fn a_quarter_turn_is_clockwise(kind: int, rotation: int, left: int, right: int)
    requires
        0 <= rotation,
    ensures
        ({
            let (a, b) = (block_at(kind, rotation, left), block_at(kind, rotation, right));
            let (c, d) = (block_at(kind, rotation + 1, left), block_at(kind, rotation + 1, right));
            d.0 - c.0 == -(b.1 - a.1) && d.1 - c.1 == b.0 - a.0
        }),
{
}

/// Turning keeps a piece inside its square: the four corners' distances go round, so
/// that what was left of a block is now above it, and its right is below.
pub proof fn a_quarter_turn_keeps_the_square(kind: int, rotation: int, block: int)
    requires
        0 <= kind < 7,
        0 <= rotation,
        0 <= block < 4,
    ensures
        ({
            let size = if kind == 0 || kind == 3 {
                4int
            } else {
                3
            };
            let before = block_at(kind, rotation, block);
            let after = block_at(kind, rotation + 1, block);
            &&& 0 <= before.0 < size
            &&& 0 <= before.1 < size
            &&& after.1 == before.0
            &&& size - 1 - after.0 == before.1
        }),
{
    blocks_stay_in_their_square(kind, rotation, block);
    if kind == 0 {
    } else if kind == 1 {
    } else if kind == 2 {
    } else if kind == 3 {
    } else if kind == 4 {
    } else if kind == 5 {
    } else {
    }
}

/// A piece fits if and only if each of its four blocks lies on an empty cell of the field.
pub proof fn a_piece_fits_on_empty_cells(
    board: Seq<u8>,
    kind: int,
    rotation: int,
    row: int,
    col: int,
)
    ensures
        !is_colliding(board, kind, rotation, row, col) <==> forall|block: int|
            0 <= block < 4 ==> {
                let (x, y) = #[trigger] block_at(kind, rotation, block);
                &&& 0 <= row + y < 22
                &&& 0 <= col + x < 10
                &&& board[(row + y) * 10 + (col + x)] == 0
            },
{
    if !is_colliding(board, kind, rotation, row, col) {
        assert forall|block: int| 0 <= block < 4 implies {
            let (x, y) = #[trigger] block_at(kind, rotation, block);
            &&& 0 <= row + y < 22
            &&& 0 <= col + x < 10
            &&& board[(row + y) * 10 + (col + x)] == 0
        } by {
            let (x, y) = block_at(kind, rotation, block);
            assert(!is_blocked(board, row + y, col + x));
        }
    } else {
        let block = choose|k: int|
            0 <= k < 4 && is_blocked(
                board,
                row + (#[trigger] block_at(kind, rotation, k)).1,
                col + block_at(kind, rotation, k).0,
            );
        let (x, y) = block_at(kind, rotation, block);
        assert(is_blocked(board, row + y, col + x));
    }
}

proof fn lemma_wrap(place: int, shift: int, more: int)
    ensures
        0 <= (place + more) % 4 < 4,
        ((place + more) % 4 + shift) % 4 == (place + (shift + more)) % 4,
        (place + (shift + 4)) % 4 == (place + shift) % 4,
{
}

proof fn lemma_shifts_add_up(letters: Seq<u8>, shift: int, more: int)
    requires
        letters.len() == 4,
    ensures
        cycle(cycle(letters, shift), more) == cycle(letters, shift + more),
{
    let inner = cycle(letters, shift);
    let left = cycle(inner, more);
    let right = cycle(letters, shift + more);
    assert forall|i: int| 0 <= i < 4 implies left[i] == right[i] by {
        lemma_wrap(i, shift, more);
        let place = (i + more) % 4;
        assert(left[i] == inner[place]);
        assert(inner[place] == letters[(place + shift) % 4]);
        assert(right[i] == letters[(i + (shift + more)) % 4]);
    }
    assert(left =~= right);
}

proof fn lemma_four_shifts(letters: Seq<u8>, shift: int)
    requires
        letters.len() == 4,
    ensures
        cycle(letters, shift + 4) == cycle(letters, shift),
{
    let left = cycle(letters, shift + 4);
    let right = cycle(letters, shift);
    assert forall|i: int| 0 <= i < 4 implies left[i] == right[i] by {
        lemma_wrap(i, shift, 0);
        assert(left[i] == letters[(i + (shift + 4)) % 4]);
        assert(right[i] == letters[(i + shift) % 4]);
    }
    assert(left =~= right);
}

/// Letters go round: a shift by one brings each letter one place to the front and the
/// first to the end, shifts add up, and four of them change nothing.
pub proof fn letters_go_round(letters: Seq<u8>, shift: int, more: int)
    requires
        letters.len() == 4,
        0 <= shift,
        0 <= more,
    ensures
        cycle(letters, 0) == letters,
        cycle(letters, 1) == seq![letters[1], letters[2], letters[3], letters[0]],
        cycle(cycle(letters, shift), more) == cycle(letters, shift + more),
        cycle(letters, shift + 4) == cycle(letters, shift),
{
    assert(cycle(letters, 0) =~= letters);
    assert(cycle(letters, 1) =~= seq![letters[1], letters[2], letters[3], letters[0]]);
    lemma_shifts_add_up(letters, shift, more);
    lemma_four_shifts(letters, shift);
}

/// Whether two shifts spell the same.
#[verifier::opaque]
pub open spec fn spell_alike(letters: Seq<u8>, left: int, right: int) -> bool {
    forall|i: int| 0 <= i < 4 ==> #[trigger] letters[(i + left) % 4] == letters[(i + right) % 4]
}

proof fn lemma_spell_alike(letters: Seq<u8>, left: int, right: int)
    ensures
        spell_alike(letters, left, right) == (cycle(letters, left) == cycle(letters, right)),
{
    reveal(spell_alike);
    if spell_alike(letters, left, right) {
        assert(cycle(letters, left) =~= cycle(letters, right)) by {
            assert forall|i: int| 0 <= i < 4 implies cycle(letters, left)[i] == cycle(
                letters,
                right,
            )[i] by {
                assert(letters[(i + left) % 4] == letters[(i + right) % 4]);
            }
        }
    }
    if cycle(letters, left) == cycle(letters, right) {
        assert forall|i: int| 0 <= i < 4 implies #[trigger] letters[(i + left) % 4] == letters[(i
            + right) % 4] by {
            assert(cycle(letters, left)[i] == cycle(letters, right)[i]);
        }
    }
}

proof fn lemma_new(letters: Seq<u8>, last: int) -> (earlier: int)
    ensures
        is_new_cycle(letters, last) ==> forall|s: int|
            0 <= s < last ==> !#[trigger] spell_alike(letters, s, last),
        !is_new_cycle(letters, last) ==> 0 <= earlier < last && spell_alike(
            letters,
            earlier,
            last,
        ),
{
    if is_new_cycle(letters, last) {
        assert forall|s: int| 0 <= s < last implies !#[trigger] spell_alike(letters, s, last) by {
            lemma_spell_alike(letters, s, last);
        }
        0
    } else {
        let earlier = choose|s: int|
            0 <= s < last && #[trigger] cycle(letters, s) == cycle(letters, last);
        lemma_spell_alike(letters, earlier, last);
        earlier
    }
}

proof fn lemma_alike_chain(letters: Seq<u8>, a: int, b: int, c: int)
    ensures
        spell_alike(letters, a, a),
        spell_alike(letters, a, b) && spell_alike(letters, b, c) ==> spell_alike(letters, a, c),
{
    lemma_spell_alike(letters, a, a);
    lemma_spell_alike(letters, a, b);
    lemma_spell_alike(letters, b, c);
    lemma_spell_alike(letters, a, c);
}

/// The shifts below `limit` that are tried are in order, no two of them spell alike, and
/// whatever a shift spells is spelled by one that is tried, no greater than it.
pub proof fn tried_shifts_spell_everything_once(letters: Seq<u8>, limit: int)
    requires
        0 <= limit,
    ensures
        ({
            let shifts = new_shifts(letters, limit);
            &&& forall|i: int| 0 <= i < shifts.len() ==> 0 <= #[trigger] shifts[i] < limit
            &&& forall|i: int, j: int| 0 <= i < j < shifts.len() ==> shifts[i] < shifts[j]
            &&& forall|i: int, j: int|
                0 <= i < j < shifts.len() ==> !#[trigger] spell_alike(
                    letters,
                    shifts[i],
                    shifts[j],
                )
            &&& forall|shift: int|
                0 <= shift < limit ==> #[trigger] is_tried(letters, shifts, shift)
        }),
    decreases limit,
{
    let shifts = new_shifts(letters, limit);
    if limit > 0 {
        tried_shifts_spell_everything_once(letters, limit - 1);
        let before = new_shifts(letters, limit - 1);
        let last = limit - 1;
        let earlier = lemma_new(letters, last);
        assert forall|shift: int| 0 <= shift < limit implies #[trigger] is_tried(
            letters,
            shifts,
            shift,
        ) by {
            if shift < last {
                assert(is_tried(letters, before, shift));
                let i = choose|i: int|
                    0 <= i < before.len() && #[trigger] before[i] <= shift && spell_alike(
                        letters,
                        before[i],
                        shift,
                    );
                assert(shifts[i] == before[i]);
            } else if is_new_cycle(letters, last) {
                lemma_alike_chain(letters, last, last, last);
                assert(shifts[before.len() as int] == last);
            } else {
                assert(is_tried(letters, before, earlier));
                let i = choose|i: int|
                    0 <= i < before.len() && #[trigger] before[i] <= earlier && spell_alike(
                        letters,
                        before[i],
                        earlier,
                    );
                lemma_alike_chain(letters, before[i], earlier, last);
                assert(shifts[i] == before[i]);
            }
        }
        assert forall|i: int, j: int| 0 <= i < j < shifts.len() implies !#[trigger] spell_alike(
            letters,
            shifts[i],
            shifts[j],
        ) by {
            assert(shifts[i] == before[i]);
            if j < before.len() {
                assert(shifts[j] == before[j]);
            }
        }
    }
}

/// Whether a shift that is tried, no greater than `shift`, spells what `shift` spells.
pub open spec fn is_tried(letters: Seq<u8>, shifts: Seq<int>, shift: int) -> bool {
    exists|i: int|
        0 <= i < shifts.len() && #[trigger] shifts[i] <= shift && spell_alike(
            letters,
            shifts[i],
            shift,
        )
}

} // verus!
