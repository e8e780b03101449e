//! Laws of the search: every leaf is the end of a path of placements, what it gained is
//! the sum along the path, and what one more piece changes.

use vstd::prelude::*;

use crate::evaluation::evaluation_of;
use crate::laws::words::{lies_in_row, row_words_lie_side_by_side};
use crate::pieces::Piece;
use crate::placement::{all_placements, cleared_words, full_row_words, full_rows, PlacementModel};
use crate::ranking::{first_items, rank, ranking_keeps_the_items};
use crate::search::{
    advance, beam_after, children, first_beam, is_over, last_beam, leaves_of, over_states,
    result_at, root_states, state_value, state_worth, successors, BeamModel, StateModel,
};
use crate::words::{total_score, WordModel};

verus! {

// ---------------------------------------------------------------------------
// Paths
// ---------------------------------------------------------------------------

/// The board on which placement number `step` of a path was made.
pub open spec fn board_before(board: Seq<u8>, path: Seq<PlacementModel>, step: int) -> Seq<u8> {
    if step == 0 {
        board
    } else {
        path[step - 1].board
    }
}

/// Whether placements follow one another: each is a placement of its piece on the board
/// that the one before left.
pub open spec fn is_path(
    nodes: Seq<u32>,
    board: Seq<u8>,
    sequence: Seq<Piece>,
    path: Seq<PlacementModel>,
) -> bool {
    &&& 1 <= path.len() <= sequence.len()
    &&& forall|step: int|
        0 <= step < path.len() ==> all_placements(
            nodes,
            board_before(board, path, step),
            sequence[step],
        ).contains(#[trigger] path[step])
}

/// Whether `scores` and `lines` are what the placements of a path bring, added up.
pub open spec fn add_up(
    path: Seq<PlacementModel>,
    scores: Seq<int>,
    lines: Seq<int>,
) -> bool {
    &&& scores.len() == path.len()
    &&& lines.len() == path.len()
    &&& path.len() > 0 ==> scores[0] == path[0].score && lines[0] == path[0].lines
    &&& forall|step: int|
        1 <= step < path.len() ==> #[trigger] scores[step] == scores[step - 1] + path[step].score
    &&& forall|step: int|
        1 <= step < path.len() ==> #[trigger] lines[step] == lines[step - 1] + path[step].lines
}

/// Whether the game goes on until the last placement of a path: fewer than forty lines
/// before it.
pub open spec fn goes_on_until_the_end(current_lines: int, lines: Seq<int>) -> bool {
    forall|step: int| 0 <= step < lines.len() - 1 ==> current_lines + #[trigger] lines[step] < 40
}

/// Whether a state is the end of a path: its board, and what the path brings in all.
pub open spec fn ends_path(
    nodes: Seq<u32>,
    state: StateModel,
    path: Seq<PlacementModel>,
    scores: Seq<int>,
    lines: Seq<int>,
) -> bool {
    &&& path.len() > 0
    &&& state.board == path.last().board
    &&& state.score == scores.last()
    &&& state.lines == lines.last()
    &&& state.value == state_value(
        scores.last(),
        lines.last(),
        evaluation_of(nodes, path.last().board).value,
    )
    &&& state.setup_words == evaluation_of(nodes, path.last().board).setup_words
}

/// Whether a state is reached by a path of so many placements from its first one.
pub open spec fn is_reached(
    nodes: Seq<u32>,
    board: Seq<u8>,
    current_lines: int,
    sequence: Seq<Piece>,
    state: StateModel,
    length: int,
) -> bool {
    exists|path: Seq<PlacementModel>, scores: Seq<int>, lines: Seq<int>|
        {
            &&& #[trigger] is_path(nodes, board, sequence, path)
            &&& #[trigger] add_up(path, scores, lines)
            &&& path.len() == length
            &&& goes_on_until_the_end(current_lines, lines)
            &&& ends_path(nodes, state, path, scores, lines)
            &&& 0 <= state.root_index < all_placements(nodes, board, sequence[0]).len()
            &&& path[0] == all_placements(nodes, board, sequence[0])[state.root_index]
        }
}

proof fn lemma_first_state(
    nodes: Seq<u32>,
    board: Seq<u8>,
    current_lines: int,
    sequence: Seq<Piece>,
    index: int,
)
    requires
        sequence.len() >= 1,
        0 <= index < all_placements(nodes, board, sequence[0]).len(),
    ensures
        is_reached(
            nodes,
            board,
            current_lines,
            sequence,
            root_states(nodes, all_placements(nodes, board, sequence[0]))[index],
            1,
        ),
{
    let roots = all_placements(nodes, board, sequence[0]);
    let state = root_states(nodes, roots)[index];
    let path = seq![roots[index]];
    let scores = seq![roots[index].score];
    let lines = seq![roots[index].lines];
    assert(all_placements(nodes, board_before(board, path, 0), sequence[0]).contains(path[0]));
    assert(is_path(nodes, board, sequence, path));
    assert(add_up(path, scores, lines));
}

proof fn lemma_next_state(
    nodes: Seq<u32>,
    board: Seq<u8>,
    current_lines: int,
    sequence: Seq<Piece>,
    state: StateModel,
    length: int,
    place: int,
)
    requires
        1 <= length < sequence.len(),
        is_reached(nodes, board, current_lines, sequence, state, length),
        !is_over(current_lines, state),
        0 <= place < all_placements(nodes, state.board, sequence[length]).len(),
    ensures
        is_reached(
            nodes,
            board,
            current_lines,
            sequence,
            advance(nodes, state, all_placements(nodes, state.board, sequence[length])[place]),
            length + 1,
        ),
{
    let (path, scores, lines) = choose|
        path: Seq<PlacementModel>,
        scores: Seq<int>,
        lines: Seq<int>,
    |
        {
            &&& #[trigger] is_path(nodes, board, sequence, path)
            &&& #[trigger] add_up(path, scores, lines)
            &&& path.len() == length
            &&& goes_on_until_the_end(current_lines, lines)
            &&& ends_path(nodes, state, path, scores, lines)
            &&& 0 <= state.root_index < all_placements(nodes, board, sequence[0]).len()
            &&& path[0] == all_placements(nodes, board, sequence[0])[state.root_index]
        };
    let placement = all_placements(nodes, state.board, sequence[length])[place];
    let longer = path.push(placement);
    let more_scores = scores.push(state.score + placement.score);
    let more_lines = lines.push(state.lines + placement.lines);
    assert(all_placements(nodes, path.last().board, sequence[length]).contains(placement));
    lemma_longer_path(nodes, board, sequence, path, scores, lines, placement);
    lemma_still_going_on(current_lines, lines, state.lines + placement.lines);
    let next = advance(nodes, state, placement);
    assert(ends_path(nodes, next, longer, more_scores, more_lines));
    assert(longer[0] == path[0]);
    assert(is_path(nodes, board, sequence, longer));
    assert(add_up(longer, more_scores, more_lines));
}

proof fn lemma_still_going_on(current_lines: int, lines: Seq<int>, last: int)
    requires
        goes_on_until_the_end(current_lines, lines),
        lines.len() > 0,
        current_lines + lines.last() < 40,
    ensures
        goes_on_until_the_end(current_lines, lines.push(last)),
{
    let more = lines.push(last);
    assert forall|step: int| 0 <= step < more.len() - 1 implies current_lines
        + #[trigger] more[step] < 40 by {
        assert(more[step] == lines[step]);
    }
}

proof fn lemma_longer_path(
    nodes: Seq<u32>,
    board: Seq<u8>,
    sequence: Seq<Piece>,
    path: Seq<PlacementModel>,
    scores: Seq<int>,
    lines: Seq<int>,
    placement: PlacementModel,
)
    requires
        is_path(nodes, board, sequence, path),
        add_up(path, scores, lines),
        path.len() < sequence.len(),
        all_placements(nodes, path.last().board, sequence[path.len() as int]).contains(placement),
    ensures
        is_path(nodes, board, sequence, path.push(placement)),
        add_up(
            path.push(placement),
            scores.push(scores.last() + placement.score),
            lines.push(lines.last() + placement.lines),
        ),
{
    let length = path.len() as int;
    let longer = path.push(placement);
    let more_scores = scores.push(scores.last() + placement.score);
    let more_lines = lines.push(lines.last() + placement.lines);
    assert forall|step: int| 0 <= step < longer.len() implies all_placements(
        nodes,
        board_before(board, longer, step),
        sequence[step],
    ).contains(#[trigger] longer[step]) by {
        if step < length {
            assert(longer[step] == path[step]);
            assert(board_before(board, longer, step) == board_before(board, path, step));
        } else {
            assert(longer[length - 1] == path.last());
        }
    }
    assert forall|step: int| 1 <= step < longer.len() implies #[trigger] more_scores[step]
        == more_scores[step - 1] + longer[step].score by {
        if step < length {
            assert(more_scores[step] == scores[step]);
        }
    }
    assert forall|step: int| 1 <= step < longer.len() implies #[trigger] more_lines[step]
        == more_lines[step - 1] + longer[step].lines by {
        if step < length {
            assert(more_lines[step] == lines[step]);
        }
    }
}

pub proof fn lemma_kept(items: Seq<StateModel>, width: int, index: int) -> (origin: int)
    requires
        0 <= width,
        0 <= index < first_items(rank(items, state_worth()), width).len(),
    ensures
        0 <= origin < items.len(),
        items[origin] == first_items(rank(items, state_worth()), width)[index],
{
    let ranked = rank(items, state_worth());
    let state = first_items(ranked, width)[index];
    assert(state == ranked[index]);
    lemma_ranked_from(items, index)
}

pub proof fn lemma_ranked_from(items: Seq<StateModel>, index: int) -> (origin: int)
    requires
        0 <= index < rank(items, state_worth()).len(),
    ensures
        0 <= origin < items.len(),
        items[origin] == rank(items, state_worth())[index],
{
    let ranked = rank(items, state_worth());
    ranking_keeps_the_items(items, state_worth());
    ranked.to_multiset_ensures();
    items.to_multiset_ensures();
    assert(ranked.contains(ranked[index]));
    assert(items.to_multiset().count(ranked[index]) > 0);
    choose|origin: int| 0 <= origin < items.len() && items[origin] == ranked[index]
}

pub proof fn lemma_ranked_has(items: Seq<StateModel>, origin: int) -> (index: int)
    requires
        0 <= origin < items.len(),
    ensures
        0 <= index < rank(items, state_worth()).len(),
        items[origin] == rank(items, state_worth())[index],
{
    let ranked = rank(items, state_worth());
    ranking_keeps_the_items(items, state_worth());
    ranked.to_multiset_ensures();
    items.to_multiset_ensures();
    assert(items.contains(items[origin]));
    assert(ranked.to_multiset().count(items[origin]) > 0);
    choose|index: int| 0 <= index < ranked.len() && ranked[index] == items[origin]
}

/// Each successor comes from a state in which the game goes on and a placement of the
/// piece on its board.
pub proof fn lemma_successor(
    nodes: Seq<u32>,
    current_lines: int,
    frontier: Seq<StateModel>,
    piece: Piece,
    count: int,
    index: int,
) -> (origin: (int, int))
    requires
        0 <= count <= frontier.len(),
        0 <= index < successors(nodes, current_lines, frontier, piece, count).len(),
    ensures
        0 <= origin.0 < count,
        !is_over(current_lines, frontier[origin.0]),
        0 <= origin.1 < all_placements(nodes, frontier[origin.0].board, piece).len(),
        successors(nodes, current_lines, frontier, piece, count)[index] == advance(
            nodes,
            frontier[origin.0],
            all_placements(nodes, frontier[origin.0].board, piece)[origin.1],
        ),
    decreases count,
{
    let before = successors(nodes, current_lines, frontier, piece, count - 1);
    if index < before.len() {
        lemma_successor(nodes, current_lines, frontier, piece, count - 1, index)
    } else {
        let found = children(nodes, current_lines, frontier[count - 1], piece);
        assert(successors(nodes, current_lines, frontier, piece, count)[index] == found[index
            - before.len()]);
        (count - 1, index - before.len())
    }
}

/// Each state in which the game goes on and each placement on its board lead to a
/// successor.
pub proof fn lemma_successor_of(
    nodes: Seq<u32>,
    current_lines: int,
    frontier: Seq<StateModel>,
    piece: Piece,
    count: int,
    state: int,
    place: int,
) -> (index: int)
    requires
        0 <= state < count <= frontier.len(),
        !is_over(current_lines, frontier[state]),
        0 <= place < all_placements(nodes, frontier[state].board, piece).len(),
    ensures
        0 <= index < successors(nodes, current_lines, frontier, piece, count).len(),
        successors(nodes, current_lines, frontier, piece, count)[index] == advance(
            nodes,
            frontier[state],
            all_placements(nodes, frontier[state].board, piece)[place],
        ),
    decreases count,
{
    let before = successors(nodes, current_lines, frontier, piece, count - 1);
    let found = children(nodes, current_lines, frontier[count - 1], piece);
    assert(successors(nodes, current_lines, frontier, piece, count) == before + found);
    if state < count - 1 {
        let index = lemma_successor_of(
            nodes,
            current_lines,
            frontier,
            piece,
            count - 1,
            state,
            place,
        );
        assert((before + found)[index] == before[index]);
        index
    } else {
        assert((before + found)[before.len() + place] == found[place]);
        before.len() + place
    }
}

pub proof fn lemma_over(current_lines: int, frontier: Seq<StateModel>, count: int, index: int) -> (origin:
    int)
    requires
        0 <= count <= frontier.len(),
        0 <= index < over_states(current_lines, frontier, count).len(),
    ensures
        0 <= origin < count,
        is_over(current_lines, frontier[origin]),
        over_states(current_lines, frontier, count)[index] == frontier[origin],
    decreases count,
{
    let before = over_states(current_lines, frontier, count - 1);
    if index < before.len() {
        lemma_over(current_lines, frontier, count - 1, index)
    } else {
        count - 1
    }
}

pub proof fn lemma_over_has(current_lines: int, frontier: Seq<StateModel>, count: int, state: int) -> (
    index: int)
    requires
        0 <= state < count <= frontier.len(),
        is_over(current_lines, frontier[state]),
    ensures
        0 <= index < over_states(current_lines, frontier, count).len(),
        over_states(current_lines, frontier, count)[index] == frontier[state],
    decreases count,
{
    let before = over_states(current_lines, frontier, count - 1);
    if state < count - 1 {
        lemma_over_has(current_lines, frontier, count - 1, state)
    } else {
        before.len() as int
    }
}

/// What holds of a search at every step: the states of the frontier have been reached by
/// paths of the same length, and finished states are over.
spec fn is_sound(
    nodes: Seq<u32>,
    board: Seq<u8>,
    current_lines: int,
    sequence: Seq<Piece>,
    beam: BeamModel,
) -> bool {
    &&& 1 <= beam.depth <= sequence.len()
    &&& forall|i: int|
        0 <= i < beam.frontier.len() ==> is_reached(
            nodes,
            board,
            current_lines,
            sequence,
            #[trigger] beam.frontier[i],
            beam.depth,
        )
    &&& forall|i: int|
        0 <= i < beam.finished.len() ==> is_finished(
            nodes,
            board,
            current_lines,
            sequence,
            #[trigger] beam.finished[i],
            beam.depth,
        )
}

/// Whether the game is over in a state that a path of at most so many placements reached.
spec fn is_finished(
    nodes: Seq<u32>,
    board: Seq<u8>,
    current_lines: int,
    sequence: Seq<Piece>,
    state: StateModel,
    depth: int,
) -> bool {
    &&& is_over(current_lines, state)
    &&& exists|length: int|
        1 <= length <= depth && #[trigger] is_reached(
            nodes,
            board,
            current_lines,
            sequence,
            state,
            length,
        )
}

proof fn lemma_sound_step(
    nodes: Seq<u32>,
    board: Seq<u8>,
    current_lines: int,
    sequence: Seq<Piece>,
    beam: BeamModel,
    more: Seq<StateModel>,
    depth: int,
)
    requires
        is_sound(nodes, board, current_lines, sequence, beam),
        beam.depth <= depth,
        more == beam.finished + over_states(
            current_lines,
            beam.frontier,
            beam.frontier.len() as int,
        ),
    ensures
        forall|i: int|
            0 <= i < more.len() ==> is_finished(
                nodes,
                board,
                current_lines,
                sequence,
                #[trigger] more[i],
                depth,
            ),
{
    let count = beam.frontier.len() as int;
    assert forall|i: int| 0 <= i < more.len() implies is_finished(
        nodes,
        board,
        current_lines,
        sequence,
        #[trigger] more[i],
        depth,
    ) by {
        if i < beam.finished.len() {
            assert(more[i] == beam.finished[i]);
            let length = choose|length: int|
                1 <= length <= beam.depth && #[trigger] is_reached(
                    nodes,
                    board,
                    current_lines,
                    sequence,
                    beam.finished[i],
                    length,
                );
            assert(is_reached(nodes, board, current_lines, sequence, more[i], length));
        } else {
            let origin = lemma_over(
                current_lines,
                beam.frontier,
                count,
                i - beam.finished.len(),
            );
            assert(more[i] == beam.frontier[origin]);
            assert(is_reached(nodes, board, current_lines, sequence, more[i], beam.depth));
        }
    }
}

proof fn lemma_sound(
    nodes: Seq<u32>,
    board: Seq<u8>,
    current_lines: int,
    sequence: Seq<Piece>,
    width: int,
    ply: int,
    beam: BeamModel,
)
    requires
        0 <= width,
        1 <= ply <= sequence.len(),
        beam.depth == ply,
        is_sound(nodes, board, current_lines, sequence, beam),
    ensures
        is_sound(
            nodes,
            board,
            current_lines,
            sequence,
            beam_after(nodes, current_lines, sequence, width, ply, beam),
        ),
    decreases sequence.len() - ply,
{
    if ply < sequence.len() {
        let count = beam.frontier.len() as int;
        let next = successors(nodes, current_lines, beam.frontier, sequence[ply], count);
        let finished = beam.finished + over_states(current_lines, beam.frontier, count);
        if next.len() == 0 {
            lemma_sound_step(nodes, board, current_lines, sequence, beam, finished, beam.depth);
        } else {
            lemma_sound_step(nodes, board, current_lines, sequence, beam, finished, ply + 1);
            let frontier = first_items(rank(next, state_worth()), width);
            assert forall|i: int| 0 <= i < frontier.len() implies is_reached(
                nodes,
                board,
                current_lines,
                sequence,
                #[trigger] frontier[i],
                ply + 1,
            ) by {
                let origin = lemma_kept(next, width, i);
                let (state, place) = lemma_successor(
                    nodes,
                    current_lines,
                    beam.frontier,
                    sequence[ply],
                    count,
                    origin,
                );
                lemma_next_state(
                    nodes,
                    board,
                    current_lines,
                    sequence,
                    beam.frontier[state],
                    ply,
                    place,
                );
            }
            let after = BeamModel {
                frontier,
                finished,
                depth: ply + 1,
                nodes: beam.nodes + next.len(),
            };
            lemma_sound(nodes, board, current_lines, sequence, width, ply + 1, after);
        }
    }
}

proof fn lemma_last_beam(
    nodes: Seq<u32>,
    board: Seq<u8>,
    current_lines: int,
    sequence: Seq<Piece>,
    width: int,
)
    requires
        0 <= width,
        sequence.len() >= 1,
    ensures
        is_sound(
            nodes,
            board,
            current_lines,
            sequence,
            last_beam(nodes, board, current_lines, sequence, width),
        ),
{
    let roots = all_placements(nodes, board, sequence[0]);
    let states = root_states(nodes, roots);
    let first = first_beam(nodes, roots, width);
    assert forall|i: int| 0 <= i < first.frontier.len() implies is_reached(
        nodes,
        board,
        current_lines,
        sequence,
        #[trigger] first.frontier[i],
        1,
    ) by {
        let origin = lemma_kept(states, width, i);
        lemma_first_state(nodes, board, current_lines, sequence, origin);
    }
    lemma_sound(nodes, board, current_lines, sequence, width, 1, first);
}

/// Every leaf of a search is the end of a path of placements, one per piece placed. Its
/// score and its lines are those of all placements on the path together, its value is
/// that of the board at the end with them, and the path begins with the leaf's first
/// placement. The path is as long as the search is deep, or the game ended with it.
pub proof fn every_leaf_is_the_end_of_a_path(
    nodes: Seq<u32>,
    board: Seq<u8>,
    current_lines: int,
    sequence: Seq<Piece>,
    width: int,
    leaf: int,
)
    requires
        0 <= width,
        sequence.len() >= 1,
        0 <= leaf < leaves_of(nodes, board, current_lines, sequence, width).states.len(),
    ensures
        ({
            let leaves = leaves_of(nodes, board, current_lines, sequence, width);
            exists|length: int|
                {
                    &&& 1 <= length <= sequence.len()
                    &&& #[trigger] is_reached(
                        nodes,
                        board,
                        current_lines,
                        sequence,
                        leaves.states[leaf],
                        length,
                    )
                    &&& length == last_beam(
                        nodes,
                        board,
                        current_lines,
                        sequence,
                        width,
                    ).depth || current_lines + leaves.states[leaf].lines >= 40
                }
        }),
{
    let beam = last_beam(nodes, board, current_lines, sequence, width);
    let leaves = leaves_of(nodes, board, current_lines, sequence, width);
    lemma_last_beam(nodes, board, current_lines, sequence, width);
    let both = beam.frontier + beam.finished;
    let origin = lemma_ranked_from(both, leaf);
    let state = leaves.states[leaf];
    if origin < beam.frontier.len() {
        assert(state == beam.frontier[origin]);
        assert(is_reached(nodes, board, current_lines, sequence, state, beam.depth));
    } else {
        let place = origin - beam.frontier.len();
        assert(state == beam.finished[place]);
        assert(is_finished(
            nodes,
            board,
            current_lines,
            sequence,
            beam.finished[place],
            beam.depth,
        ));
        let length = choose|length: int|
            1 <= length <= beam.depth && #[trigger] is_reached(
                nodes,
                board,
                current_lines,
                sequence,
                beam.finished[place],
                length,
            );
        assert(is_reached(nodes, board, current_lines, sequence, state, length));
    }
}

// ---------------------------------------------------------------------------
// What is gained
// ---------------------------------------------------------------------------

proof fn lemma_words_add(words: Seq<WordModel>)
    requires
        forall|i: int| 0 <= i < words.len() ==> (#[trigger] words[i]).score >= 0,
    ensures
        total_score(words) >= 0,
    decreases words.len(),
{
    if words.len() > 0 {
        lemma_words_add(words.drop_last());
    }
}

proof fn lemma_banked_words(nodes: Seq<u32>, board: Seq<u8>, limit: int)
    ensures
        forall|i: int|
            0 <= i < full_row_words(nodes, board, limit).len() ==> (#[trigger] full_row_words(
                nodes,
                board,
                limit,
            )[i]).score >= 0,
        full_rows(board, limit) >= 0,
    decreases limit,
{
    if limit > 0 {
        lemma_banked_words(nodes, board, limit - 1);
        let row = crate::board::row_of(board, limit - 1);
        let found = crate::words::row_words(nodes, row);
        row_words_lie_side_by_side(nodes, row);
        let before = full_row_words(nodes, board, limit - 1);
        let words = full_row_words(nodes, board, limit);
        assert forall|i: int| 0 <= i < words.len() implies (#[trigger] words[i]).score >= 0 by {
            if i < before.len() {
                assert(words[i] == before[i]);
            } else {
                assert(words[i] == found[i - before.len()]);
                assert(lies_in_row(nodes, row, found[i - before.len()]));
            }
        }
    }
}

/// No placement costs points or lines.
pub proof fn placements_bring_no_less_than_nothing(
    nodes: Seq<u32>,
    board: Seq<u8>,
    piece: Piece,
    index: int,
)
    requires
        board.len() == 220,
        piece.valid(),
        0 <= index < all_placements(nodes, board, piece).len(),
    ensures
        all_placements(nodes, board, piece)[index].score >= 0,
        all_placements(nodes, board, piece)[index].lines >= 0,
        all_placements(nodes, board, piece)[index].board.len() == 220,
{
    let placement = all_placements(nodes, board, piece)[index];
    crate::laws::placements::every_placement_is_a_rest(nodes, board, piece, index);
    let (start, placed) = choose|start: int, placed: Seq<u8>|
        {
            &&& crate::laws::placements::touches_the_top(
                piece.kind as int,
                placement.rotation,
                start,
            )
            &&& #[trigger] crate::laws::placements::falls_to(
                board,
                piece.kind as int,
                placement.rotation,
                start,
                placement.row,
                placement.col,
            )
            &&& #[trigger] crate::laws::placements::shows_piece(
                board,
                placed,
                piece,
                placement.letter_shift,
                placement.rotation,
                placement.row,
                placement.col,
            )
            &&& placement.board == crate::placement::collapsed(placed)
            &&& placement.lines == full_rows(placed, 22)
            &&& placement.words == cleared_words(nodes, placed)
            &&& placement.score == total_score(placement.words)
        };
    lemma_banked_words(nodes, placed, 22);
    let words = cleared_words(nodes, placed);
    assert forall|i: int| 0 <= i < words.len() implies (#[trigger] words[i]).score >= 0 by {
        assert(words[i] == full_row_words(nodes, placed, 22)[i]);
    }
    lemma_words_add(words);
    crate::laws::clearing::cleared_lines_leave_empty_rows_at_the_top(placed);
}

proof fn lemma_sums_grow(
    nodes: Seq<u32>,
    board: Seq<u8>,
    sequence: Seq<Piece>,
    path: Seq<PlacementModel>,
    scores: Seq<int>,
    lines: Seq<int>,
    step: int,
)
    requires
        board.len() == 220,
        forall|i: int| 0 <= i < sequence.len() ==> (#[trigger] sequence[i]).valid(),
        is_path(nodes, board, sequence, path),
        add_up(path, scores, lines),
        0 <= step < path.len(),
    ensures
        path[step].board.len() == 220,
        path[step].score >= 0,
        path[step].lines >= 0,
        scores[step] >= scores[0] >= 0,
        lines[step] >= lines[0] >= 0,
        scores[step] >= path[step].score,
        lines[step] >= path[step].lines,
    decreases step,
{
    let here = board_before(board, path, step);
    if step > 0 {
        lemma_sums_grow(nodes, board, sequence, path, scores, lines, step - 1);
        assert(scores[step] == scores[step - 1] + path[step].score);
        assert(lines[step] == lines[step - 1] + path[step].lines);
    }
    assert(sequence[step].valid());
    assert(all_placements(nodes, here, sequence[step]).contains(path[step]));
    let index = choose|index: int|
        0 <= index < all_placements(nodes, here, sequence[step]).len() && all_placements(
            nodes,
            here,
            sequence[step],
        )[index] == path[step];
    placements_bring_no_less_than_nothing(nodes, here, sequence[step], index);
}

/// What a recommendation projects is no less than what its first placement brings at
/// once, in points and in lines.
pub proof fn projections_hold_what_is_banked_at_once(
    nodes: Seq<u32>,
    board: Seq<u8>,
    current_lines: int,
    sequence: Seq<Piece>,
    width: int,
    leaf: int,
)
    requires
        board.len() == 220,
        0 <= width,
        sequence.len() >= 1,
        forall|i: int| 0 <= i < sequence.len() ==> (#[trigger] sequence[i]).valid(),
        0 <= leaf < leaves_of(nodes, board, current_lines, sequence, width).states.len(),
    ensures
        ({
            let result = result_at(
                nodes,
                leaves_of(nodes, board, current_lines, sequence, width),
                leaf,
            );
            &&& result.projected_score >= result.root.score >= 0
            &&& result.projected_lines >= result.root.lines >= 0
        }),
{
    let leaves = leaves_of(nodes, board, current_lines, sequence, width);
    every_leaf_is_the_end_of_a_path(nodes, board, current_lines, sequence, width, leaf);
    let state = leaves.states[leaf];
    let length = choose|length: int|
        {
            &&& 1 <= length <= sequence.len()
            &&& #[trigger] is_reached(nodes, board, current_lines, sequence, state, length)
            &&& length == last_beam(nodes, board, current_lines, sequence, width).depth
                || current_lines + state.lines >= 40
        };
    let (path, scores, lines) = choose|
        path: Seq<PlacementModel>,
        scores: Seq<int>,
        lines: Seq<int>,
    |
        {
            &&& #[trigger] is_path(nodes, board, sequence, path)
            &&& #[trigger] add_up(path, scores, lines)
            &&& path.len() == length
            &&& goes_on_until_the_end(current_lines, lines)
            &&& ends_path(nodes, state, path, scores, lines)
            &&& 0 <= state.root_index < all_placements(nodes, board, sequence[0]).len()
            &&& path[0] == all_placements(nodes, board, sequence[0])[state.root_index]
        };
    lemma_sums_grow(nodes, board, sequence, path, scores, lines, length - 1);
    lemma_sums_grow(nodes, board, sequence, path, scores, lines, 0);
}

} // verus!
