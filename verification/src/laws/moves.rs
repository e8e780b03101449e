//! Laws of chosen moves: where the piece goes, what the move brings at once, and that no
//! end of the search is worth more than the one it leads to.

use vstd::prelude::*;

use crate::binary64::half_up;
use crate::episode::{chosen_move, MovePolicy};
use crate::evaluation::evaluation_of;
use crate::laws::search::{
    add_up, ends_path, every_leaf_is_the_end_of_a_path, goes_on_until_the_end, is_path, is_reached,
    placements_bring_no_less_than_nothing, projections_hold_what_is_banked_at_once,
};
use crate::native::{
    beam_width, is_valid_sequence, outcome_of, spelled_all, spelled_words, OutcomeModel, Piece,
    Strategy,
};
use crate::placement::{all_placements, PlacementModel};
use crate::ranking::{first_items, rank, ranking_is_sorted, ranking_keeps_the_items};
use crate::roots::{distinct_roots, is_picked, root_board};
use crate::search::{
    a_search_stays_within_its_bounds, beam_after, first_beam, last_beam, leaves_of, over_states,
    result_at, root_states, state_worth, successors, BeamModel, LeavesModel, ResultModel,
    StateModel,
};

verus! {

proof fn lemma_frontier_is_kept(
    nodes: Seq<u32>,
    current_lines: int,
    sequence: Seq<Piece>,
    width: int,
    ply: int,
    beam: BeamModel,
)
    requires
        width >= 1,
        beam.frontier.len() >= 1,
    ensures
        beam_after(nodes, current_lines, sequence, width, ply, beam).frontier.len() >= 1,
    decreases sequence.len() - ply,
{
    if ply < sequence.len() {
        let count = beam.frontier.len() as int;
        let next = successors(nodes, current_lines, beam.frontier, sequence[ply], count);
        if next.len() > 0 {
            ranking_keeps_the_items(next, state_worth());
            let after = BeamModel {
                frontier: first_items(rank(next, state_worth()), width),
                finished: beam.finished + over_states(current_lines, beam.frontier, count),
                depth: ply + 1,
                nodes: beam.nodes + next.len(),
            };
            lemma_frontier_is_kept(nodes, current_lines, sequence, width, ply + 1, after);
        }
    }
}

/// A search in which the first piece fits somewhere has an end to recommend.
pub proof fn a_search_with_a_move_has_a_leaf(
    nodes: Seq<u32>,
    board: Seq<u8>,
    current_lines: int,
    sequence: Seq<Piece>,
    width: int,
)
    requires
        width >= 1,
        all_placements(nodes, board, sequence[0]).len() >= 1,
    ensures
        leaves_of(nodes, board, current_lines, sequence, width).states.len() >= 1,
{
    let roots = all_placements(nodes, board, sequence[0]);
    ranking_keeps_the_items(root_states(nodes, roots), state_worth());
    lemma_frontier_is_kept(
        nodes,
        current_lines,
        sequence,
        width,
        1,
        first_beam(nodes, roots, width),
    );
    let beam = last_beam(nodes, board, current_lines, sequence, width);
    ranking_keeps_the_items(beam.frontier + beam.finished, state_worth());
}

/// Whether a move makes a placement: it says where the piece goes, what board is left,
/// and what is banked at once.
pub open spec fn makes(outcome: OutcomeModel, placement: PlacementModel) -> bool {
    &&& outcome.board == placement.board
    &&& outcome.letter_shift == placement.letter_shift
    &&& outcome.rotation == placement.rotation
    &&& outcome.row == placement.row
    &&& outcome.col == placement.col
    &&& outcome.immediate_score == placement.score
    &&& outcome.immediate_lines == placement.lines
    &&& outcome.immediate_words == spelled_words(placement.words)
}

/// Whether a move is the first of a way to a state: the state is reached by placements
/// of which this is the first, and what it has gained is what the move projects.
pub open spec fn leads_to(
    nodes: Seq<u32>,
    board: Seq<u8>,
    lines: int,
    sequence: Seq<Piece>,
    outcome: OutcomeModel,
    state: StateModel,
    length: int,
) -> bool {
    &&& 1 <= length <= sequence.len()
    &&& is_reached(nodes, board, lines, sequence, state, length)
    &&& makes(outcome, all_placements(nodes, board, sequence[0])[state.root_index])
    &&& outcome.projected_score == state.score
    &&& outcome.projected_lines == state.lines
}

/// A move is found exactly where the position can be searched, and it then places the
/// first piece. It leads to an end of the search that no other end is worth more than,
/// projects what that end has gained, and that is no less than what it brings at once.
pub proof fn the_usual_move_leads_to_a_best_end(
    strategy: Strategy,
    width: usize,
    board: Seq<u8>,
    lines: int,
    sequence: Seq<Piece>,
)
    requires
        board.len() == 220,
        strategy.can_search(board, sequence),
    ensures
        chosen_move(strategy, MovePolicy::Best { width }, board, lines, sequence) matches Some(
            outcome,
        ) && {
            let nodes = strategy.nodes();
            let leaves = strategy.leaves(board, lines, sequence, width as int);
            let best = leaves.states[0];
            &&& 0 <= best.root_index < all_placements(nodes, board, sequence[0]).len()
            &&& makes(outcome, all_placements(nodes, board, sequence[0])[best.root_index])
            &&& exists|length: int| #[trigger]
                leads_to(nodes, board, lines, sequence, outcome, best, length)
            &&& forall|i: int|
                0 <= i < leaves.states.len() ==> (#[trigger] leaves.states[i]).value <= best.value
            &&& outcome.projected_score >= outcome.immediate_score >= 0
            &&& outcome.projected_lines >= outcome.immediate_lines >= 0
            &&& outcome.board.len() == 220
        },
{
    let nodes = strategy.nodes();
    let wide = beam_width(width as int);
    let leaves = leaves_of(nodes, board, lines, sequence, wide);
    a_search_with_a_move_has_a_leaf(nodes, board, lines, sequence, wide);
    every_leaf_is_the_end_of_a_path(nodes, board, lines, sequence, wide, 0);
    projections_hold_what_is_banked_at_once(nodes, board, lines, sequence, wide, 0);
    let best = leaves.states[0];
    let length = choose|length: int|
        {
            &&& 1 <= length <= sequence.len()
            &&& #[trigger] is_reached(nodes, board, lines, sequence, best, length)
            &&& length == last_beam(nodes, board, lines, sequence, wide).depth || lines
                + best.lines >= 40
        };
    let outcome = crate::native::outcome_of(result_at(nodes, leaves, 0));
    assert(sequence[0].valid());
    placements_bring_no_less_than_nothing(nodes, board, sequence[0], best.root_index);
    assert(leads_to(nodes, board, lines, sequence, outcome, best, length));
    let beam = last_beam(nodes, board, lines, sequence, wide);
    ranking_is_sorted(beam.frontier + beam.finished, state_worth());
    assert forall|i: int| 0 <= i < leaves.states.len() implies (#[trigger] leaves.states[i]).value
        <= best.value by {
        assert(state_worth()(leaves.states[0]) >= state_worth()(leaves.states[i]));
    }
}

/// Where a position cannot be searched, no move is chosen.
pub proof fn no_move_is_made_where_none_is_left(
    strategy: Strategy,
    policy: MovePolicy,
    board: Seq<u8>,
    lines: int,
    sequence: Seq<Piece>,
)
    requires
        !is_valid_sequence(sequence) || all_placements(
            strategy.nodes(),
            board,
            sequence[0],
        ).len() == 0,
    ensures
        chosen_move(strategy, policy, board, lines, sequence).is_none(),
{
}

/// A leaf holds the words to set up on its own board.
pub proof fn a_leaf_names_its_own_words(
    nodes: Seq<u32>,
    board: Seq<u8>,
    lines: int,
    sequence: Seq<Piece>,
    width: int,
    leaf: int,
)
    requires
        board.len() == 220,
        0 <= width,
        is_valid_sequence(sequence),
        0 <= leaf < leaves_of(nodes, board, lines, sequence, width).states.len(),
    ensures
        ({
            let best = leaves_of(nodes, board, lines, sequence, width).states[leaf];
            best.setup_words == evaluation_of(nodes, best.board).setup_words
        }),
{
    every_leaf_is_the_end_of_a_path(nodes, board, lines, sequence, width, leaf);
    let best = leaves_of(nodes, board, lines, sequence, width).states[leaf];
    let length = choose|length: int|
        {
            &&& 1 <= length <= sequence.len()
            &&& #[trigger] is_reached(nodes, board, lines, sequence, best, length)
            &&& length == last_beam(nodes, board, lines, sequence, width).depth || lines
                + best.lines >= 40
        };
    let (path, scores, gains) = choose|
        path: Seq<PlacementModel>,
        scores: Seq<int>,
        gains: Seq<int>,
    |
        {
            &&& #[trigger] is_path(nodes, board, sequence, path)
            &&& #[trigger] add_up(path, scores, gains)
            &&& path.len() == length
            &&& goes_on_until_the_end(lines, gains)
            &&& ends_path(nodes, best, path, scores, gains)
            &&& 0 <= best.root_index < all_placements(nodes, board, sequence[0]).len()
            &&& path[0] == all_placements(nodes, board, sequence[0])[best.root_index]
        };
    assert(ends_path(nodes, best, path, scores, gains));
}

/// A recommendation names the words to set up on the board that it leaves, or else those
/// on the board that it leads to.
pub proof fn words_are_named_near_or_far(nodes: Seq<u32>, leaves: LeavesModel, leaf: int)
    ensures
        ({
            let result = result_at(nodes, leaves, leaf);
            let near = evaluation_of(nodes, result.root.board).setup_words;
            &&& near.len() > 0 ==> result.setup_words == near
            &&& near.len() == 0 ==> result.setup_words == leaves.states[leaf].setup_words
        }),
{
}

/// A search tells how many pieces it has looked at and, as far as a word can hold it, how
/// many states it has counted.
pub proof fn a_search_tells_how_far_it_went(
    nodes: Seq<u32>,
    board: Seq<u8>,
    lines: int,
    sequence: Seq<Piece>,
    width: int,
)
    requires
        0 <= width,
        1 <= sequence.len() <= 255,
    ensures
        ({
            let beam = last_beam(nodes, board, lines, sequence, width);
            let leaves = leaves_of(nodes, board, lines, sequence, width);
            &&& 1 <= leaves.depth <= sequence.len()
            &&& leaves.depth == beam.depth
            &&& beam.nodes < 0x1_0000_0000 ==> leaves.nodes == beam.nodes
        }),
{
    a_search_stays_within_its_bounds(nodes, board, lines, sequence, width);
}

/// A move says what its recommendation says.
pub proof fn moves_say_what_is_recommended(result: ResultModel)
    ensures
        outcome_of(result).projected_score == result.projected_score,
        outcome_of(result).projected_lines == result.projected_lines,
        outcome_of(result).setup_words == spelled_all(result.setup_words),
        outcome_of(result).depth == result.depth,
        outcome_of(result).nodes == result.nodes,
        outcome_of(result).evaluation == result.evaluation,
        makes(outcome_of(result), result.root),
{
}

/// A recommendation is the leaf that it was made from, told as numbers: what was gained,
/// the depth and the count of its search, and the leaf's value as a whole number.
pub proof fn a_recommendation_tells_its_leaf(nodes: Seq<u32>, leaves: LeavesModel, leaf: int)
    ensures
        result_at(nodes, leaves, leaf).evaluation == half_up(leaves.states[leaf].value),
        result_at(nodes, leaves, leaf).projected_score == leaves.states[leaf].score,
        result_at(nodes, leaves, leaf).projected_lines == leaves.states[leaf].lines,
        result_at(nodes, leaves, leaf).depth == leaves.depth,
        result_at(nodes, leaves, leaf).nodes == leaves.nodes,
        result_at(nodes, leaves, leaf).root == leaves.roots[leaves.states[leaf].root_index],
{
}

/// A search is as wide as it was asked to be, but no narrower than twelve and no wider
/// than a hundred and sixty.
pub proof fn widths_stay_within_bounds(width: int)
    ensures
        12 <= beam_width(width) <= 160,
        12 <= width <= 160 ==> beam_width(width) == width,
        width < 12 ==> beam_width(width) == 12,
        width > 160 ==> beam_width(width) == 160,
{
}

/// The first items of a list are as many as were asked for, or all of them, in order.
pub proof fn first_items_are_a_beginning<A>(items: Seq<A>, count: int)
    requires
        0 <= count,
    ensures
        first_items(items, count).len() <= count,
        first_items(items, count).len() <= items.len(),
        first_items(items, count).len() == count || first_items(items, count).len() == items.len(),
        forall|i: int|
            0 <= i < first_items(items, count).len() ==> #[trigger] first_items(items, count)[i]
                == items[i],
{
}

proof fn lemma_first_picks(leaves: LeavesModel, limit: int, count: int)
    requires
        0 <= limit,
        0 <= count,
    ensures
        ({
            let picks = distinct_roots(leaves, limit, count);
            &&& forall|i: int| 0 <= i < picks.len() ==> 0 <= #[trigger] picks[i] < count
            &&& picks.len() < limit ==> forall|leaf: int|
                0 <= leaf < count ==> #[trigger] is_picked(leaves, picks, leaf)
            &&& forall|i: int, leaf: int|
                0 <= i < picks.len() && 0 <= leaf < picks[i] ==> #[trigger] root_board(
                    leaves,
                    leaf,
                ) != root_board(leaves, #[trigger] picks[i])
        }),
    decreases count,
{
    if count > 0 {
        lemma_first_picks(leaves, limit, count - 1);
        let before = distinct_roots(leaves, limit, count - 1);
        let picks = distinct_roots(leaves, limit, count);
        assert forall|i: int, leaf: int|
            0 <= i < picks.len() && 0 <= leaf < picks[i] implies #[trigger] root_board(leaves, leaf)
            != root_board(leaves, #[trigger] picks[i]) by {
            if i < before.len() {
                assert(picks[i] == before[i]);
            } else {
                assert(is_picked(leaves, before, leaf));
                let k = choose|k: int|
                    0 <= k < before.len() && root_board(leaves, #[trigger] before[k])
                        == root_board(leaves, leaf);
                if root_board(leaves, leaf) == root_board(leaves, picks[i]) {
                    assert(root_board(leaves, before[k]) == root_board(leaves, count - 1));
                    assert(is_picked(leaves, before, count - 1));
                }
            }
        }
        if picks.len() < limit {
            assert forall|leaf: int| 0 <= leaf < count implies #[trigger] is_picked(
                leaves,
                picks,
                leaf,
            ) by {
                if is_picked(leaves, before, leaf) {
                    let k = choose|k: int|
                        0 <= k < before.len() && root_board(leaves, #[trigger] before[k])
                            == root_board(leaves, leaf);
                    assert(picks[k] == before[k]);
                } else {
                    assert(leaf == count - 1);
                    assert(picks[before.len() as int] == leaf);
                }
            }
        }
    }
}

/// Each candidate stands for the first leaf, and so the best, that starts with its board.
pub proof fn candidates_stand_for_their_best_leaf(
    leaves: LeavesModel,
    limit: int,
    pick: int,
    leaf: int,
)
    requires
        0 <= limit,
        0 <= pick < distinct_roots(leaves, limit, leaves.states.len() as int).len(),
        0 <= leaf < leaves.states.len(),
        root_board(leaves, leaf) == root_board(
            leaves,
            distinct_roots(leaves, limit, leaves.states.len() as int)[pick],
        ),
    ensures
        distinct_roots(leaves, limit, leaves.states.len() as int)[pick] <= leaf,
{
    lemma_first_picks(leaves, limit, leaves.states.len() as int);
}

} // verus!
