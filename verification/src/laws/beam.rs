//! Laws of the beam: what one more piece does to a search, and what a beam with room for
//! everything finds.

use vstd::prelude::*;

use crate::evaluation::evaluation_of;
use crate::laws::counting::{lemma_sections, sections};
use crate::laws::search::{
    add_up, board_before, goes_on_until_the_end, is_path, lemma_kept, lemma_over_has,
    lemma_ranked_has, lemma_successor, lemma_successor_of,
};
use crate::pieces::Piece;
use crate::placement::{all_placements, PlacementModel};
use crate::ranking::{first_items, rank, ranking_is_sorted, ranking_keeps_the_items};
use crate::search::{
    beam_after, children, first_beam, last_beam, leaves_of, lemma_beam_after, over_states,
    root_states, state_value, state_worth, successors, BeamModel, StateModel,
};

verus! {

// ---------------------------------------------------------------------------
// One more piece
// ---------------------------------------------------------------------------

/// Whether a state follows from another by a placement.
pub open spec fn follows(
    nodes: Seq<u32>,
    state: StateModel,
    placement: PlacementModel,
    next: StateModel,
) -> bool {
    &&& next.board == placement.board
    &&& next.score == state.score + placement.score
    &&& next.lines == state.lines + placement.lines
    &&& next.root_index == state.root_index
    &&& next.value == state_value(
        next.score,
        next.lines,
        evaluation_of(nodes, placement.board).value,
    )
    &&& next.setup_words == evaluation_of(nodes, placement.board).setup_words
}

/// The moves that a piece has from a frontier: a state with fewer than forty lines, and a
/// placement on its board.
pub open spec fn moves_from(
    nodes: Seq<u32>,
    current_lines: int,
    frontier: Seq<StateModel>,
    piece: Piece,
) -> Set<(int, int)> {
    Set::new(
        |at: (int, int)|
            {
                &&& 0 <= at.0 < frontier.len()
                &&& current_lines + frontier[at.0].lines < 40
                &&& 0 <= at.1 < all_placements(nodes, frontier[at.0].board, piece).len()
            },
    )
}

spec fn child_places(
    nodes: Seq<u32>,
    current_lines: int,
    frontier: Seq<StateModel>,
    piece: Piece,
    state: int,
) -> Set<int> {
    vstd::set_lib::set_int_range(
        0,
        children(nodes, current_lines, frontier[state], piece).len() as int,
    )
}

proof fn lemma_moves(
    nodes: Seq<u32>,
    current_lines: int,
    frontier: Seq<StateModel>,
    piece: Piece,
    count: int,
)
    requires
        0 <= count <= frontier.len(),
    ensures
        sections(
            |state: int| child_places(nodes, current_lines, frontier, piece, state),
            count,
        ).len() == successors(nodes, current_lines, frontier, piece, count).len(),
    decreases count,
{
    let inside = |state: int| child_places(nodes, current_lines, frontier, piece, state);
    assert forall|state: int| (#[trigger] inside(state)).finite() by {
        vstd::set_lib::lemma_int_range(
            0,
            children(nodes, current_lines, frontier[state], piece).len() as int,
        );
    }
    if count > 0 {
        lemma_moves(nodes, current_lines, frontier, piece, count - 1);
        lemma_sections(inside, count - 1);
        vstd::set_lib::lemma_int_range(
            0,
            children(nodes, current_lines, frontier[count - 1], piece).len() as int,
        );
    } else {
        lemma_sections(inside, 0);
    }
}

proof fn lemma_moves_counted(
    nodes: Seq<u32>,
    current_lines: int,
    frontier: Seq<StateModel>,
    piece: Piece,
)
    ensures
        moves_from(nodes, current_lines, frontier, piece).len() == successors(
            nodes,
            current_lines,
            frontier,
            piece,
            frontier.len() as int,
        ).len(),
{
    let count = frontier.len() as int;
    lemma_moves(nodes, current_lines, frontier, piece, count);
    let found = sections(
        |state: int| child_places(nodes, current_lines, frontier, piece, state),
        count,
    );
    let wanted = moves_from(nodes, current_lines, frontier, piece);
    assert forall|at: (int, int)| found.contains(at) == wanted.contains(at) by {}
    assert(found =~= wanted);
}

proof fn lemma_prefix(
    nodes: Seq<u32>,
    current_lines: int,
    sequence: Seq<Piece>,
    width: int,
    pieces: int,
    ply: int,
    beam: BeamModel,
)
    requires
        1 <= ply <= pieces < sequence.len(),
        beam.depth == ply,
    ensures
        ({
            let before = beam_after(
                nodes,
                current_lines,
                sequence.take(pieces),
                width,
                ply,
                beam,
            );
            let after = beam_after(
                nodes,
                current_lines,
                sequence.take(pieces + 1),
                width,
                ply,
                beam,
            );
            &&& before.depth <= pieces
            &&& before.depth < pieces ==> after == before
            &&& before.depth == pieces ==> after == beam_after(
                nodes,
                current_lines,
                sequence.take(pieces + 1),
                width,
                pieces,
                before,
            )
        }),
    decreases pieces - ply,
{
    if ply < pieces {
        let count = beam.frontier.len() as int;
        let next = successors(nodes, current_lines, beam.frontier, sequence[ply], count);
        let finished = beam.finished + over_states(current_lines, beam.frontier, count);
        assert(sequence.take(pieces)[ply] == sequence[ply]);
        assert(sequence.take(pieces + 1)[ply] == sequence[ply]);
        if next.len() > 0 {
            lemma_prefix(
                nodes,
                current_lines,
                sequence,
                width,
                pieces,
                ply + 1,
                BeamModel {
                    frontier: first_items(rank(next, state_worth()), width),
                    finished,
                    depth: ply + 1,
                    nodes: beam.nodes + next.len(),
                },
            );
        }
    }
}

/// The search after one more piece, where the search before went to its last piece.
proof fn lemma_last_step(
    nodes: Seq<u32>,
    board: Seq<u8>,
    current_lines: int,
    sequence: Seq<Piece>,
    width: int,
    pieces: int,
)
    requires
        1 <= pieces < sequence.len(),
    ensures
        ({
            let before = last_beam(nodes, board, current_lines, sequence.take(pieces), width);
            let after = last_beam(nodes, board, current_lines, sequence.take(pieces + 1), width);
            let count = before.frontier.len() as int;
            let next = successors(
                nodes,
                current_lines,
                before.frontier,
                sequence[pieces],
                count,
            );
            let finished = before.finished + over_states(current_lines, before.frontier, count);
            &&& before.depth <= pieces
            &&& before.depth < pieces ==> after == before
            &&& before.depth == pieces && next.len() == 0 ==> after == (BeamModel {
                finished,
                ..before
            })
            &&& before.depth == pieces && next.len() > 0 ==> after == (BeamModel {
                frontier: first_items(rank(next, state_worth()), width),
                finished,
                depth: pieces + 1,
                nodes: before.nodes + next.len(),
            })
        }),
{
    let roots = all_placements(nodes, board, sequence[0]);
    assert(sequence.take(pieces)[0] == sequence[0]);
    assert(sequence.take(pieces + 1)[0] == sequence[0]);
    let first = first_beam(nodes, roots, width);
    lemma_prefix(nodes, current_lines, sequence, width, pieces, 1, first);
    let before = last_beam(nodes, board, current_lines, sequence.take(pieces), width);
    let longer = sequence.take(pieces + 1);
    assert(longer[pieces] == sequence[pieces]);
    reveal_with_fuel(beam_after, 2);
}

/// A search that ended before its last piece is not changed by one more piece. Else one
/// more piece is tried from every state of the frontier in which the game goes on, with
/// every placement: as many nodes are counted as there are such moves. If there is none,
/// frontier and depth stay; if there is one, the search is one piece deeper and keeps as
/// many states as the beam is wide, or all.
pub proof fn one_more_piece_tries_every_move(
    nodes: Seq<u32>,
    board: Seq<u8>,
    current_lines: int,
    sequence: Seq<Piece>,
    width: int,
    pieces: int,
)
    requires
        0 <= width,
        1 <= pieces < sequence.len(),
    ensures
        ({
            let before = last_beam(nodes, board, current_lines, sequence.take(pieces), width);
            let after = last_beam(nodes, board, current_lines, sequence.take(pieces + 1), width);
            let moves = moves_from(
                nodes,
                current_lines,
                before.frontier,
                sequence[pieces],
            ).len();
            &&& before.depth < pieces ==> after == before
            &&& before.depth == pieces ==> after.nodes == before.nodes + moves
            &&& before.depth == pieces && moves == 0 ==> after.depth == pieces && after.frontier
                == before.frontier
            &&& before.depth == pieces && moves > 0 ==> after.depth == pieces + 1
                && after.frontier.len() == vstd::math::min(width, moves as int)
        }),
{
    let before = last_beam(nodes, board, current_lines, sequence.take(pieces), width);
    lemma_last_step(nodes, board, current_lines, sequence, width, pieces);
    lemma_moves_counted(nodes, current_lines, before.frontier, sequence[pieces]);
    let next = successors(
        nodes,
        current_lines,
        before.frontier,
        sequence[pieces],
        before.frontier.len() as int,
    );
    ranking_keeps_the_items(next, state_worth());
}

/// What one more piece keeps in the frontier follows from a state that was there, by a
/// placement of the piece, and is in order of falling value.
pub proof fn one_more_piece_keeps_what_follows(
    nodes: Seq<u32>,
    board: Seq<u8>,
    current_lines: int,
    sequence: Seq<Piece>,
    width: int,
    pieces: int,
    index: int,
)
    requires
        0 <= width,
        1 <= pieces < sequence.len(),
        ({
            let before = last_beam(nodes, board, current_lines, sequence.take(pieces), width);
            let after = last_beam(nodes, board, current_lines, sequence.take(pieces + 1), width);
            after.depth == pieces + 1 && 0 <= index < after.frontier.len()
        }),
    ensures
        ({
            let before = last_beam(nodes, board, current_lines, sequence.take(pieces), width);
            let after = last_beam(nodes, board, current_lines, sequence.take(pieces + 1), width);
            let piece = sequence[pieces];
            &&& exists|state: int, place: int|
                moves_from(nodes, current_lines, before.frontier, piece).contains((state, place))
                    && #[trigger] follows(
                    nodes,
                    before.frontier[state],
                    all_placements(nodes, before.frontier[state].board, piece)[place],
                    after.frontier[index],
                )
            &&& index > 0 ==> after.frontier[index - 1].value >= after.frontier[index].value
        }),
{
    let before = last_beam(nodes, board, current_lines, sequence.take(pieces), width);
    let after = last_beam(nodes, board, current_lines, sequence.take(pieces + 1), width);
    let piece = sequence[pieces];
    lemma_last_step(nodes, board, current_lines, sequence, width, pieces);
    let count = before.frontier.len() as int;
    let next = successors(nodes, current_lines, before.frontier, piece, count);
    let origin = lemma_kept(next, width, index);
    let (state, place) = lemma_successor(
        nodes,
        current_lines,
        before.frontier,
        piece,
        count,
        origin,
    );
    assert(moves_from(nodes, current_lines, before.frontier, piece).contains((state, place)));
    assert(follows(
        nodes,
        before.frontier[state],
        all_placements(nodes, before.frontier[state].board, piece)[place],
        after.frontier[index],
    ));
    let ranked = rank(next, state_worth());
    ranking_is_sorted(next, state_worth());
    if index > 0 {
        assert(after.frontier[index - 1] == ranked[index - 1]);
        assert(after.frontier[index] == ranked[index]);
        assert(state_worth()(ranked[index - 1]) >= state_worth()(ranked[index]));
    }
}

/// A move that one more piece has leads to a state that is kept, or that is worth no more
/// than any state that is kept.
pub proof fn one_more_piece_drops_only_the_lesser(
    nodes: Seq<u32>,
    board: Seq<u8>,
    current_lines: int,
    sequence: Seq<Piece>,
    width: int,
    pieces: int,
    state: int,
    place: int,
)
    requires
        0 <= width,
        1 <= pieces < sequence.len(),
        ({
            let before = last_beam(nodes, board, current_lines, sequence.take(pieces), width);
            &&& before.depth == pieces
            &&& moves_from(
                nodes,
                current_lines,
                before.frontier,
                sequence[pieces],
            ).contains((state, place))
        }),
    ensures
        ({
            let before = last_beam(nodes, board, current_lines, sequence.take(pieces), width);
            let after = last_beam(nodes, board, current_lines, sequence.take(pieces + 1), width);
            exists|next: StateModel|
                #[trigger] follows(
                    nodes,
                    before.frontier[state],
                    all_placements(
                        nodes,
                        before.frontier[state].board,
                        sequence[pieces],
                    )[place],
                    next,
                ) && (after.frontier.contains(next) || forall|i: int|
                    0 <= i < after.frontier.len() ==> next.value <= (
                    #[trigger] after.frontier[i]).value)
        }),
{
    let before = last_beam(nodes, board, current_lines, sequence.take(pieces), width);
    let after = last_beam(nodes, board, current_lines, sequence.take(pieces + 1), width);
    let piece = sequence[pieces];
    lemma_last_step(nodes, board, current_lines, sequence, width, pieces);
    let count = before.frontier.len() as int;
    let next = successors(nodes, current_lines, before.frontier, piece, count);
    let place_in_next = lemma_successor_of(
        nodes,
        current_lines,
        before.frontier,
        piece,
        count,
        state,
        place,
    );
    let found = next[place_in_next];
    let ranked = rank(next, state_worth());
    let rank_of = lemma_ranked_has(next, place_in_next);
    ranking_is_sorted(next, state_worth());
    assert(follows(
        nodes,
        before.frontier[state],
        all_placements(nodes, before.frontier[state].board, piece)[place],
        found,
    ));
    if rank_of < after.frontier.len() {
        assert(after.frontier[rank_of] == found);
    } else {
        assert forall|i: int| 0 <= i < after.frontier.len() implies found.value <= (
        #[trigger] after.frontier[i]).value by {
            assert(after.frontier[i] == ranked[i]);
            assert(state_worth()(ranked[i]) >= state_worth()(ranked[rank_of]));
        }
    }
}

/// A state with forty lines or more is kept to the end once one more piece comes.
pub proof fn finished_states_are_kept(
    nodes: Seq<u32>,
    board: Seq<u8>,
    current_lines: int,
    sequence: Seq<Piece>,
    width: int,
    pieces: int,
    state: StateModel,
)
    requires
        1 <= pieces < sequence.len(),
        ({
            let before = last_beam(nodes, board, current_lines, sequence.take(pieces), width);
            ||| before.finished.contains(state)
            ||| before.depth == pieces && before.frontier.contains(state) && current_lines
                + state.lines >= 40
        }),
    ensures
        last_beam(
            nodes,
            board,
            current_lines,
            sequence.take(pieces + 1),
            width,
        ).finished.contains(state),
{
    let before = last_beam(nodes, board, current_lines, sequence.take(pieces), width);
    let after = last_beam(nodes, board, current_lines, sequence.take(pieces + 1), width);
    lemma_last_step(nodes, board, current_lines, sequence, width, pieces);
    if before.finished.contains(state) {
        let i = choose|i: int| 0 <= i < before.finished.len() && before.finished[i] == state;
        assert(after.finished[i] == state);
    } else {
        let i = choose|i: int| 0 <= i < before.frontier.len() && before.frontier[i] == state;
        let place = lemma_over_has(
            current_lines,
            before.frontier,
            before.frontier.len() as int,
            i,
        );
        assert(after.finished[before.finished.len() + place] == state);
    }
}

/// A search with one piece counts its placements, and keeps those that are worth most.
pub proof fn the_first_piece_tries_every_placement(
    nodes: Seq<u32>,
    board: Seq<u8>,
    current_lines: int,
    piece: Piece,
    width: int,
    index: int,
)
    requires
        0 <= width,
        0 <= index < all_placements(nodes, board, piece).len(),
    ensures
        ({
            let beam = last_beam(nodes, board, current_lines, seq![piece], width);
            let placements = all_placements(nodes, board, piece);
            let nothing = StateModel {
                board,
                score: 0,
                lines: 0,
                root_index: index,
                value: 0,
                setup_words: Seq::empty(),
            };
            &&& beam.depth == 1
            &&& beam.nodes == placements.len()
            &&& beam.frontier.len() == vstd::math::min(width, placements.len() as int)
            &&& exists|next: StateModel|
                #[trigger] follows(nodes, nothing, placements[index], next) && (
                beam.frontier.contains(next) || forall|i: int|
                    0 <= i < beam.frontier.len() ==> next.value <= (
                    #[trigger] beam.frontier[i]).value)
        }),
{
    let beam = last_beam(nodes, board, current_lines, seq![piece], width);
    let placements = all_placements(nodes, board, piece);
    assert(seq![piece][0] == piece);
    let states = root_states(nodes, placements);
    let found = states[index];
    let nothing = StateModel {
        board,
        score: 0,
        lines: 0,
        root_index: index,
        value: 0,
        setup_words: Seq::empty(),
    };
    assert(follows(nodes, nothing, placements[index], found));
    let ranked = rank(states, state_worth());
    let rank_of = lemma_ranked_has(states, index);
    ranking_is_sorted(states, state_worth());
    ranking_keeps_the_items(states, state_worth());
    if rank_of < beam.frontier.len() {
        assert(beam.frontier[rank_of] == found);
    } else {
        assert forall|i: int| 0 <= i < beam.frontier.len() implies found.value <= (
        #[trigger] beam.frontier[i]).value by {
            assert(beam.frontier[i] == ranked[i]);
            assert(state_worth()(ranked[i]) >= state_worth()(ranked[rank_of]));
        }
    }
}

/// The leaves of a search are the states of its frontier and the finished ones, each as
/// often; depth and nodes are those of the search, as far as their types go.
pub proof fn leaves_are_the_frontier_and_the_finished(
    nodes: Seq<u32>,
    board: Seq<u8>,
    current_lines: int,
    sequence: Seq<Piece>,
    width: int,
)
    ensures
        ({
            let beam = last_beam(nodes, board, current_lines, sequence, width);
            let leaves = leaves_of(nodes, board, current_lines, sequence, width);
            &&& leaves.states.to_multiset() == (beam.frontier + beam.finished).to_multiset()
            &&& leaves.states.len() == beam.frontier.len() + beam.finished.len()
            &&& 0 <= beam.depth < 256 ==> leaves.depth == beam.depth
            &&& 0 <= beam.nodes < 0x1_0000_0000 ==> leaves.nodes == beam.nodes
            &&& leaves.roots == all_placements(nodes, board, sequence[0])
        }),
{
    let beam = last_beam(nodes, board, current_lines, sequence, width);
    ranking_keeps_the_items(beam.frontier + beam.finished, state_worth());
}

// ---------------------------------------------------------------------------
// A beam with room for everything
// ---------------------------------------------------------------------------

spec fn is_at(
    nodes: Seq<u32>,
    state: StateModel,
    path: Seq<PlacementModel>,
    scores: Seq<int>,
    lines: Seq<int>,
    step: int,
) -> bool {
    &&& state.board == path[step].board
    &&& state.score == scores[step]
    &&& state.lines == lines[step]
    &&& state.value == state_value(
        scores[step],
        lines[step],
        evaluation_of(nodes, path[step].board).value,
    )
}

proof fn lemma_finished_stay(
    nodes: Seq<u32>,
    current_lines: int,
    sequence: Seq<Piece>,
    width: int,
    ply: int,
    beam: BeamModel,
    index: int,
)
    requires
        0 <= index < beam.finished.len(),
    ensures
        ({
            let after = beam_after(nodes, current_lines, sequence, width, ply, beam);
            index < after.finished.len() && after.finished[index] == beam.finished[index]
        }),
    decreases sequence.len() - ply,
{
    if ply < sequence.len() {
        let count = beam.frontier.len() as int;
        let next = successors(nodes, current_lines, beam.frontier, sequence[ply], count);
        let finished = beam.finished + over_states(current_lines, beam.frontier, count);
        assert(finished[index] == beam.finished[index]);
        if next.len() > 0 {
            lemma_finished_stay(
                nodes,
                current_lines,
                sequence,
                width,
                ply + 1,
                BeamModel {
                    frontier: first_items(rank(next, state_worth()), width),
                    finished,
                    depth: ply + 1,
                    nodes: beam.nodes + next.len(),
                },
                index,
            );
        }
    }
}

proof fn lemma_path_is_kept(
    nodes: Seq<u32>,
    board: Seq<u8>,
    current_lines: int,
    sequence: Seq<Piece>,
    width: int,
    ply: int,
    beam: BeamModel,
    path: Seq<PlacementModel>,
    scores: Seq<int>,
    lines: Seq<int>,
    index: int,
) -> (found: StateModel)
    requires
        1 <= ply <= path.len(),
        is_path(nodes, board, sequence, path),
        add_up(path, scores, lines),
        goes_on_until_the_end(current_lines, lines),
        path.len() == sequence.len() || current_lines + lines.last() >= 40,
        beam.depth == ply,
        0 <= beam.nodes,
        beam.frontier.len() <= width,
        beam_after(nodes, current_lines, sequence, width, ply, beam).nodes <= width,
        0 <= index < beam.frontier.len(),
        is_at(nodes, beam.frontier[index], path, scores, lines, ply - 1),
    ensures
        ({
            let after = beam_after(nodes, current_lines, sequence, width, ply, beam);
            &&& after.frontier.contains(found) || after.finished.contains(found)
            &&& is_at(nodes, found, path, scores, lines, path.len() - 1)
        }),
    decreases sequence.len() - ply,
{
    let after = beam_after(nodes, current_lines, sequence, width, ply, beam);
    let state = beam.frontier[index];
    if ply == sequence.len() {
        assert(after.frontier[index] == state);
        state
    } else {
        let count = beam.frontier.len() as int;
        let piece = sequence[ply];
        let next = successors(nodes, current_lines, beam.frontier, piece, count);
        let finished = beam.finished + over_states(current_lines, beam.frontier, count);
        let stepped = BeamModel {
            frontier: first_items(rank(next, state_worth()), width),
            finished,
            depth: ply + 1,
            nodes: beam.nodes + next.len(),
        };
        if ply == path.len() {
            let place = lemma_over_has(current_lines, beam.frontier, count, index);
            let at = beam.finished.len() + place;
            assert(finished[at] == state);
            if next.len() > 0 {
                lemma_finished_stay(
                    nodes,
                    current_lines,
                    sequence,
                    width,
                    ply + 1,
                    stepped,
                    at,
                );
            }
            assert(after.finished[at] == state);
            state
        } else {
            assert(current_lines + lines[ply - 1] < 40);
            assert(all_placements(nodes, board_before(board, path, ply), piece).contains(
                path[ply],
            ));
            let places = all_placements(nodes, state.board, piece);
            let place = choose|place: int| 0 <= place < places.len() && places[place] == path[ply];
            let origin = lemma_successor_of(
                nodes,
                current_lines,
                beam.frontier,
                piece,
                count,
                index,
                place,
            );
            let rank_of = lemma_ranked_has(next, origin);
            ranking_keeps_the_items(next, state_worth());
            lemma_beam_after(nodes, current_lines, sequence, width, ply + 1, stepped);
            assert(next.len() <= width);
            assert(stepped.frontier[rank_of] == next[origin]);
            assert(scores[ply] == scores[ply - 1] + path[ply].score);
            assert(lines[ply] == lines[ply - 1] + path[ply].lines);
            assert(is_at(nodes, stepped.frontier[rank_of], path, scores, lines, ply));
            lemma_path_is_kept(
                nodes,
                board,
                current_lines,
                sequence,
                width,
                ply + 1,
                stepped,
                path,
                scores,
                lines,
                rank_of,
            )
        }
    }
}

/// Where the beam has room for all the nodes that a search counts, no path of placements
/// to the last piece, or to the end of the game, is worth more than the first leaf.
pub proof fn a_wide_beam_finds_the_best_path(
    nodes: Seq<u32>,
    board: Seq<u8>,
    current_lines: int,
    sequence: Seq<Piece>,
    width: int,
    path: Seq<PlacementModel>,
    scores: Seq<int>,
    lines: Seq<int>,
)
    requires
        last_beam(nodes, board, current_lines, sequence, width).nodes <= width,
        is_path(nodes, board, sequence, path),
        add_up(path, scores, lines),
        goes_on_until_the_end(current_lines, lines),
        path.len() == sequence.len() || current_lines + lines.last() >= 40,
    ensures
        ({
            let leaves = leaves_of(nodes, board, current_lines, sequence, width);
            &&& leaves.states.len() > 0
            &&& leaves.states[0].value >= state_value(
                scores.last(),
                lines.last(),
                evaluation_of(nodes, path.last().board).value,
            )
        }),
{
    let roots = all_placements(nodes, board, sequence[0]);
    let states = root_states(nodes, roots);
    let first = first_beam(nodes, roots, width);
    let beam = last_beam(nodes, board, current_lines, sequence, width);
    assert(all_placements(nodes, board_before(board, path, 0), sequence[0]).contains(path[0]));
    let root = choose|root: int| 0 <= root < roots.len() && roots[root] == path[0];
    let rank_of = lemma_ranked_has(states, root);
    ranking_keeps_the_items(states, state_worth());
    lemma_nodes_grow(nodes, current_lines, sequence, width, 1, first);
    assert(first.frontier == rank(states, state_worth()));
    assert(first.frontier[rank_of] == states[root]);
    assert(is_at(nodes, first.frontier[rank_of], path, scores, lines, 0));
    let found = lemma_path_is_kept(
        nodes,
        board,
        current_lines,
        sequence,
        width,
        1,
        first,
        path,
        scores,
        lines,
        rank_of,
    );
    let both = beam.frontier + beam.finished;
    let origin = if beam.frontier.contains(found) {
        choose|i: int| 0 <= i < beam.frontier.len() && beam.frontier[i] == found
    } else {
        beam.frontier.len() + choose|i: int|
            0 <= i < beam.finished.len() && beam.finished[i] == found
    };
    assert(both[origin] == found);
    let place = lemma_ranked_has(both, origin);
    ranking_is_sorted(both, state_worth());
    let leaves = leaves_of(nodes, board, current_lines, sequence, width);
    assert(state_worth()(leaves.states[0]) >= state_worth()(leaves.states[place]));
}

proof fn lemma_nodes_grow(
    nodes: Seq<u32>,
    current_lines: int,
    sequence: Seq<Piece>,
    width: int,
    ply: int,
    beam: BeamModel,
)
    ensures
        beam_after(nodes, current_lines, sequence, width, ply, beam).nodes >= beam.nodes,
    decreases sequence.len() - ply,
{
    if ply < sequence.len() {
        let count = beam.frontier.len() as int;
        let next = successors(nodes, current_lines, beam.frontier, sequence[ply], count);
        let finished = beam.finished + over_states(current_lines, beam.frontier, count);
        if next.len() > 0 {
            lemma_nodes_grow(
                nodes,
                current_lines,
                sequence,
                width,
                ply + 1,
                BeamModel {
                    frontier: first_items(rank(next, state_worth()), width),
                    finished,
                    depth: ply + 1,
                    nodes: beam.nodes + next.len(),
                },
            );
        }
    }
}

} // verus!
