//! Beam search over the visible pieces.

use vstd::prelude::*;

use crate::binary64::{
    half_up, is_representable, js_round, round, round53, rounding_gives_a_representable_number,
};
use crate::board::{cells_valid, Board, MAX_LINES};
use crate::evaluation::{evaluate_board, evaluation_of, Evaluation};
use crate::pieces::Piece;
use crate::placement::{
    adds_four_cells, all_placements, every_placement_adds_four_cells, placement_views,
    simulate_placements, Placement, PlacementModel,
};
use crate::ranking::{
    find_position, first_best, first_items, insert_ranked, is_ranked, lemma_insert_at,
    lemma_insert_into_first, rank, ranking_begins_with_the_first_best, ranking_is_sorted,
    ranking_keeps_a_ranking, ranking_keeps_the_items, Ranked,
};
use crate::words::TextList;

verus! {

// ---------------------------------------------------------------------------
// States
// ---------------------------------------------------------------------------

/// What a search state says: the board it reached, what it gained on the way,
/// the first placement it came from, and what it is worth.
pub ghost struct StateModel {
    pub board: Seq<u8>,
    pub score: int,
    pub lines: int,
    pub root_index: int,
    pub value: int,
    pub setup_words: Seq<Seq<u8>>,
}

pub open spec fn state_worth() -> spec_fn(StateModel) -> int {
    |state: StateModel| state.value
}

/// What a point and a cleared line count for, in units.
pub const SCORE_WEIGHT: i128 = 0xa0_0000_0000_0000;

pub const LINE_WEIGHT: i128 = 0x2d00_0000_0000_0000;

/// The worth of a state: its score weighs in, lines cost, the board adds its value.
pub open spec fn state_value(score: int, lines: int, board_value: int) -> int {
    round53(
        round53(round53(score * SCORE_WEIGHT as int) - round53(lines * LINE_WEIGHT as int))
            + board_value,
    )
}

pub open spec fn state_of(
    nodes: Seq<u32>,
    board: Seq<u8>,
    score: int,
    lines: int,
    root_index: int,
) -> StateModel {
    let evaluation = evaluation_of(nodes, board);
    StateModel {
        board,
        score,
        lines,
        root_index,
        value: state_value(score, lines, evaluation.value),
        setup_words: evaluation.setup_words,
    }
}

#[derive(Clone, Copy)]
pub struct SearchState {
    pub board: Board,
    pub score: i32,
    pub lines: u16,
    pub root_index: u16,
    /// In units of 2^-55.
    pub value: i128,
    pub setup_words: TextList,
}

impl SearchState {
    pub open spec fn view(&self) -> StateModel {
        StateModel {
            board: self.board@,
            score: self.score as int,
            lines: self.lines as int,
            root_index: self.root_index as int,
            value: self.value as int,
            setup_words: self.setup_words@,
        }
    }

    pub open spec fn wf(&self) -> bool {
        &&& cells_valid(self.board@)
        &&& self.lines <= 61
        &&& 0 <= self.score <= 200_000 * self.lines
        &&& self.setup_words.wf()
        &&& -0x10_0000_0000_0000_0000_0000_0000 <= self.value
            <= 0x10_0000_0000_0000_0000_0000_0000
        &&& is_representable(self.value as int)
    }
}

impl Ranked for SearchState {
    open spec fn worth(&self) -> int {
        self.value as int
    }

    fn rank_value(&self) -> (value: i128) {
        self.value
    }
}

pub open spec fn state_views(states: Seq<SearchState>) -> Seq<StateModel> {
    Seq::new(states.len(), |i: int| states[i]@)
}

/// Well-formed states that come from one of the first `roots` placements.
pub open spec fn states_wf(states: Seq<SearchState>, roots: int) -> bool {
    forall|i: int|
        0 <= i < states.len() ==> (#[trigger] states[i]).wf() && states[i].root_index < roots
}

fn assess_state(lexicon: &[u32], board: &Board, score: i32, lines: u16, root_index: u16) -> (state:
    SearchState)
    requires
        cells_valid(board@),
        lines <= 61,
        0 <= score <= 200_000 * lines,
    ensures
        state.wf(),
        state@ == state_of(lexicon@, board@, score as int, lines as int, root_index as int),
{
    let evaluation: Evaluation = evaluate_board(lexicon, board);
    let gained: i128 = round(score as i128 * SCORE_WEIGHT);
    let spent: i128 = round(lines as i128 * LINE_WEIGHT);
    let net: i128 = round(gained - spent);
    let value: i128 = round(net + evaluation.value);
    proof {
        rounding_gives_a_representable_number(net + evaluation.value);
    }
    SearchState {
        board: *board,
        score,
        lines,
        root_index,
        value,
        setup_words: evaluation.setup_words,
    }
}

/// Puts a state into a ranking.
fn rank_state(ranked: &mut Vec<SearchState>, state: SearchState, Ghost(roots): Ghost<int>)
    requires
        states_wf(old(ranked)@, roots),
        state.wf(),
        state.root_index < roots,
    ensures
        states_wf(final(ranked)@, roots),
        state_views(final(ranked)@) == insert_ranked(
            state_views(old(ranked)@),
            state@,
            state_worth(),
        ),
{
    let position: usize = find_position(ranked, state.value);
    proof {
        let views = state_views(ranked@);
        assert forall|i: int| position <= i < views.len() implies state_worth()(#[trigger] views[i])
            < state_worth()(state@) by {
            assert(ranked@[i].worth() < state.value);
        }
        lemma_insert_at(views, state@, state_worth(), position as int);
    }
    ranked.insert(position, state);
    assert(state_views(ranked@) =~= state_views(old(ranked)@).insert(position as int, state@));
}

/// Puts a state into the best `width` states seen so far.
fn keep_state(
    beam: &mut Vec<SearchState>,
    state: SearchState,
    width: usize,
    Ghost(seen): Ghost<Seq<StateModel>>,
    Ghost(roots): Ghost<int>,
)
    requires
        states_wf(old(beam)@, roots),
        state.wf(),
        state.root_index < roots,
        state_views(old(beam)@) == first_items(rank(seen, state_worth()), width as int),
    ensures
        states_wf(final(beam)@, roots),
        state_views(final(beam)@) == first_items(
            rank(seen.push(state@), state_worth()),
            width as int,
        ),
{
    proof {
        ranking_is_sorted(seen, state_worth());
        lemma_insert_into_first(rank(seen, state_worth()), state@, state_worth(), width as int);
        assert(seen.push(state@).drop_last() =~= seen);
    }
    let ghost before = state_views(beam@);
    let ghost after = insert_ranked(before, state@, state_worth());
    rank_state(beam, state, Ghost(roots));
    if beam.len() > width {
        let ghost longer = beam@;
        beam.truncate(width);
        assert(state_views(beam@) =~= state_views(longer).take(width as int));
    }
}

// ---------------------------------------------------------------------------
// One step
// ---------------------------------------------------------------------------

/// The states right after the first piece.
pub open spec fn root_states(nodes: Seq<u32>, roots: Seq<PlacementModel>) -> Seq<StateModel> {
    Seq::new(
        roots.len(),
        |i: int| state_of(nodes, roots[i].board, roots[i].score, roots[i].lines, i),
    )
}

/// A state and a further placement.
pub open spec fn advance(nodes: Seq<u32>, state: StateModel, placement: PlacementModel) -> StateModel {
    state_of(
        nodes,
        placement.board,
        state.score + placement.score,
        state.lines + placement.lines,
        state.root_index,
    )
}

/// Whether the game is over in a state.
pub open spec fn is_over(current_lines: int, state: StateModel) -> bool {
    current_lines + state.lines >= 40
}

/// The states that one more piece leads to from a state.
pub open spec fn children(nodes: Seq<u32>, current_lines: int, state: StateModel, piece: Piece) -> Seq<
    StateModel,
> {
    if is_over(current_lines, state) {
        Seq::empty()
    } else {
        let placements = all_placements(nodes, state.board, piece);
        Seq::new(placements.len(), |i: int| advance(nodes, state, placements[i]))
    }
}

/// The states that one more piece leads to from the first `count` states.
pub open spec fn successors(
    nodes: Seq<u32>,
    current_lines: int,
    frontier: Seq<StateModel>,
    piece: Piece,
    count: int,
) -> Seq<StateModel>
    decreases count,
{
    if count <= 0 {
        Seq::empty()
    } else {
        successors(nodes, current_lines, frontier, piece, count - 1) + children(
            nodes,
            current_lines,
            frontier[count - 1],
            piece,
        )
    }
}

/// Those of the first `count` states in which the game is over.
pub open spec fn over_states(current_lines: int, frontier: Seq<StateModel>, count: int) -> Seq<
    StateModel,
>
    decreases count,
{
    if count <= 0 {
        Seq::empty()
    } else if is_over(current_lines, frontier[count - 1]) {
        over_states(current_lines, frontier, count - 1).push(frontier[count - 1])
    } else {
        over_states(current_lines, frontier, count - 1)
    }
}

/// How far a search has come.
pub ghost struct BeamModel {
    pub frontier: Seq<StateModel>,
    pub finished: Seq<StateModel>,
    pub depth: int,
    pub nodes: int,
}

/// The search after its first piece.
pub open spec fn first_beam(nodes: Seq<u32>, roots: Seq<PlacementModel>, width: int) -> BeamModel {
    BeamModel {
        frontier: first_items(rank(root_states(nodes, roots), state_worth()), width),
        finished: Seq::empty(),
        depth: 1,
        nodes: roots.len() as int,
    }
}

/// The search from piece number `ply` to the end of the sequence, or to where no
/// piece fits any more.
pub open spec fn beam_after(
    nodes: Seq<u32>,
    current_lines: int,
    sequence: Seq<Piece>,
    width: int,
    ply: int,
    beam: BeamModel,
) -> BeamModel
    decreases sequence.len() - ply,
{
    if ply >= sequence.len() {
        beam
    } else {
        let count = beam.frontier.len() as int;
        let next = successors(nodes, current_lines, beam.frontier, sequence[ply], count);
        let finished = beam.finished + over_states(current_lines, beam.frontier, count);
        if next.len() == 0 {
            BeamModel { finished, ..beam }
        } else {
            beam_after(
                nodes,
                current_lines,
                sequence,
                width,
                ply + 1,
                BeamModel {
                    frontier: first_items(rank(next, state_worth()), width),
                    finished,
                    depth: ply + 1,
                    nodes: beam.nodes + next.len(),
                },
            )
        }
    }
}

/// The end of a search over a whole sequence.
pub open spec fn last_beam(
    nodes: Seq<u32>,
    board: Seq<u8>,
    current_lines: int,
    sequence: Seq<Piece>,
    width: int,
) -> BeamModel {
    beam_after(
        nodes,
        current_lines,
        sequence,
        width,
        1,
        first_beam(nodes, all_placements(nodes, board, sequence[0]), width),
    )
}

/// The states a search ends in, the best first.
pub open spec fn ranked_leaves(beam: BeamModel) -> Seq<StateModel> {
    rank(beam.frontier + beam.finished, state_worth())
}

// ---------------------------------------------------------------------------
// Running the search
// ---------------------------------------------------------------------------

/// The states after one more piece, with what the step has counted.
struct Expansion {
    next: Vec<SearchState>,
    nodes: u32,
}

/// Adds one to a count that wraps.
fn count_up(nodes: u32, Ghost(total): Ghost<int>) -> (more: u32)
    requires
        0 <= total,
        nodes == total % 0x1_0000_0000,
    ensures
        more == (total + 1) % 0x1_0000_0000,
{
    nodes.wrapping_add(1)
}

/// Plays one more piece from a state and keeps the best states seen so far.
#[verifier::rlimit(30)]
fn play_piece(
    lexicon: &[u32],
    current_lines: u8,
    state: &SearchState,
    piece: Piece,
    width: usize,
    nodes: u32,
    next: &mut Vec<SearchState>,
    Ghost(seen): Ghost<Seq<StateModel>>,
    Ghost(roots): Ghost<int>,
    Ghost(total): Ghost<int>,
) -> (counted: u32)
    requires
        state.wf(),
        state.root_index < roots,
        !is_over(current_lines as int, state@),
        piece.valid(),
        0 <= total,
        nodes == total % 0x1_0000_0000,
        states_wf(old(next)@, roots),
        state_views(old(next)@) == first_items(rank(seen, state_worth()), width as int),
    ensures
        states_wf(final(next)@, roots),
        ({
            let new = children(lexicon@, current_lines as int, state@, piece);
            &&& state_views(final(next)@) == first_items(
                rank(seen + new, state_worth()),
                width as int,
            )
            &&& counted == (total + new.len()) % 0x1_0000_0000
        }),
{
    let placements: Vec<Placement> = simulate_placements(lexicon, &state.board, piece);
    let ghost models = all_placements(lexicon@, state.board@, piece);
    let ghost new = children(lexicon@, current_lines as int, state@, piece);
    let mut counted: u32 = nodes;
    let mut number: usize = 0;
    assert(seen + new.take(0) =~= seen);
    while number < placements.len()
        invariant
            number <= placements.len(),
            0 <= total,
            state.wf(),
            state.lines < 40,
            state.root_index < roots,
            models == placement_views(placements@),
            new.len() == models.len(),
            forall|i: int|
                0 <= i < new.len() ==> #[trigger] new[i] == advance(lexicon@, state@, models[i]),
            forall|i: int| 0 <= i < placements.len() ==> (#[trigger] placements@[i]).wf(),
            states_wf(next@, roots),
            state_views(next@) == first_items(
                rank(seen + new.take(number as int), state_worth()),
                width as int,
            ),
            counted == (total + number) % 0x1_0000_0000,
        decreases placements.len() - number,
    {
        let placement: &Placement = &placements[number];
        assert(placements@[number as int].wf());
        assert(models[number as int] == placement@);
        counted = count_up(counted, Ghost(total + number));
        let child: SearchState = assess_state(
            lexicon,
            &placement.board,
            state.score + placement.score,
            state.lines + placement.lines as u16,
            state.root_index,
        );
        assert(child@ == new[number as int]);
        let ghost before = seen + new.take(number as int);
        assert(before.push(child@) =~= seen + new.take(number + 1));
        keep_state(next, child, width, Ghost(before), Ghost(roots));
        number += 1;
    }
    assert(new.take(placements.len() as int) =~= new);
    counted
}

/// Plays one more piece from every state of the frontier and keeps the best.
#[verifier::rlimit(30)]
fn expand(
    lexicon: &[u32],
    current_lines: u8,
    frontier: &Vec<SearchState>,
    piece: Piece,
    width: usize,
    nodes: u32,
    finished: &mut Vec<SearchState>,
    Ghost(roots): Ghost<int>,
    Ghost(total): Ghost<int>,
) -> (expansion: Expansion)
    requires
        states_wf(frontier@, roots),
        states_wf(old(finished)@, roots),
        piece.valid(),
        0 <= total,
        nodes == total % 0x1_0000_0000,
    ensures
        states_wf(expansion.next@, roots),
        states_wf(final(finished)@, roots),
        ({
            let views = state_views(frontier@);
            let next = successors(
                lexicon@,
                current_lines as int,
                views,
                piece,
                frontier.len() as int,
            );
            &&& state_views(expansion.next@) == first_items(rank(next, state_worth()), width as int)
            &&& state_views(final(finished)@) == state_views(old(finished)@) + over_states(
                current_lines as int,
                views,
                frontier.len() as int,
            )
            &&& expansion.nodes == (total + next.len()) % 0x1_0000_0000
        }),
{
    let ghost views = state_views(frontier@);
    let ghost lines = current_lines as int;
    let ghost finished_before = state_views(finished@);
    let mut next: Vec<SearchState> = Vec::new();
    let mut nodes: u32 = nodes;
    let mut index: usize = 0;
    assert(state_views(next@) =~= Seq::<StateModel>::empty());
    assert(state_views(finished@) =~= finished_before + over_states(lines, views, 0));
    while index < frontier.len()
        invariant
            states_wf(frontier@, roots),
            states_wf(finished@, roots),
            states_wf(next@, roots),
            piece.valid(),
            0 <= total,
            index <= frontier.len(),
            views == state_views(frontier@),
            lines == current_lines,
            state_views(next@) == first_items(
                rank(
                    successors(lexicon@, lines, views, piece, index as int),
                    state_worth(),
                ),
                width as int,
            ),
            state_views(finished@) == finished_before + over_states(lines, views, index as int),
            nodes == (total + successors(lexicon@, lines, views, piece, index as int).len())
                % 0x1_0000_0000,
        decreases frontier.len() - index,
    {
        let state: SearchState = frontier[index];
        assert(frontier@[index as int] == state);
        assert(state.wf());
        assert(views[index as int] == state@);
        let ghost seen = successors(lexicon@, lines, views, piece, index as int);
        if current_lines as u16 + state.lines >= MAX_LINES {
            let ghost before = finished@;
            finished.push(state);
            assert(state_views(finished@) =~= state_views(before).push(state@));
            assert(state_views(finished@) =~= finished_before + over_states(
                lines,
                views,
                index + 1,
            ));
            assert(seen + Seq::<StateModel>::empty() =~= seen);
        } else {
            nodes = play_piece(
                lexicon,
                current_lines,
                &state,
                piece,
                width,
                nodes,
                &mut next,
                Ghost(seen),
                Ghost(roots),
                Ghost(total + seen.len()),
            );
        }
        index += 1;
    }
    Expansion { next, nodes }
}

/// The best `width` states after the first piece.
#[verifier::rlimit(30)]
fn first_frontier(lexicon: &[u32], roots: &Vec<Placement>, width: usize) -> (frontier: Vec<
    SearchState,
>)
    requires
        roots.len() <= 160,
        forall|i: int| 0 <= i < roots.len() ==> (#[trigger] roots@[i]).wf(),
    ensures
        states_wf(frontier@, roots.len() as int),
        state_views(frontier@) == first_items(
            rank(root_states(lexicon@, placement_views(roots@)), state_worth()),
            width as int,
        ),
        roots.len() > 0 && width > 0 ==> frontier.len() > 0,
{
    let ghost models = placement_views(roots@);
    let ghost states = root_states(lexicon@, models);
    let mut frontier: Vec<SearchState> = Vec::new();
    let mut index: usize = 0;
    assert(states.take(0) =~= Seq::<StateModel>::empty());
    assert(state_views(frontier@) =~= Seq::<StateModel>::empty());
    while index < roots.len()
        invariant
            index <= roots.len() <= 160,
            placement_views(roots@) == models,
            states == root_states(lexicon@, models),
            forall|i: int| 0 <= i < roots.len() ==> (#[trigger] roots@[i]).wf(),
            states_wf(frontier@, roots.len() as int),
            state_views(frontier@) == first_items(
                rank(states.take(index as int), state_worth()),
                width as int,
            ),
        decreases roots.len() - index,
    {
        let root: &Placement = &roots[index];
        assert(roots@[index as int].wf());
        assert(models[index as int] == root@);
        let state: SearchState = assess_state(
            lexicon,
            &root.board,
            root.score,
            root.lines as u16,
            index as u16,
        );
        let ghost before = states.take(index as int);
        assert(before.push(state@) =~= states.take(index + 1));
        keep_state(&mut frontier, state, width, Ghost(before), Ghost(roots.len() as int));
        index += 1;
    }
    proof {
        assert(states.take(roots.len() as int) =~= states);
        ranking_keeps_the_items(states, state_worth());
        assert(state_views(frontier@).len() == frontier.len());
    }
    frontier
}

/// Ranks the states of two lists together; of equal ones those of the first list
/// come first.
fn rank_states(
    frontier: &Vec<SearchState>,
    finished: &Vec<SearchState>,
    Ghost(roots): Ghost<int>,
) -> (ranked: Vec<SearchState>)
    requires
        states_wf(frontier@, roots),
        states_wf(finished@, roots),
    ensures
        states_wf(ranked@, roots),
        state_views(ranked@) == rank(
            state_views(frontier@) + state_views(finished@),
            state_worth(),
        ),
        frontier.len() > 0 ==> ranked.len() > 0,
{
    let ghost ends = state_views(frontier@) + state_views(finished@);
    let mut ranked: Vec<SearchState> = Vec::new();
    assert(state_views(ranked@) =~= Seq::<StateModel>::empty());
    assert(ends.take(0) =~= Seq::<StateModel>::empty());
    let mut index: usize = 0;
    while index < frontier.len()
        invariant
            index <= frontier.len(),
            states_wf(frontier@, roots),
            states_wf(ranked@, roots),
            ends == state_views(frontier@) + state_views(finished@),
            state_views(ranked@) == rank(ends.take(index as int), state_worth()),
        decreases frontier.len() - index,
    {
        assert(ends.take(index + 1).drop_last() =~= ends.take(index as int));
        assert(frontier@[index as int].wf());
        assert(ends[index as int] == frontier@[index as int]@);
        rank_state(&mut ranked, frontier[index], Ghost(roots));
        index += 1;
    }
    let mut index: usize = 0;
    while index < finished.len()
        invariant
            index <= finished.len(),
            states_wf(finished@, roots),
            states_wf(ranked@, roots),
            ends == state_views(frontier@) + state_views(finished@),
            state_views(ranked@) == rank(ends.take(frontier.len() + index), state_worth()),
        decreases finished.len() - index,
    {
        let ghost total = frontier.len() + index;
        assert(ends.take(total + 1).drop_last() =~= ends.take(total as int));
        assert(finished@[index as int].wf());
        assert(ends[total as int] == finished@[index as int]@);
        rank_state(&mut ranked, finished[index], Ghost(roots));
        index += 1;
    }
    proof {
        assert(ends.take((frontier.len() + finished.len()) as int) =~= ends);
        ranking_keeps_the_items(ends, state_worth());
        assert(state_views(ranked@).len() == ranked.len());
    }
    ranked
}

/// The states a search ends in, the best first, with the placements of the
/// first piece from which they come.
pub struct Leaves {
    pub roots: Vec<Placement>,
    pub states: Vec<SearchState>,
    pub depth: u8,
    pub nodes: u32,
}

/// What a search ends in.
pub ghost struct LeavesModel {
    pub roots: Seq<PlacementModel>,
    pub states: Seq<StateModel>,
    pub depth: int,
    pub nodes: int,
}

/// The end of a search; the counts wrap as their machine types do.
pub open spec fn leaves_of(
    nodes: Seq<u32>,
    board: Seq<u8>,
    current_lines: int,
    sequence: Seq<Piece>,
    width: int,
) -> LeavesModel {
    let beam = last_beam(nodes, board, current_lines, sequence, width);
    LeavesModel {
        roots: all_placements(nodes, board, sequence[0]),
        states: ranked_leaves(beam),
        depth: beam.depth % 0x100,
        nodes: beam.nodes % 0x1_0000_0000,
    }
}

impl Leaves {
    pub open spec fn view(&self) -> LeavesModel {
        LeavesModel {
            roots: placement_views(self.roots@),
            states: state_views(self.states@),
            depth: self.depth as int,
            nodes: self.nodes as int,
        }
    }

    pub open spec fn wf(&self) -> bool {
        &&& self.states.len() > 0
        &&& self.roots.len() <= 160
        &&& states_wf(self.states@, self.roots.len() as int)
        &&& forall|i: int| 0 <= i < self.roots.len() ==> (#[trigger] self.roots@[i]).wf()
    }
}

pub open spec fn pieces_valid(sequence: Seq<Piece>) -> bool {
    forall|i: int| 0 <= i < sequence.len() ==> (#[trigger] sequence[i]).valid()
}

fn low_byte(value: usize) -> (byte: u8)
    ensures
        byte == value % 0x100,
{
    (value % 0x100) as u8
}

/// Searches the whole sequence, keeping the best `width` states after each piece.
///
/// There is no result where the first piece fits nowhere.
#[verifier::rlimit(30)]
pub fn search_leaves(
    lexicon: &[u32],
    board: &Board,
    current_lines: u8,
    sequence: &[Piece],
    width: usize,
) -> (leaves: Option<Leaves>)
    requires
        cells_valid(board@),
        sequence.len() >= 1,
        pieces_valid(sequence@),
        width >= 1,
    ensures
        leaves.is_none() == (all_placements(lexicon@, board@, sequence@[0]).len() == 0),
        leaves matches Some(found) ==> {
            &&& found.wf()
            &&& found@ == leaves_of(
                lexicon@,
                board@,
                current_lines as int,
                sequence@,
                width as int,
            )
        },
{
    assert(sequence@[0].valid());
    let roots: Vec<Placement> = simulate_placements(lexicon, board, sequence[0]);
    let ghost root_models = all_placements(lexicon@, board@, sequence@[0]);
    if roots.len() == 0 {
        return None;
    }
    let ghost root_count = roots.len() as int;
    let mut frontier: Vec<SearchState> = first_frontier(lexicon, &roots, width);
    let mut nodes: u32 = roots.len() as u32;
    let mut depth: u8 = 1;
    let mut finished: Vec<SearchState> = Vec::new();
    let ghost mut beam = first_beam(lexicon@, root_models, width as int);
    proof {
        assert(state_views(finished@) =~= Seq::<StateModel>::empty());
    }
    let ghost whole = last_beam(
        lexicon@,
        board@,
        current_lines as int,
        sequence@,
        width as int,
    );
    let mut ply: usize = 1;
    let mut stuck: bool = false;
    while ply < sequence.len() && !stuck
        invariant
            1 <= ply <= sequence.len(),
            width >= 1,
            pieces_valid(sequence@),
            states_wf(frontier@, root_count),
            states_wf(finished@, root_count),
            frontier.len() > 0,
            state_views(frontier@) == beam.frontier,
            state_views(finished@) == beam.finished,
            0 <= beam.nodes,
            nodes == beam.nodes % 0x1_0000_0000,
            depth == beam.depth % 0x100,
            stuck ==> whole == beam,
            !stuck ==> whole == beam_after(
                lexicon@,
                current_lines as int,
                sequence@,
                width as int,
                ply as int,
                beam,
            ),
        decreases
            (if stuck {
                0int
            } else {
                sequence.len() - ply
            }),
    {
        assert(sequence@[ply as int].valid());
        let expansion: Expansion = expand(
            lexicon,
            current_lines,
            &frontier,
            sequence[ply],
            width,
            nodes,
            &mut finished,
            Ghost(root_count),
            Ghost(beam.nodes),
        );
        let ghost next = successors(
            lexicon@,
            current_lines as int,
            beam.frontier,
            sequence@[ply as int],
            frontier.len() as int,
        );
        proof {
            ranking_keeps_the_items(next, state_worth());
            assert(state_views(expansion.next@).len() == expansion.next.len());
            assert(state_views(frontier@).len() == frontier.len());
        }
        nodes = expansion.nodes;
        if expansion.next.len() == 0 {
            assert(next.len() == 0);
            stuck = true;
            proof {
                beam = BeamModel { finished: state_views(finished@), ..beam };
            }
        } else {
            depth = low_byte(ply + 1);
            frontier = expansion.next;
            proof {
                beam =
                BeamModel {
                    frontier: state_views(frontier@),
                    finished: state_views(finished@),
                    depth: ply + 1,
                    nodes: beam.nodes + next.len(),
                };
            }
            ply += 1;
        }
    }
    let ranked: Vec<SearchState> = rank_states(&frontier, &finished, Ghost(root_count));
    Some(Leaves { roots, states: ranked, depth, nodes })
}

// ---------------------------------------------------------------------------
// Choosing a leaf
// ---------------------------------------------------------------------------

/// What a search recommends.
pub ghost struct ResultModel {
    pub root: PlacementModel,
    pub projected_score: int,
    pub projected_lines: int,
    pub setup_words: Seq<Seq<u8>>,
    pub depth: int,
    pub nodes: int,
    pub evaluation: int,
}

/// The recommendation that leaf number `index` stands for. The words to set up
/// are those of the board after the first piece, or else those of the leaf.
pub open spec fn result_at(nodes: Seq<u32>, leaves: LeavesModel, index: int) -> ResultModel {
    let leaf = leaves.states[index];
    let root = leaves.roots[leaf.root_index];
    let near = evaluation_of(nodes, root.board).setup_words;
    ResultModel {
        root,
        projected_score: leaf.score,
        projected_lines: leaf.lines,
        setup_words: if near.len() > 0 {
            near
        } else {
            leaf.setup_words
        },
        depth: leaves.depth,
        nodes: leaves.nodes,
        evaluation: half_up(leaf.value),
    }
}

#[derive(Clone, Copy)]
pub struct SearchResult {
    pub root: Placement,
    pub projected_score: i32,
    pub projected_lines: u16,
    pub setup_words: TextList,
    pub depth: u8,
    pub nodes: u32,
    pub evaluation: i32,
}

impl SearchResult {
    pub open spec fn view(&self) -> ResultModel {
        ResultModel {
            root: self.root@,
            projected_score: self.projected_score as int,
            projected_lines: self.projected_lines as int,
            setup_words: self.setup_words@,
            depth: self.depth as int,
            nodes: self.nodes as int,
            evaluation: self.evaluation as int,
        }
    }

    pub open spec fn wf(&self) -> bool {
        &&& self.root.wf()
        &&& self.setup_words.wf()
    }
}

impl Leaves {
    /// The recommendation that leaf number `index` stands for.
    pub fn result(&self, lexicon: &[u32], index: usize) -> (result: SearchResult)
        requires
            self.wf(),
            index < self.states.len(),
        ensures
            result.wf(),
            result@ == result_at(lexicon@, self@, index as int),
    {
        let leaf: &SearchState = &self.states[index];
        assert(self.states@[index as int].wf());
        assert(self@.states[index as int] == leaf@);
        let root: Placement = self.roots[leaf.root_index as usize];
        assert(self.roots@[leaf.root_index as int].wf());
        assert(self@.roots[leaf.root_index as int] == root@);
        let near: Evaluation = evaluate_board(lexicon, &root.board);
        let setup_words: TextList = if near.setup_words.len > 0 {
            near.setup_words
        } else {
            leaf.setup_words
        };
        SearchResult {
            root,
            projected_score: leaf.score,
            projected_lines: leaf.lines,
            setup_words,
            depth: self.depth,
            nodes: self.nodes,
            evaluation: js_round(leaf.value),
        }
    }
}

/// Whether a search has anything to recommend: the first piece fits somewhere.
pub open spec fn has_move(nodes: Seq<u32>, board: Seq<u8>, sequence: Seq<Piece>) -> bool {
    all_placements(nodes, board, sequence[0]).len() > 0
}

/// Searches the sequence and recommends the placement that leads to the best leaf.
pub fn search(
    lexicon: &[u32],
    board: &Board,
    current_lines: u8,
    sequence: &[Piece],
    width: usize,
) -> (result: Option<SearchResult>)
    requires
        cells_valid(board@),
        sequence.len() >= 1,
        pieces_valid(sequence@),
        width >= 1,
    ensures
        result.is_some() == has_move(lexicon@, board@, sequence@),
        result matches Some(found) ==> {
            &&& found.wf()
            &&& found@ == result_at(
                lexicon@,
                leaves_of(lexicon@, board@, current_lines as int, sequence@, width as int),
                0,
            )
            &&& adds_four_cells(board@, found@.root)
        },
{
    match search_leaves(lexicon, board, current_lines, sequence, width) {
        Some(leaves) => {
            proof {
                assert(sequence@[0].valid());
                every_placement_adds_four_cells(lexicon@, board@, sequence@[0]);
                assert(leaves.states@[0].wf());
                assert(leaves@.states[0] == leaves.states@[0]@);
            }
            Some(leaves.result(lexicon, 0))
        },
        None => None,
    }
}

// ---------------------------------------------------------------------------
// Leaves valued anew
// ---------------------------------------------------------------------------

pub open spec fn clamp(value: int, least: int, most: int) -> int {
    if value < least {
        least
    } else if value > most {
        most
    } else {
        value
    }
}

/// A number between two bounds.
pub fn clamp_to(value: usize, least: usize, most: usize) -> (clamped: usize)
    requires
        least <= most,
    ensures
        clamped == clamp(value as int, least as int, most as int),
{
    if value < least {
        least
    } else if value > most {
        most
    } else {
        value
    }
}

// ---------------------------------------------------------------------------
// What a search promises
// ---------------------------------------------------------------------------

/// No leaf of a search is worth more than the one it recommends.
pub proof fn the_first_leaf_is_worth_most(beam: BeamModel, leaf: int)
    requires
        0 <= leaf < ranked_leaves(beam).len(),
    ensures
        ranked_leaves(beam)[leaf].value <= ranked_leaves(beam)[0].value,
{
    let leaves = ranked_leaves(beam);
    ranking_is_sorted(beam.frontier + beam.finished, state_worth());
    assert(state_worth()(leaves[0]) >= state_worth()(leaves[leaf]));
}

pub proof fn lemma_beam_after(
    nodes: Seq<u32>,
    current_lines: int,
    sequence: Seq<Piece>,
    width: int,
    ply: int,
    beam: BeamModel,
)
    requires
        1 <= ply,
        0 <= width,
        beam.frontier.len() <= width,
        1 <= beam.depth <= ply,
        beam.depth <= sequence.len(),
    ensures
        ({
            let after = beam_after(nodes, current_lines, sequence, width, ply, beam);
            &&& after.frontier.len() <= width
            &&& 1 <= after.depth <= sequence.len()
            &&& after.nodes >= beam.nodes
        }),
    decreases sequence.len() - ply,
{
    if ply < sequence.len() {
        let count = beam.frontier.len() as int;
        let next = successors(nodes, current_lines, beam.frontier, sequence[ply], count);
        let finished = beam.finished + over_states(current_lines, beam.frontier, count);
        if next.len() > 0 {
            lemma_beam_after(
                nodes,
                current_lines,
                sequence,
                width,
                ply + 1,
                BeamModel {
                    frontier: first_items(rank(next, state_worth()), width),
                    finished,
                    depth: ply + 1,
                    nodes: beam.nodes + next.len(),
                },
            );
        }
    }
}

/// A search keeps no more states than its width and looks no further ahead than
/// its pieces.
pub proof fn a_search_stays_within_its_bounds(
    nodes: Seq<u32>,
    board: Seq<u8>,
    current_lines: int,
    sequence: Seq<Piece>,
    width: int,
)
    requires
        sequence.len() >= 1,
        0 <= width,
    ensures
        ({
            let beam = last_beam(nodes, board, current_lines, sequence, width);
            &&& beam.frontier.len() <= width
            &&& 1 <= beam.depth <= sequence.len()
            &&& beam.nodes >= all_placements(nodes, board, sequence[0]).len()
        }),
{
    let roots = all_placements(nodes, board, sequence[0]);
    lemma_beam_after(
        nodes,
        current_lines,
        sequence,
        width,
        1,
        first_beam(nodes, roots, width),
    );
}

/// Once the game is over, no further piece is placed.
pub proof fn nothing_is_placed_after_the_end(
    nodes: Seq<u32>,
    current_lines: int,
    state: StateModel,
    piece: Piece,
)
    requires
        current_lines + state.lines >= 40,
    ensures
        children(nodes, current_lines, state, piece).len() == 0,
{
}

/// A search of one piece recommends the placement with the greatest value, and the
/// first where several are equal.
pub proof fn one_piece_goes_to_the_first_best_placement(
    nodes: Seq<u32>,
    board: Seq<u8>,
    current_lines: int,
    piece: Piece,
    width: int,
)
    requires
        width >= 1,
        has_move(nodes, board, seq![piece]),
    ensures
        ({
            let roots = all_placements(nodes, board, piece);
            let states = root_states(nodes, roots);
            let best = first_best(states, state_worth(), states.len() as int);
            let leaves = leaves_of(nodes, board, current_lines, seq![piece], width);
            &&& 0 <= best < roots.len()
            &&& leaves.states[0] == states[best]
            &&& result_at(nodes, leaves, 0).root == roots[best]
        }),
{
    let roots = all_placements(nodes, board, seq![piece][0]);
    let states = root_states(nodes, roots);
    let ranked = rank(states, state_worth());
    let kept = first_items(ranked, width);
    ranking_begins_with_the_first_best(states, state_worth());
    ranking_keeps_the_items(states, state_worth());
    ranking_is_sorted(states, state_worth());
    assert(is_ranked(kept, state_worth())) by {
        assert forall|i: int, j: int| 0 <= i <= j < kept.len() implies state_worth()(kept[i])
            >= state_worth()(kept[j]) by {
            assert(kept[i] == ranked[i] && kept[j] == ranked[j]);
        }
    }
    ranking_keeps_a_ranking(kept, state_worth());
    assert(kept + Seq::<StateModel>::empty() =~= kept);
    assert(kept[0] == ranked[0]);
}

} // verus!
