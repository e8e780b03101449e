//! Whole games played by the strategy, and what is learned from them.

use vstd::prelude::*;

use crate::game::{
    given_up, opening, played, playable, queued, refilled, refilling_twice_changes_nothing,
    spawned, GameModel, GameState, Phase,
};
use crate::native::{outcome_of, OutcomeModel, Piece, SearchOutcome, Strategy};
use crate::pool::pool_of;
use crate::ranking::first_items;
use crate::records::{plan, Plan, Position};
use crate::search::result_at;

verus! {

/// A game stops here even if it is not over.
pub const MAX_POSITIONS: usize = 400;

// ---------------------------------------------------------------------------
// How a game is played
// ---------------------------------------------------------------------------

/// How moves are chosen: by one search, or also among the best of a wider one.
#[derive(Clone, Copy, Debug)]
pub enum MovePolicy {
    Best { width: usize },
    Pool { width: usize, candidate_width: usize, candidates: usize },
}

/// The move that a policy chooses.
pub open spec fn chosen_move(
    strategy: Strategy,
    policy: MovePolicy,
    board: Seq<u8>,
    lines: int,
    sequence: Seq<Piece>,
) -> Option<OutcomeModel> {
    if !strategy.can_search(board, sequence) {
        None
    } else {
        match policy {
            MovePolicy::Best { width } => Some(
                outcome_of(
                    result_at(
                        strategy.nodes(),
                        strategy.leaves(board, lines, sequence, width as int),
                        0,
                    ),
                ),
            ),
            MovePolicy::Pool { width, candidate_width, candidates } => {
                let pool = pool_of(
                    strategy,
                    board,
                    lines,
                    sequence,
                    width as int,
                    candidate_width as int,
                    candidates as int,
                );
                Some(outcome_of(pool.result(strategy.nodes(), pool.best(pool.len()))))
            },
        }
    }
}

/// Chooses a move.
pub fn choose_move(
    strategy: &Strategy,
    policy: MovePolicy,
    board: &[u8; 220],
    lines: u8,
    sequence: &[Piece],
) -> (outcome: Option<SearchOutcome>)
    ensures
        outcome.is_some() == chosen_move(
            *strategy,
            policy,
            board@,
            lines as int,
            sequence@,
        ).is_some(),
        outcome matches Some(found) ==> {
            &&& found.wf()
            &&& chosen_move(*strategy, policy, board@, lines as int, sequence@) == Some(found@)
        },
{
    match policy {
        MovePolicy::Best { width } => strategy.find_best_move(board, lines, sequence, width),
        MovePolicy::Pool { width, candidate_width, candidates } => {
            strategy.find_best_move_with_root_candidates(
                board,
                lines,
                sequence,
                width,
                candidate_width,
                candidates,
            )
        },
    }
}

/// One move of a game: the position in which it was made, and the move.
pub ghost struct MoveModel {
    pub game: GameModel,
    pub outcome: OutcomeModel,
}

/// A game and the moves made in it.
pub ghost struct EpisodeModel {
    pub game: GameModel,
    pub moves: Seq<MoveModel>,
}

/// Whether another move is to be made.
pub open spec fn goes_on(episode: EpisodeModel) -> bool {
    episode.game.phase == Phase::Playing && episode.moves.len() < 400
}

/// An episode after one more move, or after none was found.
pub open spec fn after_move(
    episode: EpisodeModel,
    bags: Seq<Vec<[u8; 4]>>,
    outcome: Option<OutcomeModel>,
) -> EpisodeModel {
    let ready = refilled(episode.game, bags);
    match outcome {
        None => EpisodeModel { game: given_up(ready), ..episode },
        Some(outcome) => EpisodeModel {
            game: played(ready, bags, outcome),
            moves: episode.moves.push(MoveModel { game: ready, outcome }),
        },
    }
}

/// The pieces that a search of this depth sees in a game with full queues.
pub open spec fn seen_pieces(game: GameModel, depth: int) -> Seq<Piece> {
    seq![game.active.unwrap()] + first_items(
        queued(game),
        if depth == 0 {
            0
        } else {
            depth - 1
        },
    )
}

/// The end of an episode in which a policy chooses every move.
pub open spec fn episode_end(
    strategy: Strategy,
    bags: Seq<Vec<[u8; 4]>>,
    depth: int,
    policy: MovePolicy,
    episode: EpisodeModel,
) -> EpisodeModel
    decreases 400 - episode.moves.len(),
{
    if !goes_on(episode) {
        episode
    } else {
        let ready = refilled(episode.game, bags);
        let outcome = chosen_move(
            strategy,
            policy,
            ready.board,
            ready.current.lines,
            seen_pieces(ready, depth),
        );
        match outcome {
            None => after_move(episode, bags, None),
            Some(_) => episode_end(
                strategy,
                bags,
                depth,
                policy,
                after_move(episode, bags, outcome),
            ),
        }
    }
}

/// A position and the move made in it, written down.
pub struct Step {
    pub position: Position,
    pub action: Plan,
}

impl Step {
    pub open spec fn describes(&self, nodes: Seq<u32>, made: MoveModel) -> bool {
        &&& self.position.describes(nodes, made.game)
        &&& made.game.active matches Some(piece) && self.action.describes(piece, made.outcome)
    }
}

/// How many states the searches for the first `count` moves have counted.
pub open spec fn nodes_in(moves: Seq<MoveModel>, count: int) -> int
    decreases count,
{
    if count <= 0 {
        0
    } else {
        nodes_in(moves, count - 1) + moves[count - 1].outcome.nodes
    }
}

/// A game in progress with the moves made in it.
pub struct Episode {
    pub game: GameState,
    pub steps: Vec<Step>,
    pub search_nodes: u64,
    pub moves: Ghost<Seq<MoveModel>>,
}

impl Episode {
    pub open spec fn view(&self) -> EpisodeModel {
        EpisodeModel { game: self.game@, moves: self.moves@ }
    }

    /// The numbers of the game, now and at every position, are within bounds.
    pub open spec fn numbers_wf(&self) -> bool {
        &&& self.game.current.wf()
        &&& self.steps.len() <= 400
        &&& forall|i: int|
            0 <= i < self.steps.len() ==> (#[trigger] self.steps@[i]).position.current.wf()
    }

    pub open spec fn wf(&self, strategy: Strategy) -> bool {
        &&& self.game.wf()
        &&& self.numbers_wf()
        &&& self.game.current.pieces <= self.steps.len() + 1
        &&& self.steps.len() == self.moves@.len()
        &&& forall|i: int|
            0 <= i < self.steps.len() ==> (#[trigger] self.steps@[i]).describes(
                strategy.nodes(),
                self.moves@[i],
            )
        &&& self.search_nodes == nodes_in(self.moves@, self.moves@.len() as int)
        &&& self.search_nodes <= self.steps.len() * 0xffff_ffff
    }

    /// Starts a game.
    pub fn begin(seed: u32, strategy: &Strategy, bags: &Vec<Vec<[u8; 4]>>) -> (episode: Self)
        requires
            playable(bags@),
        ensures
            episode.wf(*strategy),
            episode@ == first_episode(seed, bags@),
    {
        let game: GameState = GameState::new(seed, strategy, bags);
        Episode { game, steps: Vec::new(), search_nodes: 0, moves: Ghost(Seq::empty()) }
    }

    /// Whether another move is to be made.
    pub fn goes_on(&self) -> (more: bool)
        requires
            self.steps.len() == self.moves@.len(),
        ensures
            more == goes_on(self@),
    {
        self.game.phase == Phase::Playing && self.steps.len() < MAX_POSITIONS
    }

    /// Makes the chosen move, or ends the game where none was found.
    pub fn make_move(
        &mut self,
        strategy: &Strategy,
        bags: &Vec<Vec<[u8; 4]>>,
        outcome: Option<SearchOutcome>,
    )
        requires
            old(self).wf(*strategy),
            goes_on(old(self)@),
            playable(bags@),
            outcome matches Some(found) ==> found.wf(),
        ensures
            final(self).wf(*strategy),
            final(self)@ == after_move(
                old(self)@,
                bags@,
                match outcome {
                    None => None,
                    Some(found) => Some(found@),
                },
            ),
    {
        let position: Option<Position> = self.game.position(strategy, bags);
        let ghost ready = self.game@;
        let active: Option<Piece> = self.game.active;
        match (position, active, outcome) {
            (Some(position), Some(active), Some(outcome)) => {
                let action: Plan = plan(active, &outcome);
                self.search_nodes = self.search_nodes + outcome.nodes as u64;
                self.steps.push(Step { position, action });
                let ghost made = MoveModel { game: ready, outcome: outcome@ };
                proof {
                    let before = self.moves@;
                    self.moves = Ghost(before.push(made));
                    lemma_nodes_in_prefix(before, made, before.len() as int);
                }
                self.game.apply(strategy, bags, &outcome);
            },
            _ => {
                self.game.give_up();
            },
        }
    }
}

proof fn lemma_nodes_in_prefix(moves: Seq<MoveModel>, last: MoveModel, count: int)
    requires
        0 <= count <= moves.len(),
    ensures
        nodes_in(moves.push(last), count) == nodes_in(moves, count),
    decreases count,
{
    if count > 0 {
        lemma_nodes_in_prefix(moves, last, count - 1);
    }
}

/// The start of an episode.
pub open spec fn first_episode(seed: u32, bags: Seq<Vec<[u8; 4]>>) -> EpisodeModel {
    EpisodeModel {
        game: spawned(
            opening(
                if seed == 0 {
                    0x9e37_79b9u32
                } else {
                    seed
                },
            ),
            bags,
        ),
        moves: Seq::empty(),
    }
}

/// Plays a whole game.
pub fn play_episode(
    seed: u32,
    strategy: &Strategy,
    bags: &Vec<Vec<[u8; 4]>>,
    depth: usize,
    policy: MovePolicy,
) -> (episode: Episode)
    requires
        playable(bags@),
    ensures
        episode.wf(*strategy),
        !goes_on(episode@),
        episode@ == episode_end(
            *strategy,
            bags@,
            depth as int,
            policy,
            first_episode(seed, bags@),
        ),
{
    let mut episode: Episode = Episode::begin(seed, strategy, bags);
    let ghost goal = episode_end(*strategy, bags@, depth as int, policy, episode@);
    while episode.goes_on()
        invariant
            playable(bags@),
            episode.wf(*strategy),
            goal == episode_end(*strategy, bags@, depth as int, policy, episode@),
        decreases
            400 - episode.moves@.len(),
            (if episode.game.phase == Phase::Playing {
                1int
            } else {
                0
            }),
    {
        let ghost before = episode@;
        let sequence: Vec<Piece> = episode.game.sequence(bags, depth);
        let ghost ready = episode.game@;
        proof {
            refilling_twice_changes_nothing(before.game, bags@);
        }
        let outcome: Option<SearchOutcome> = choose_move(
            strategy,
            policy,
            &episode.game.board,
            episode.game.current.lines as u8,
            sequence.as_slice(),
        );
        episode.make_move(strategy, bags, outcome);
    }
    episode
}

} // verus!
