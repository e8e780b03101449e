//! What a run of games is turned into: labels, totals, order and files.

use vstd::prelude::*;

use crate::episode::{
    episode_end, first_episode, play_episode, Episode, EpisodeModel, MovePolicy,
};
use crate::game::{playable, CurrentMetrics, MetricsModel, Phase};
use crate::native::Strategy;
use crate::options::SelfPlayNumbers;
use crate::random::{game_seed, seed_of_game};
use crate::statistics::one_if;
use crate::text::{decimal, push_decimal};

verus! {

// ---------------------------------------------------------------------------
// Labels
// ---------------------------------------------------------------------------

/// What was gained between two moments of a game.
#[derive(Clone, Copy, Debug)]
pub struct Delta {
    pub score: i32,
    pub lines: i32,
    pub words: i32,
    pub word_length: i32,
}

impl Delta {
    pub open spec fn is_between(&self, from: MetricsModel, to: MetricsModel) -> bool {
        &&& self.score == to.score - from.score
        &&& self.lines == to.lines - from.lines
        &&& self.words == to.words - from.words
        &&& self.word_length == to.total_word_length - from.total_word_length
    }
}

/// Whether a difference fits into 32 bits.
pub open spec fn fits_i32(difference: int) -> bool {
    i32::MIN <= difference <= i32::MAX
}

/// Whether what was gained between two moments fits into 32 bits.
pub open spec fn gain_fits(from: MetricsModel, to: MetricsModel) -> bool {
    &&& fits_i32(to.score - from.score)
    &&& fits_i32(to.lines - from.lines)
    &&& fits_i32(to.words - from.words)
    &&& fits_i32(to.total_word_length - from.total_word_length)
}

pub fn delta(from: CurrentMetrics, to: CurrentMetrics) -> (gained: Delta)
    requires
        gain_fits(from@, to@),
    ensures
        gained.is_between(from@, to@),
{
    Delta {
        score: to.score - from.score,
        lines: (to.lines as i64 - from.lines as i64) as i32,
        words: (to.words as i64 - from.words as i64) as i32,
        word_length: (to.total_word_length as i64 - from.total_word_length as i64) as i32,
    }
}

/// What became of a game after a position.
#[derive(Clone, Copy, Debug)]
pub struct Target {
    pub completed: bool,
    pub topped_out: bool,
    pub terminal_score: i32,
    pub terminal_lines: u32,
    pub to_go: Delta,
    pub four: Delta,
    pub eight: Delta,
    pub sixteen: Delta,
}

/// The numbers `moves` moves after position `index`, or those at the end.
pub open spec fn metrics_after(
    positions: Seq<MetricsModel>,
    last: MetricsModel,
    index: int,
    moves: int,
) -> MetricsModel {
    if index + moves < positions.len() {
        positions[index + moves]
    } else {
        last
    }
}

impl Target {
    pub open spec fn labels(
        &self,
        positions: Seq<MetricsModel>,
        last: MetricsModel,
        phase: Phase,
        index: int,
    ) -> bool {
        let here = positions[index];
        &&& self.completed == (phase == Phase::Complete)
        &&& self.topped_out == (phase == Phase::Over)
        &&& self.terminal_score == last.score
        &&& self.terminal_lines == last.lines
        &&& self.to_go.is_between(here, last)
        &&& self.four.is_between(here, metrics_after(positions, last, index, 4))
        &&& self.eight.is_between(here, metrics_after(positions, last, index, 8))
        &&& self.sixteen.is_between(here, metrics_after(positions, last, index, 16))
    }
}

pub open spec fn metrics_views(metrics: Seq<CurrentMetrics>) -> Seq<MetricsModel> {
    Seq::new(metrics.len(), |i: int| metrics[i]@)
}

/// Whether all that a position is labelled with fits into 32 bits.
pub open spec fn labels_fit(
    positions: Seq<MetricsModel>,
    last: MetricsModel,
    index: int,
) -> bool {
    &&& gain_fits(positions[index], last)
    &&& gain_fits(positions[index], metrics_after(positions, last, index, 4))
    &&& gain_fits(positions[index], metrics_after(positions, last, index, 8))
    &&& gain_fits(positions[index], metrics_after(positions, last, index, 16))
}

fn later(positions: &Vec<CurrentMetrics>, last: CurrentMetrics, index: usize, moves: usize) -> (found:
    CurrentMetrics)
    requires
        index < positions.len(),
    ensures
        found@ == metrics_after(metrics_views(positions@), last@, index as int, moves as int),
{
    if moves < positions.len() - index {
        positions[index + moves]
    } else {
        last
    }
}

/// Labels every position of a game with what came of it.
pub fn label(positions: &Vec<CurrentMetrics>, last: CurrentMetrics, phase: Phase) -> (targets: Vec<
    Target,
>)
    requires
        forall|i: int|
            0 <= i < positions.len() ==> #[trigger] labels_fit(
                metrics_views(positions@),
                last@,
                i,
            ),
    ensures
        targets.len() == positions.len(),
        forall|i: int|
            0 <= i < targets.len() ==> (#[trigger] targets@[i]).labels(
                metrics_views(positions@),
                last@,
                phase,
                i,
            ),
{
    let mut targets: Vec<Target> = Vec::new();
    let mut index: usize = 0;
    while index < positions.len()
        invariant
            index <= positions.len(),
            forall|i: int|
                0 <= i < positions.len() ==> #[trigger] labels_fit(
                    metrics_views(positions@),
                    last@,
                    i,
                ),
            targets.len() == index,
            forall|i: int|
                0 <= i < index ==> (#[trigger] targets@[i]).labels(
                    metrics_views(positions@),
                    last@,
                    phase,
                    i,
                ),
        decreases positions.len() - index,
    {
        let here: CurrentMetrics = positions[index];
        assert(labels_fit(metrics_views(positions@), last@, index as int));
        assert(metrics_views(positions@)[index as int] == here@);
        let target = Target {
            completed: phase == Phase::Complete,
            topped_out: phase == Phase::Over,
            terminal_score: last.score,
            terminal_lines: last.lines,
            to_go: delta(here, last),
            four: delta(here, later(positions, last, index, 4)),
            eight: delta(here, later(positions, last, index, 8)),
            sixteen: delta(here, later(positions, last, index, 16)),
        };
        targets.push(target);
        index += 1;
    }
    targets
}

/// The last position's horizons all reach to the end of the game.
pub proof fn the_last_position_sees_the_end(
    positions: Seq<MetricsModel>,
    last: MetricsModel,
    phase: Phase,
    target: Target,
)
    requires
        positions.len() >= 1,
        target.labels(positions, last, phase, positions.len() - 1),
    ensures
        target.four == target.to_go,
        target.eight == target.to_go,
        target.sixteen == target.to_go,
{
}

/// What a game came to.
#[derive(Clone, Copy, Debug)]
pub struct EpisodeSummary {
    pub positions: u64,
    pub score: i32,
    pub lines: u32,
    pub words: u32,
    pub total_word_length: u32,
    pub phase: Phase,
    pub search_nodes: u64,
}

impl Episode {
    /// The numbers at each position.
    pub open spec fn metrics(&self) -> Seq<MetricsModel> {
        Seq::new(self.steps@.len(), |i: int| self.steps@[i].position.current@)
    }

    /// Labels every position of the game.
    pub fn targets(&self) -> (targets: Vec<Target>)
        requires
            self.numbers_wf(),
        ensures
            targets.len() == self.steps.len(),
            forall|i: int|
                0 <= i < targets.len() ==> (#[trigger] targets@[i]).labels(
                    self.metrics(),
                    self.game.current@,
                    self.game.phase,
                    i,
                ),
    {
        let mut positions: Vec<CurrentMetrics> = Vec::new();
        let mut index: usize = 0;
        while index < self.steps.len()
            invariant
                self.numbers_wf(),
                index <= self.steps.len(),
                positions.len() == index,
                forall|i: int|
                    0 <= i < index ==> #[trigger] positions@[i] == self.steps@[i].position.current,
                forall|i: int| 0 <= i < index ==> (#[trigger] positions@[i]).wf(),
            decreases self.steps.len() - index,
        {
            assert(self.steps@[index as int].position.current.wf());
            positions.push(self.steps[index].position.current);
            index += 1;
        }
        assert(metrics_views(positions@) =~= self.metrics());
        proof {
            let views = metrics_views(positions@);
            assert forall|i: int, j: int|
                #![trigger views[i], views[j]]
                0 <= i < views.len() && 0 <= j < views.len() implies gain_fits(
                views[i],
                views[j],
            ) && gain_fits(views[i], self.game.current@) by {
                assert(positions@[i].wf() && positions@[j].wf());
            }
            assert forall|i: int| 0 <= i < positions.len() implies #[trigger] labels_fit(
                views,
                self.game.current@,
                i,
            ) by {
                assert(gain_fits(views[i], views[i]));
                assert(i + 16 < views.len() ==> gain_fits(views[i], views[i + 16]));
                assert(i + 8 < views.len() ==> gain_fits(views[i], views[i + 8]));
                assert(i + 4 < views.len() ==> gain_fits(views[i], views[i + 4]));
            }
        }
        label(&positions, self.game.current, self.game.phase)
    }

    pub fn summary(&self) -> (summary: EpisodeSummary)
        ensures
            summary.positions == self.steps.len(),
            summary.score == self.game.current.score,
            summary.lines == self.game.current.lines,
            summary.words == self.game.current.words,
            summary.total_word_length == self.game.current.total_word_length,
            summary.phase == self.game.phase,
            summary.search_nodes == self.search_nodes,
    {
        EpisodeSummary {
            positions: self.steps.len() as u64,
            score: self.game.current.score,
            lines: self.game.current.lines,
            words: self.game.current.words,
            total_word_length: self.game.current.total_word_length,
            phase: self.game.phase,
            search_nodes: self.search_nodes,
        }
    }
}

// ---------------------------------------------------------------------------
// Totals
// ---------------------------------------------------------------------------

/// Totals over games.
#[derive(Clone, Copy, Debug)]
pub struct Aggregate {
    pub episodes: u64,
    pub positions: u64,
    pub completed: u64,
    pub topped_out: u64,
    pub score: i64,
    pub lines: u64,
    pub words: u64,
    pub search_nodes: u64,
}

impl Aggregate {
    pub fn empty() -> (aggregate: Self)
        ensures
            aggregate.episodes == 0,
            aggregate.positions == 0,
            aggregate.completed == 0,
            aggregate.topped_out == 0,
            aggregate.score == 0,
            aggregate.lines == 0,
            aggregate.words == 0,
            aggregate.search_nodes == 0,
    {
        Aggregate {
            episodes: 0,
            positions: 0,
            completed: 0,
            topped_out: 0,
            score: 0,
            lines: 0,
            words: 0,
            search_nodes: 0,
        }
    }

    /// Whether the totals stay within their types when a game is added.
    pub open spec fn has_room_for(&self, summary: EpisodeSummary) -> bool {
        &&& self.episodes < u64::MAX
        &&& self.positions + summary.positions <= u64::MAX
        &&& self.completed < u64::MAX
        &&& self.topped_out < u64::MAX
        &&& i64::MIN <= self.score + summary.score <= i64::MAX
        &&& self.lines + summary.lines <= u64::MAX
        &&& self.words + summary.words <= u64::MAX
        &&& self.search_nodes + summary.search_nodes <= u64::MAX
    }

    /// Adds a game.
    pub fn include_game(&mut self, summary: &EpisodeSummary)
        requires
            old(self).has_room_for(*summary),
        ensures
            final(self).episodes == old(self).episodes + 1,
            final(self).positions == old(self).positions + summary.positions,
            final(self).completed == old(self).completed + one_if(
                summary.phase == Phase::Complete,
            ),
            final(self).topped_out == old(self).topped_out + one_if(summary.phase == Phase::Over),
            final(self).score == old(self).score + summary.score,
            final(self).lines == old(self).lines + summary.lines,
            final(self).words == old(self).words + summary.words,
            final(self).search_nodes == old(self).search_nodes + summary.search_nodes,
    {
        self.episodes = self.episodes + 1;
        self.positions = self.positions + summary.positions;
        if summary.phase == Phase::Complete {
            self.completed = self.completed + 1;
        }
        if summary.phase == Phase::Over {
            self.topped_out = self.topped_out + 1;
        }
        self.score = self.score + summary.score as i64;
        self.lines = self.lines + summary.lines as u64;
        self.words = self.words + summary.words as u64;
        self.search_nodes = self.search_nodes + summary.search_nodes;
    }
}

// ---------------------------------------------------------------------------
// What each game of a run plays
// ---------------------------------------------------------------------------

/// The beam width that goes with a search depth.
pub open spec fn usual_width(depth: usize) -> usize {
    if depth == 1 || depth == 2 {
        48
    } else if depth == 3 {
        64
    } else {
        72
    }
}

pub fn beam_width(depth: usize) -> (width: usize)
    ensures
        width == usual_width(depth),
{
    if depth == 1 || depth == 2 {
        48
    } else if depth == 3 {
        64
    } else {
        72
    }
}

/// The search depth of a game: the depths take turns.
pub fn depth_for_game(depths: &Vec<usize>, game_index: u64) -> (depth: usize)
    requires
        depths.len() >= 1,
    ensures
        depth == depths@[game_index as int % depths.len() as int],
{
    depths[(game_index % depths.len() as u64) as usize]
}

/// The lexicon of a game, 0 or 1: the lexica take turns.
pub fn lexicon_for_game(game_index: u64) -> (lexicon: u8)
    ensures
        lexicon == game_index % 2,
{
    (game_index % 2) as u8
}

/// The search depth that a run gives a game.
pub open spec fn game_depth(numbers: SelfPlayNumbers, game_index: u64) -> usize {
    numbers.depths@[game_index as int % numbers.depths.len() as int]
}

/// How a run's games of a depth are played where no learned model takes part.
pub open spec fn game_policy(numbers: SelfPlayNumbers, depth: usize) -> MovePolicy {
    let width = match numbers.beam_width {
        Some(width) => width,
        None => usual_width(depth),
    };
    match numbers.root_candidate_beam {
        Some(candidate_width) => MovePolicy::Pool {
            width,
            candidate_width,
            candidates: numbers.root_candidates,
        },
        None => MovePolicy::Best { width },
    }
}

/// A game of a run, from its first piece to its end.
pub open spec fn game_of(
    numbers: SelfPlayNumbers,
    strategy: Strategy,
    bags: Seq<Vec<[u8; 4]>>,
    game_index: u64,
) -> EpisodeModel {
    let depth = game_depth(numbers, game_index);
    episode_end(
        strategy,
        bags,
        depth as int,
        game_policy(numbers, depth),
        first_episode(seed_of_game(numbers.seed, game_index), bags),
    )
}

/// What a game of a run is played with.
#[derive(Clone, Copy, Debug)]
pub struct GameSetup {
    pub depth: usize,
    pub width: usize,
    pub seed: u32,
    pub policy: MovePolicy,
}

/// The depth, beam width, seed and way of playing of a game.
pub fn game_setup(numbers: &SelfPlayNumbers, game_index: u64) -> (setup: GameSetup)
    requires
        numbers.depths.len() >= 1,
    ensures
        setup.depth == game_depth(*numbers, game_index),
        setup.width == (match numbers.beam_width {
            Some(width) => width,
            None => usual_width(setup.depth),
        }),
        setup.seed == seed_of_game(numbers.seed, game_index),
        setup.policy == game_policy(*numbers, setup.depth),
{
    let depth: usize = depth_for_game(&numbers.depths, game_index);
    let width: usize = match numbers.beam_width {
        Some(width) => width,
        None => beam_width(depth),
    };
    let policy: MovePolicy = match numbers.root_candidate_beam {
        Some(candidate_width) => MovePolicy::Pool {
            width,
            candidate_width,
            candidates: numbers.root_candidates,
        },
        None => MovePolicy::Best { width },
    };
    GameSetup { depth, width, seed: game_seed(numbers.seed, game_index), policy }
}

/// What chooses the moves of a run's games.
#[derive(Clone, Copy, Debug, PartialEq, Eq, Structural)]
pub enum Chooser {
    /// A ranker of first placements.
    Ranker,
    /// A model of leaves.
    Fragments,
    /// The search alone, or with the best moves of a wider one.
    Search,
}

/// A ranker goes before the moves of a wider search, and those before a model of
/// leaves.
pub fn chooser(numbers: &SelfPlayNumbers, has_ranker: bool, has_fragments: bool) -> (found: Chooser)
    ensures
        found == (if has_ranker {
            Chooser::Ranker
        } else if numbers.root_candidate_beam.is_none() && has_fragments {
            Chooser::Fragments
        } else {
            Chooser::Search
        }),
{
    if has_ranker {
        Chooser::Ranker
    } else if numbers.root_candidate_beam.is_none() && has_fragments {
        Chooser::Fragments
    } else {
        Chooser::Search
    }
}

/// Plays a game of a run in which no learned model takes part.
pub fn play_game(
    numbers: &SelfPlayNumbers,
    strategy: &Strategy,
    bags: &Vec<Vec<[u8; 4]>>,
    game_index: u64,
) -> (episode: Episode)
    requires
        numbers.depths.len() >= 1,
        playable(bags@),
    ensures
        episode.wf(*strategy),
        episode@ == game_of(*numbers, *strategy, bags@, game_index),
{
    let setup: GameSetup = game_setup(numbers, game_index);
    play_episode(setup.seed, strategy, bags, setup.depth, setup.policy)
}

// ---------------------------------------------------------------------------
// Order
// ---------------------------------------------------------------------------

/// Puts numbered results back into the order of their numbers.
pub struct Sequencer<T> {
    pub next: u64,
    pub pending: Vec<(u64, T)>,
}

/// How many of the first waiting results are the next ones in order.
pub open spec fn run_length<T>(pending: Seq<(u64, T)>, next: int) -> nat
    decreases pending.len(),
{
    if pending.len() > 0 && pending[0].0 == next {
        1 + run_length(pending.drop_first(), next + 1)
    } else {
        0
    }
}

/// How many waiting results have smaller numbers.
pub open spec fn smaller_count<T>(pending: Seq<(u64, T)>, number: u64) -> int
    decreases pending.len(),
{
    if pending.len() == 0 || pending.last().0 < number {
        pending.len() as int
    } else {
        smaller_count(pending.drop_last(), number)
    }
}

proof fn lemma_smaller_count<T>(pending: Seq<(u64, T)>, number: u64)
    requires
        forall|i: int, j: int| 0 <= i < j < pending.len() ==> pending[i].0 < pending[j].0,
    ensures
        0 <= smaller_count(pending, number) <= pending.len(),
        forall|i: int|
            0 <= i < smaller_count(pending, number) ==> (#[trigger] pending[i]).0 < number,
        forall|i: int|
            smaller_count(pending, number) <= i < pending.len() ==> (#[trigger] pending[i]).0
                >= number,
    decreases pending.len(),
{
    if pending.len() > 0 && pending.last().0 >= number {
        lemma_smaller_count(pending.drop_last(), number);
        let count = smaller_count(pending, number);
        assert forall|i: int| 0 <= i < count implies (#[trigger] pending[i]).0 < number by {
            assert(pending.drop_last()[i] == pending[i]);
        }
        assert forall|i: int| count <= i < pending.len() implies (#[trigger] pending[i]).0
            >= number by {
            if i < pending.len() - 1 {
                assert(pending.drop_last()[i] == pending[i]);
            }
        }
    }
}

proof fn lemma_run<T>(pending: Seq<(u64, T)>, next: int)
    ensures
        run_length(pending, next) <= pending.len(),
        forall|i: int|
            0 <= i < run_length(pending, next) ==> (#[trigger] pending[i]).0 == next + i,
    decreases pending.len(),
{
    if pending.len() > 0 && pending[0].0 == next {
        lemma_run(pending.drop_first(), next + 1);
        assert forall|i: int| 0 <= i < run_length(pending, next) implies (#[trigger] pending[i]).0
            == next + i by {
            if i > 0 {
                assert(pending.drop_first()[i - 1] == pending[i]);
            }
        }
    }
}

/// The waiting results with one more in its place.
pub open spec fn waiting_with<T>(
    pending: Seq<(u64, T)>,
    number: u64,
    result: T,
) -> Seq<(u64, T)> {
    pending.insert(smaller_count(pending, number), (number, result))
}

/// The first results, without their numbers.
pub open spec fn first_results<T>(waiting: Seq<(u64, T)>, count: nat) -> Seq<T> {
    Seq::new(count, |i: int| waiting[i].1)
}

proof fn lemma_inserted<T>(pending: Seq<(u64, T)>, number: u64, result: T)
    requires
        forall|i: int, j: int| 0 <= i < j < pending.len() ==> pending[i].0 < pending[j].0,
        forall|i: int| 0 <= i < pending.len() ==> (#[trigger] pending[i]).0 != number,
    ensures
        ({
            let waiting = waiting_with(pending, number, result);
            &&& waiting.len() == pending.len() + 1
            &&& forall|i: int, j: int| 0 <= i < j < waiting.len() ==> waiting[i].0 < waiting[j].0
            &&& forall|i: int|
                0 <= i < waiting.len() ==> #[trigger] waiting[i] == (number, result)
                    || pending.contains(waiting[i])
        }),
{
    lemma_smaller_count(pending, number);
    let place = smaller_count(pending, number);
    let waiting = waiting_with(pending, number, result);
    assert forall|i: int| 0 <= i < waiting.len() implies #[trigger] waiting[i] == (number, result)
        || pending.contains(waiting[i]) by {
        if i < place {
            assert(waiting[i] == pending[i]);
        } else if i > place {
            assert(waiting[i] == pending[i - 1]);
        }
    }
    assert forall|i: int, j: int| 0 <= i < j < waiting.len() implies waiting[i].0
        < waiting[j].0 by {
        if j == place {
            assert(waiting[i] == pending[i]);
        } else if i == place {
            assert(waiting[j] == pending[j - 1]);
            assert(pending[j - 1].0 != number);
        } else {
            let left = if i < place {
                i
            } else {
                i - 1
            };
            let right = if j < place {
                j
            } else {
                j - 1
            };
            assert(waiting[i] == pending[left]);
            assert(waiting[j] == pending[right]);
        }
    }
}

impl<T> Sequencer<T> {
    /// Results wait in order, none twice, none that has been handed out.
    pub open spec fn wf(&self) -> bool {
        &&& forall|i: int, j: int|
            0 <= i < j < self.pending@.len() ==> self.pending@[i].0 < self.pending@[j].0
        &&& forall|i: int|
            0 <= i < self.pending@.len() ==> self.next <= (#[trigger] self.pending@[i]).0 < u64::MAX
    }

    /// The waiting results with one more in its place.
    pub open spec fn with(&self, number: u64, result: T) -> Seq<(u64, T)> {
        waiting_with(self.pending@, number, result)
    }

    pub fn new() -> (sequencer: Self)
        ensures
            sequencer.wf(),
            sequencer.next == 0,
            sequencer.pending@ == Seq::<(u64, T)>::empty(),
    {
        Sequencer { next: 0, pending: Vec::new() }
    }

    /// Takes a result; hands out the results whose turn it is, in order.
    #[verifier::spinoff_prover]
    pub fn accept(&mut self, number: u64, result: T) -> (ready: Vec<T>)
        requires
            old(self).wf(),
            old(self).next <= number < u64::MAX,
            forall|i: int|
                0 <= i < old(self).pending.len() ==> (#[trigger] old(self).pending@[i]).0
                    != number,
        ensures
            final(self).wf(),
            ({
                let waiting = old(self).with(number, result);
                let count = run_length(waiting, old(self).next as int);
                &&& ready@ == first_results(waiting, count)
                &&& forall|i: int|
                    0 <= i < count ==> (#[trigger] waiting[i]).0 == old(self).next + i
                &&& final(self).next == old(self).next + count
                &&& final(self).pending@ == waiting.skip(count as int)
            }),
            final(self).pending.len() > 0 ==> final(self).pending@[0].0 > final(self).next,
    {
        let ghost waiting = self.with(number, result);
        let ghost first = self.next as int;
        proof {
            lemma_smaller_count(self.pending@, number);
        }
        assert(self.pending@.take(self.pending.len() as int) =~= self.pending@);
        let mut place: usize = self.pending.len();
        while place > 0 && self.pending[place - 1].0 >= number
            invariant
                place <= self.pending.len(),
                *self == *old(self),
                smaller_count(self.pending@, number) == smaller_count(
                    self.pending@.take(place as int),
                    number,
                ),
            decreases place,
        {
            proof {
                let shorter = self.pending@.take(place as int);
                assert(shorter.drop_last() =~= self.pending@.take(place - 1));
                assert(shorter.last() == self.pending@[place - 1]);
            }
            place -= 1;
        }
        proof {
            let shorter = self.pending@.take(place as int);
            if place > 0 {
                assert(shorter.last() == self.pending@[place - 1]);
            }
            assert(place == smaller_count(self.pending@, number));
        }
        self.pending.insert(place, (number, result));
        assert(self.pending@ =~= waiting);
        proof {
            lemma_run(waiting, first);
            lemma_inserted(old(self).pending@, number, result);
            assert forall|i: int| 0 <= i < waiting.len() implies first <= (#[trigger] waiting[i]).0
                < u64::MAX by {
                assert(waiting[i] == (number, result) || old(self).pending@.contains(waiting[i]));
            }
        }
        let mut ready: Vec<T> = Vec::new();
        assert(waiting.skip(0) =~= waiting);
        while self.pending.len() > 0 && self.pending[0].0 == self.next
            invariant
                ready.len() <= run_length(waiting, first) <= waiting.len(),
                run_length(waiting, first) == ready.len() + run_length(
                    self.pending@,
                    self.next as int,
                ),
                self.next == first + ready.len(),
                self.pending@ == waiting.skip(ready.len() as int),
                forall|i: int| 0 <= i < ready.len() ==> #[trigger] ready@[i] == waiting[i].1,
                forall|i: int|
                    0 <= i < waiting.len() ==> (#[trigger] waiting[i]).0 < u64::MAX,
            decreases self.pending.len(),
        {
            let ghost before = self.pending@;
            let pair: (u64, T) = self.pending.remove(0);
            assert(self.pending@ =~= before.drop_first());
            assert(before[0] == waiting[ready.len() as int]);
            ready.push(pair.1);
            self.next = self.next + 1;
            assert(self.pending@ =~= waiting.skip(ready.len() as int));
        }
        proof {
            let count = run_length(waiting, first);
            assert(ready.len() == count);
            assert forall|i: int| 0 <= i < self.pending@.len() implies self.next <= (
            #[trigger] self.pending@[i]).0 < u64::MAX by {
                assert(self.pending@[i] == waiting[i + count]);
                if count > 0 {
                    assert(waiting[count - 1].0 < waiting[i + count].0);
                } else {
                    assert(waiting[i].0 >= first);
                }
            }
        }
        ready
    }
}

// ---------------------------------------------------------------------------
// A whole run
// ---------------------------------------------------------------------------

/// A sequencer's state after numbered results have come in, and all that it has
/// handed out.
pub ghost struct RunModel<T> {
    pub next: int,
    pub pending: Seq<(u64, T)>,
    pub released: Seq<T>,
}

/// What a new sequencer has done once it has accepted results one after the other.
pub open spec fn run_after<T>(arrivals: Seq<(u64, T)>) -> RunModel<T>
    decreases arrivals.len(),
{
    if arrivals.len() == 0 {
        RunModel { next: 0, pending: Seq::empty(), released: Seq::empty() }
    } else {
        let before = run_after(arrivals.drop_last());
        let waiting = waiting_with(before.pending, arrivals.last().0, arrivals.last().1);
        let count = run_length(waiting, before.next);
        RunModel {
            next: before.next + count,
            pending: waiting.skip(count as int),
            released: before.released + first_results(waiting, count),
        }
    }
}

/// Whether no number comes in twice; the greatest number never does.
pub open spec fn are_distinct<T>(arrivals: Seq<(u64, T)>) -> bool {
    &&& forall|i: int, j: int| 0 <= i < j < arrivals.len() ==> arrivals[i].0 != arrivals[j].0
    &&& forall|i: int| 0 <= i < arrivals.len() ==> (#[trigger] arrivals[i]).0 < u64::MAX
}

/// Whether the numbers 0 to N-1 come in, each once, in any order.
pub open spec fn is_whole_run<T>(arrivals: Seq<(u64, T)>) -> bool {
    &&& arrivals.len() <= u64::MAX
    &&& are_distinct(arrivals)
    &&& forall|i: int| 0 <= i < arrivals.len() ==> (#[trigger] arrivals[i]).0 < arrivals.len()
}

/// Whether every result so far has either been handed out at its number's place or
/// waits for its turn.
pub open spec fn keeps_order<T>(run: RunModel<T>, arrivals: Seq<(u64, T)>) -> bool {
    &&& run.next == run.released.len()
    &&& run.released.len() + run.pending.len() == arrivals.len()
    &&& forall|i: int, j: int|
        0 <= i < j < run.pending.len() ==> run.pending[i].0 < run.pending[j].0
    &&& forall|i: int|
        0 <= i < run.pending.len() ==> run.next < (#[trigger] run.pending[i]).0
            && arrivals.contains(run.pending[i])
    &&& forall|i: int|
        0 <= i < run.released.len() ==> arrivals.contains(
            (i as u64, #[trigger] run.released[i]),
        )
    &&& run.next <= u64::MAX
}

/// After a run has ended: the number that would be next does not wait.
proof fn lemma_run_is_longest<T>(pending: Seq<(u64, T)>, next: int)
    ensures
        run_length(pending, next) < pending.len() ==> pending[run_length(
            pending,
            next,
        ) as int].0 != next + run_length(pending, next),
    decreases pending.len(),
{
    if pending.len() > 0 && pending[0].0 == next {
        lemma_run_is_longest(pending.drop_first(), next + 1);
        let count = run_length(pending, next);
        if count < pending.len() {
            assert(pending.drop_first()[count - 1] == pending[count as int]);
        }
    }
}

/// A number that has not come in yet is neither handed out nor waiting.
proof fn lemma_new_number<T>(before: RunModel<T>, arrivals: Seq<(u64, T)>)
    requires
        arrivals.len() > 0,
        are_distinct(arrivals),
        keeps_order(before, arrivals.drop_last()),
    ensures
        before.next <= arrivals.last().0,
        forall|i: int|
            0 <= i < before.pending.len() ==> (#[trigger] before.pending[i]).0
                != arrivals.last().0,
{
    let earlier = arrivals.drop_last();
    let number = arrivals.last().0;
    if number < before.next {
        assert(earlier.contains((number as int as u64, before.released[number as int])));
        let origin = choose|k: int|
            0 <= k < earlier.len() && earlier[k] == (number, before.released[number as int]);
        assert(arrivals[origin].0 != arrivals[arrivals.len() - 1].0);
    }
    assert forall|i: int| 0 <= i < before.pending.len() implies (#[trigger] before.pending[i]).0
        != number by {
        assert(earlier.contains(before.pending[i]));
        let origin = choose|k: int| 0 <= k < earlier.len() && earlier[k] == before.pending[i];
        assert(arrivals[origin].0 != arrivals[arrivals.len() - 1].0);
    }
}

/// Whatever order distinct numbers come in, each result is handed out at its number's
/// place or waits for its turn.
pub proof fn a_run_keeps_the_order<T>(arrivals: Seq<(u64, T)>)
    requires
        are_distinct(arrivals),
    ensures
        keeps_order(run_after(arrivals), arrivals),
    decreases arrivals.len(),
{
    let run = run_after(arrivals);
    if arrivals.len() > 0 {
        let earlier = arrivals.drop_last();
        let (number, result) = arrivals.last();
        assert(are_distinct(earlier)) by {
            assert forall|i: int, j: int| 0 <= i < j < earlier.len() implies earlier[i].0
                != earlier[j].0 by {
                assert(arrivals[i].0 != arrivals[j].0);
            }
        }
        a_run_keeps_the_order(earlier);
        let before = run_after(earlier);
        lemma_new_number(before, arrivals);
        lemma_inserted(before.pending, number, result);
        let waiting = waiting_with(before.pending, number, result);
        let count = run_length(waiting, before.next);
        lemma_run(waiting, before.next);
        lemma_run_is_longest(waiting, before.next);
        assert forall|i: int| 0 <= i < waiting.len() implies before.next <= (
        #[trigger] waiting[i]).0 && arrivals.contains(waiting[i]) by {
            if waiting[i] == (number, result) {
                assert(arrivals[arrivals.len() - 1] == waiting[i]);
            } else {
                let place = choose|k: int|
                    0 <= k < before.pending.len() && before.pending[k] == waiting[i];
                assert(earlier.contains(before.pending[place]));
                let origin = choose|k: int|
                    0 <= k < earlier.len() && earlier[k] == before.pending[place];
                assert(arrivals[origin] == waiting[i]);
            }
        }
        assert forall|i: int, j: int| 0 <= i < j < run.pending.len() implies run.pending[i].0
            < run.pending[j].0 by {
            assert(run.pending[i] == waiting[i + count]);
            assert(run.pending[j] == waiting[j + count]);
        }
        assert forall|i: int| 0 <= i < run.pending.len() implies run.next < (
        #[trigger] run.pending[i]).0 && arrivals.contains(run.pending[i]) by {
            assert(run.pending[i] == waiting[i + count]);
            assert(waiting[count as int].0 <= waiting[i + count].0);
            if count > 0 {
                assert(waiting[count - 1].0 < waiting[count as int].0);
            } else {
                assert(waiting[0].0 >= before.next);
            }
        }
        assert forall|i: int| 0 <= i < run.released.len() implies arrivals.contains(
            (i as u64, #[trigger] run.released[i]),
        ) by {
            if i < before.released.len() {
                assert(run.released[i] == before.released[i]);
                assert(earlier.contains((i as u64, before.released[i])));
                let origin = choose|k: int|
                    0 <= k < earlier.len() && earlier[k] == (i as u64, before.released[i]);
                assert(arrivals[origin] == (i as u64, run.released[i]));
            } else {
                let place = i - before.released.len();
                assert(waiting[place].0 == before.next + place);
                assert(waiting[place] == (i as u64, run.released[i]));
            }
        }
        if count > 0 {
            let last = waiting[count - 1];
            assert(last.0 == before.next + (count - 1));
            assert(arrivals.contains(last));
        }
    }
}

/// The last of distinct numbers can be accepted after the others, and what is done
/// with it is what a sequencer's `accept` does.
pub proof fn distinct_numbers_can_be_accepted<T>(
    arrivals: Seq<(u64, T)>,
    sequencer: Sequencer<T>,
)
    requires
        arrivals.len() > 0,
        are_distinct(arrivals),
        sequencer.next == run_after(arrivals.drop_last()).next,
        sequencer.pending@ == run_after(arrivals.drop_last()).pending,
    ensures
        sequencer.wf(),
        sequencer.next <= arrivals.last().0 < u64::MAX,
        forall|i: int|
            0 <= i < sequencer.pending.len() ==> (#[trigger] sequencer.pending@[i]).0
                != arrivals.last().0,
        ({
            let waiting = sequencer.with(arrivals.last().0, arrivals.last().1);
            let count = run_length(waiting, sequencer.next as int);
            run_after(arrivals) == (RunModel {
                next: sequencer.next + count,
                pending: waiting.skip(count as int),
                released: run_after(arrivals.drop_last()).released + first_results(waiting, count),
            })
        }),
{
    let earlier = arrivals.drop_last();
    assert(are_distinct(earlier)) by {
        assert forall|i: int, j: int| 0 <= i < j < earlier.len() implies earlier[i].0
            != earlier[j].0 by {
            assert(arrivals[i].0 != arrivals[j].0);
        }
        assert forall|i: int| 0 <= i < earlier.len() implies (#[trigger] earlier[i]).0
            < u64::MAX by {
            assert(arrivals[i].0 < u64::MAX);
        }
    }
    a_run_keeps_the_order(earlier);
    lemma_new_number(run_after(earlier), arrivals);
    assert(arrivals[arrivals.len() - 1].0 < u64::MAX);
    assert forall|i: int| 0 <= i < sequencer.pending@.len() implies sequencer.next <= (
    #[trigger] sequencer.pending@[i]).0 < u64::MAX by {
        assert(earlier.contains(sequencer.pending@[i]));
        let origin = choose|k: int|
            0 <= k < earlier.len() && earlier[k] == sequencer.pending@[i];
        assert(arrivals[origin].0 < u64::MAX);
    }
}

proof fn lemma_far_apart<T>(pending: Seq<(u64, T)>, index: int)
    requires
        0 <= index < pending.len(),
        forall|i: int, j: int| 0 <= i < j < pending.len() ==> pending[i].0 < pending[j].0,
    ensures
        pending[index].0 >= pending[0].0 + index,
    decreases index,
{
    if index > 0 {
        lemma_far_apart(pending, index - 1);
        assert(pending[index - 1].0 < pending[index].0);
    }
}

/// Once the numbers 0 to N-1 have been accepted, in any order, their results have been
/// handed out once each, in the order of the numbers, and none is left.
pub proof fn a_whole_run_comes_out_in_order<T>(arrivals: Seq<(u64, T)>)
    requires
        is_whole_run(arrivals),
    ensures
        run_after(arrivals).next == arrivals.len(),
        run_after(arrivals).pending == Seq::<(u64, T)>::empty(),
        run_after(arrivals).released.len() == arrivals.len(),
        forall|i: int|
            0 <= i < arrivals.len() ==> run_after(arrivals).released[(
            #[trigger] arrivals[i]).0 as int] == arrivals[i].1,
{
    let run = run_after(arrivals);
    a_run_keeps_the_order(arrivals);
    if run.pending.len() > 0 {
        let last = run.pending.len() - 1;
        lemma_far_apart(run.pending, last);
        assert(arrivals.contains(run.pending[last]));
        let origin = choose|k: int| 0 <= k < arrivals.len() && arrivals[k] == run.pending[last];
        assert(arrivals[origin].0 < arrivals.len());
        assert(run.next < run.pending[0].0);
    }
    assert(run.pending =~= Seq::<(u64, T)>::empty());
    assert forall|i: int| 0 <= i < arrivals.len() implies run.released[(
    #[trigger] arrivals[i]).0 as int] == arrivals[i].1 by {
        let number = arrivals[i].0;
        assert(arrivals.contains((number as int as u64, run.released[number as int])));
        let origin = choose|k: int|
            0 <= k < arrivals.len() && arrivals[k] == (number, run.released[number as int]);
        if origin < i {
            assert(arrivals[origin].0 != arrivals[i].0);
        } else if i < origin {
            assert(arrivals[i].0 != arrivals[origin].0);
        }
    }
}

/// Where each result is determined by its number, what comes out is determined by how
/// many came in, not by the order in which they did.
pub proof fn the_order_of_arrival_does_not_matter<T>(
    arrivals: Seq<(u64, T)>,
    made: spec_fn(u64) -> T,
)
    requires
        is_whole_run(arrivals),
        forall|i: int|
            0 <= i < arrivals.len() ==> (#[trigger] arrivals[i]).1 == made(arrivals[i].0),
    ensures
        run_after(arrivals).released == Seq::new(arrivals.len(), |i: int| made(i as u64)),
{
    let run = run_after(arrivals);
    a_whole_run_comes_out_in_order(arrivals);
    a_run_keeps_the_order(arrivals);
    assert forall|i: int| 0 <= i < arrivals.len() implies #[trigger] run.released[i] == made(
        i as u64,
    ) by {
        assert(arrivals.contains((i as u64, run.released[i])));
        let origin = choose|k: int|
            0 <= k < arrivals.len() && arrivals[k] == (i as u64, run.released[i]);
        assert(arrivals[origin].1 == made(arrivals[origin].0));
    }
    assert(run.released =~= Seq::new(arrivals.len(), |i: int| made(i as u64)));
}

/// Whether what comes in are the games of a run, of each lexicon in turn.
pub open spec fn are_games_of(
    arrivals: Seq<(u64, EpisodeModel)>,
    numbers: SelfPlayNumbers,
    strategies: (Strategy, Strategy),
    bags: (Seq<Vec<[u8; 4]>>, Seq<Vec<[u8; 4]>>),
) -> bool {
    forall|i: int|
        0 <= i < arrivals.len() ==> (#[trigger] arrivals[i]).1 == nth_game(
            numbers,
            strategies,
            bags,
            arrivals[i].0,
        )
}

/// A game of a run with the lexicon whose turn it is.
pub open spec fn nth_game(
    numbers: SelfPlayNumbers,
    strategies: (Strategy, Strategy),
    bags: (Seq<Vec<[u8; 4]>>, Seq<Vec<[u8; 4]>>),
    game_index: u64,
) -> EpisodeModel {
    if game_index % 2 == 0 {
        game_of(numbers, strategies.0, bags.0, game_index)
    } else {
        game_of(numbers, strategies.1, bags.1, game_index)
    }
}

/// A run of N games hands out the games 0 to N-1, each once and in order, in whatever
/// order they were finished, and the same games for every number of threads.
pub proof fn a_run_gives_the_same_games_for_every_number_of_threads(
    arrivals: Seq<(u64, EpisodeModel)>,
    others: Seq<(u64, EpisodeModel)>,
    numbers: SelfPlayNumbers,
    other_numbers: SelfPlayNumbers,
    strategies: (Strategy, Strategy),
    bags: (Seq<Vec<[u8; 4]>>, Seq<Vec<[u8; 4]>>),
)
    requires
        is_whole_run(arrivals),
        is_whole_run(others),
        arrivals.len() == others.len(),
        other_numbers == (SelfPlayNumbers { threads: other_numbers.threads, ..numbers }),
        are_games_of(arrivals, numbers, strategies, bags),
        are_games_of(others, other_numbers, strategies, bags),
    ensures
        run_after(arrivals).released == Seq::new(
            arrivals.len(),
            |i: int| nth_game(numbers, strategies, bags, i as u64),
        ),
        run_after(others).released == run_after(arrivals).released,
{
    let made = |number: u64| nth_game(numbers, strategies, bags, number);
    the_order_of_arrival_does_not_matter(arrivals, made);
    assert forall|i: int| 0 <= i < others.len() implies (#[trigger] others[i]).1 == made(
        others[i].0,
    ) by {
        assert(game_depth(other_numbers, others[i].0) == game_depth(numbers, others[i].0));
    }
    the_order_of_arrival_does_not_matter(others, made);
    let games = Seq::new(
        arrivals.len(),
        |i: int| nth_game(numbers, strategies, bags, i as u64),
    );
    assert(run_after(arrivals).released =~= games);
    assert(run_after(others).released =~= games);
}

// ---------------------------------------------------------------------------
// Files
// ---------------------------------------------------------------------------

/// Whether a shard ended early though more of its records are wanted.
pub fn shard_is_short(wanted: bool, decoded: usize, expected: usize) -> (short: bool)
    ensures
        short == (wanted && decoded != expected),
{
    wanted && decoded != expected
}


/// A number in decimal, filled up with zeros to a width.
pub open spec fn padded(number: nat, width: nat) -> Seq<char> {
    if decimal(number).len() >= width {
        decimal(number)
    } else {
        Seq::new((width - decimal(number).len()) as nat, |i: int| '0') + decimal(number)
    }
}

/// Appends a number, filled up with zeros to a width.
pub fn push_padded(text: &mut String, number: u64, width: usize)
    ensures
        final(text)@ == old(text)@ + padded(number as nat, width as nat),
{
    let mut digits: String = String::new();
    push_decimal(&mut digits, number);
    assert(digits@ =~= decimal(number as nat));
    let length: usize = digits.as_str().unicode_len();
    let mut filled: usize = length;
    assert(text@ =~= old(text)@ + Seq::new(0, |i: int| '0'));
    while filled < width
        invariant
            length <= filled,
            digits@ == decimal(number as nat),
            length == digits@.len(),
            length > width ==> filled == length,
            length <= width ==> filled <= width,
            text@ == old(text)@ + Seq::new((filled - length) as nat, |i: int| '0'),
        decreases width - filled,
    {
        text.push('0');
        filled += 1;
        assert(text@ =~= old(text)@ + Seq::new((filled - length) as nat, |i: int| '0'));
    }
    text.append(digits.as_str());
    assert(text@ =~= old(text)@ + padded(number as nat, width as nat));
}

/// The file that shard number `index` goes to.
pub fn shard_file(index: usize) -> (name: String)
    ensures
        name@ == "positions-"@ + padded(index as nat, 5) + ".jsonl.gz"@,
{
    let mut name: String = String::new();
    name.append("positions-");
    push_padded(&mut name, index as u64, 5);
    name.append(".jsonl.gz");
    assert(name@ =~= "positions-"@ + padded(index as nat, 5) + ".jsonl.gz"@);
    name
}

/// The name of a game in a run.
pub fn episode_id(started_at: &str, game_index: u64) -> (name: String)
    ensures
        name@ == started_at@ + "-"@ + padded(game_index as nat, 7),
{
    let mut name: String = String::new();
    name.append(started_at);
    name.append("-");
    push_padded(&mut name, game_index, 7);
    assert(name@ =~= started_at@ + "-"@ + padded(game_index as nat, 7));
    name
}

// ---------------------------------------------------------------------------
// Shards
// ---------------------------------------------------------------------------

/// The shard that is being filled.
#[derive(Clone, Copy, Debug)]
pub struct ShardCounter {
    pub index: usize,
    pub records: usize,
}

/// A shard that is done, with how many records it has.
#[derive(Clone, Copy, Debug)]
pub struct DoneShard {
    pub index: usize,
    pub records: usize,
}

impl ShardCounter {
    pub fn new() -> (shard: Self)
        ensures
            shard.index == 0,
            shard.records == 0,
    {
        ShardCounter { index: 0, records: 0 }
    }

    /// Counts records into the shard; the shard is done once it has enough.
    pub fn fill(&mut self, records: usize, enough: usize) -> (done: Option<DoneShard>)
        requires
            old(self).records + records <= usize::MAX,
            old(self).index < usize::MAX,
        ensures
            ({
                let total = old(self).records + records;
                if total >= enough && total > 0 {
                    &&& done matches Some(shard) && shard.index == old(self).index && shard.records
                        == total
                    &&& final(self).index == old(self).index + 1
                    &&& final(self).records == 0
                } else {
                    &&& done.is_none()
                    &&& final(self).index == old(self).index
                    &&& final(self).records == total
                }
            }),
    {
        self.records = self.records + records;
        if self.records >= enough {
            self.finish()
        } else {
            None
        }
    }

    /// Ends the shard; an empty one is not counted.
    pub fn finish(&mut self) -> (done: Option<DoneShard>)
        requires
            old(self).index < usize::MAX,
        ensures
            if old(self).records > 0 {
                &&& done matches Some(shard) && shard.index == old(self).index && shard.records
                    == old(self).records
                &&& final(self).index == old(self).index + 1
                &&& final(self).records == 0
            } else {
                done.is_none() && *final(self) == *old(self)
            },
    {
        if self.records == 0 {
            return None;
        }
        let done = DoneShard { index: self.index, records: self.records };
        self.index = self.index + 1;
        self.records = 0;
        Some(done)
    }
}

} // verus!
