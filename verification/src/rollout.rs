//! Trying out the first moves of a position.

use vstd::prelude::*;

use crate::board::{filled_count, Board};
use crate::counterfactual::{Task, TrialOptions};
use crate::episode::{chosen_move, MovePolicy};
use crate::game::{count_letters, letters_in};
use crate::native::{word_views, OutcomeModel, Piece, RootCandidate, SearchOutcome, Strategy};
use crate::placement::filled_count_is_bounded;
use crate::roots::{distinct_roots, picked_roots_are_distinct, same_board};

verus! {

// ---------------------------------------------------------------------------
// Playing on
// ---------------------------------------------------------------------------

/// What playing on has brought.
#[derive(Clone, Copy, Debug)]
pub struct Rollout {
    pub score: i32,
    pub lines: u16,
    pub words: u16,
    pub word_length: u16,
    pub placements: u8,
    pub completed: bool,
    pub topped_out: bool,
}

pub ghost struct RolloutModel {
    pub score: int,
    pub lines: int,
    pub words: int,
    pub word_length: int,
    pub placements: int,
    pub completed: bool,
    pub topped_out: bool,
}

impl Rollout {
    pub open spec fn view(&self) -> RolloutModel {
        RolloutModel {
            score: self.score as int,
            lines: self.lines as int,
            words: self.words as int,
            word_length: self.word_length as int,
            placements: self.placements as int,
            completed: self.completed,
            topped_out: self.topped_out,
        }
    }

    pub open spec fn wf(&self) -> bool {
        &&& self.lines <= 61
        &&& 0 <= self.score <= 200_000 * self.lines
        &&& self.words <= 20 * self.lines
        &&& self.word_length <= 10 * self.words
    }
}

/// A number of lines as far as a byte can say.
pub open spec fn byte_lines(lines: int) -> int {
    vstd::math::min(lines, 255)
}

/// What playing on brings after one more move.
pub open spec fn rolled(so_far: RolloutModel, lines: int, outcome: OutcomeModel) -> RolloutModel {
    let words = outcome.immediate_words;
    RolloutModel {
        score: so_far.score + outcome.immediate_score,
        lines: so_far.lines + outcome.immediate_lines,
        words: so_far.words + words.len(),
        word_length: so_far.word_length + letters_in(words, words.len() as int),
        placements: so_far.placements + 1,
        completed: byte_lines(lines + outcome.immediate_lines) >= 40,
        topped_out: so_far.topped_out,
    }
}

/// The move that is made with piece number `placement` behind the first.
#[verifier::opaque]
pub open spec fn next_outcome(
    strategy: Strategy,
    future: Seq<Piece>,
    options: TrialOptions,
    board: Seq<u8>,
    lines: int,
    placement: int,
) -> Option<OutcomeModel> {
    chosen_move(
        strategy,
        MovePolicy::Best { width: options.rollout_beam_width },
        board,
        lines,
        future.subrange(1 + placement, 1 + placement + options.rollout_depth),
    )
}

/// What playing on brings from move number `placement` to the horizon, or until
/// the game ends.
pub open spec fn rolled_out(
    strategy: Strategy,
    future: Seq<Piece>,
    options: TrialOptions,
    board: Seq<u8>,
    lines: int,
    so_far: RolloutModel,
    placement: int,
) -> RolloutModel
    decreases options.horizon - placement,
{
    if placement >= options.horizon || so_far.completed {
        so_far
    } else {
        match next_outcome(strategy, future, options, board, lines, placement) {
            None => RolloutModel { topped_out: true, ..so_far },
            Some(outcome) => rolled_out(
                strategy,
                future,
                options,
                outcome.board,
                byte_lines(lines + outcome.immediate_lines),
                rolled(so_far, lines, outcome),
                placement + 1,
            ),
        }
    }
}

/// What playing on brings after a first move that left `board` and `lines`.
pub open spec fn rollout_after(
    strategy: Strategy,
    future: Seq<Piece>,
    options: TrialOptions,
    board: Seq<u8>,
    lines: int,
) -> RolloutModel {
    rolled_out(
        strategy,
        future,
        options,
        board,
        lines,
        RolloutModel {
            score: 0,
            lines: 0,
            words: 0,
            word_length: 0,
            placements: 0,
            completed: lines >= 40,
            topped_out: false,
        },
        0,
    )
}

fn add_lines(current: u8, more: u8) -> (lines: u8)
    ensures
        lines == byte_lines(current + more),
{
    current.saturating_add(more)
}

fn next_move(
    strategy: &Strategy,
    future: &Vec<Piece>,
    options: &TrialOptions,
    board: &Board,
    lines: u8,
    placement: usize,
) -> (outcome: Option<SearchOutcome>)
    requires
        1 + placement + options.rollout_depth <= future.len(),
    ensures
        ({
            let chosen = next_outcome(
                *strategy,
                future@,
                *options,
                board@,
                lines as int,
                placement as int,
            );
            match outcome {
                None => chosen.is_none(),
                Some(found) => {
                    &&& chosen == Some(found@)
                    &&& found.wf()
                    &&& filled_count(found.board@) == filled_count(board@) + 4 - 10
                        * found.immediate_lines
                },
            }
        }),
{
    reveal(next_outcome);
    let sequence: &[Piece] = vstd::slice::slice_subrange(
        future.as_slice(),
        1 + placement,
        1 + placement + options.rollout_depth,
    );
    strategy.find_best_move(board, lines, sequence, options.rollout_beam_width)
}

fn roll_on(result: Rollout, lines: u8, outcome: &SearchOutcome) -> (more: Rollout)
    requires
        result.wf(),
        result.lines < 40,
        result.placements < 255,
        outcome.wf(),
    ensures
        more.wf(),
        more@ == rolled(result@, lines as int, outcome@),
{
    let letters: u32 = count_letters(&outcome.immediate_words);
    assert(word_views(outcome.immediate_words@).len() == outcome.immediate_words.len());
    Rollout {
        score: result.score + outcome.immediate_score,
        lines: result.lines + outcome.immediate_lines as u16,
        words: result.words + outcome.immediate_words.len() as u16,
        word_length: result.word_length + letters as u16,
        placements: result.placements + 1,
        completed: add_lines(lines, outcome.immediate_lines) >= 40,
        topped_out: result.topped_out,
    }
}

/// Plays on after a first move, with the same pieces whatever the move was.
pub fn rollout(strategy: &Strategy, task: &Task, candidate: &RootCandidate, options: &TrialOptions) -> (
    result: Rollout)
    requires
        task.wf(),
        candidate.wf(),
        options.valid(),
        options.horizon + options.rollout_depth <= task.future.len(),
    ensures
        result.wf(),
        result@ == rollout_after(
            *strategy,
            task.future@,
            *options,
            candidate.board@,
            byte_lines(task.current_lines + candidate.immediate_lines),
        ),
{
    let mut board: Board = candidate.board;
    let mut current_lines: u8 = add_lines(task.current_lines, candidate.immediate_lines);
    let ghost start = current_lines as int;
    let ghost cells = filled_count(board@) as int;
    let mut result = Rollout {
        score: 0,
        lines: 0,
        words: 0,
        word_length: 0,
        placements: 0,
        completed: current_lines >= 40,
        topped_out: false,
    };
    let ghost goal = rollout_after(
        *strategy,
        task.future@,
        *options,
        candidate.board@,
        current_lines as int,
    );
    let mut placement: usize = 0;
    while placement < options.horizon && !result.completed
        invariant
            task.wf(),
            options.valid(),
            options.horizon + options.rollout_depth <= task.future.len(),
            placement <= options.horizon,
            result.wf(),
            result.completed == (current_lines >= 40),
            !result.completed ==> current_lines == start + result.lines,
            filled_count(board@) == cells + 4 * result.placements - 10 * result.lines,
            0 <= cells,
            0 <= start,
            goal == rollout_after(
                *strategy,
                task.future@,
                *options,
                candidate.board@,
                byte_lines(task.current_lines + candidate.immediate_lines),
            ),
            goal == rolled_out(
                *strategy,
                task.future@,
                *options,
                board@,
                current_lines as int,
                result@,
                placement as int,
            ),
        decreases options.horizon - placement,
    {
        proof {
            filled_count_is_bounded(board@);
        }
        match next_move(strategy, &task.future, options, &board, current_lines, placement) {
            None => {
                result.topped_out = true;
                return result;
            },
            Some(outcome) => {
                board = outcome.board;
                result = roll_on(result, current_lines, &outcome);
                current_lines = add_lines(current_lines, outcome.immediate_lines);
            },
        }
        placement += 1;
    }
    result
}

// ---------------------------------------------------------------------------
// Trying the candidates
// ---------------------------------------------------------------------------

/// What topping out costs.
pub const TOP_OUT_PENALTY: i32 = 2_500;

/// A first move that was tried. The heuristic value counts units of 2^-55.
pub struct CounterfactualRecord {
    pub board: Board,
    pub visible: [Piece; 5],
    pub current_lines: u8,
    pub lexicon: u8,
    pub rank: u8,
    pub seed: u32,
    pub step: u16,
    pub candidate_count: u16,
    pub immediate_score: i32,
    pub immediate_lines: u8,
    pub immediate_words: u8,
    pub immediate_word_length: u16,
    pub projected_score: i32,
    pub projected_lines: u16,
    pub heuristic_value: i128,
    pub rollout: Rollout,
}

/// What a tried move is worth: its own score and that of playing on, less the
/// penalty for topping out.
pub open spec fn objective_of(immediate_score: int, rollout_score: int, topped_out: bool) -> int {
    immediate_score + rollout_score - (if topped_out {
        2_500int
    } else {
        0
    })
}

impl CounterfactualRecord {
    pub open spec fn worth(&self) -> int {
        objective_of(
            self.immediate_score as int,
            self.rollout.score as int,
            self.rollout.topped_out,
        )
    }

    pub open spec fn wf(&self) -> bool {
        &&& 0 <= self.immediate_score <= 4_400_000
        &&& self.rollout.wf()
    }

    /// Whether what a tried move is worth fits into 32 bits, as does the sum of its
    /// scores.
    pub open spec fn fits(&self) -> bool {
        &&& i32::MIN <= self.immediate_score + self.rollout.score <= i32::MAX
        &&& i32::MIN <= self.worth()
    }

    pub fn objective(&self) -> (objective: i32)
        requires
            self.fits(),
        ensures
            objective == self.worth(),
            self.wf() ==> -2_500 <= objective <= 20_000_000,
    {
        let penalty: i32 = if self.rollout.topped_out {
            TOP_OUT_PENALTY
        } else {
            0
        };
        self.immediate_score + self.rollout.score - penalty
    }
}

/// Why a position cannot be tried.
#[derive(Clone, Copy, Debug, PartialEq, Eq, Structural)]
pub enum TrialFault {
    NoBaseline,
    NoCandidates,
}

/// The first candidate with this board, among those below `count`.
pub open spec fn candidate_with_board(
    candidates: Seq<RootCandidate>,
    board: Seq<u8>,
    from: int,
) -> Option<int>
    decreases candidates.len() - from,
{
    if from >= candidates.len() {
        None
    } else if candidates[from].board@ == board {
        Some(from)
    } else {
        candidate_with_board(candidates, board, from + 1)
    }
}

/// Whether a candidate stands for the usual move, with the whole-number value that
/// the search gave it.
pub open spec fn stands_for(candidate: RootCandidate, outcome: SearchOutcome) -> bool {
    &&& candidate.board == outcome.board
    &&& candidate.letter_shift == outcome.letter_shift
    &&& candidate.rotation == outcome.rotation
    &&& candidate.row == outcome.row
    &&& candidate.col == outcome.col
    &&& candidate.immediate_score == outcome.immediate_score
    &&& candidate.immediate_lines == outcome.immediate_lines
    &&& candidate.immediate_words == outcome.immediate_words
    &&& candidate.projected_score == outcome.projected_score
    &&& candidate.projected_lines == outcome.projected_lines
    &&& candidate.heuristic_value == outcome.evaluation * 0x80_0000_0000_0000
}

/// Whether the usual move has been put in front: moved there where it is among the
/// candidates, or else added, with no more than `limit` in all.
pub open spec fn has_baseline_first(
    before: Seq<RootCandidate>,
    baseline: SearchOutcome,
    limit: int,
    after: Seq<RootCandidate>,
) -> bool {
    match candidate_with_board(before, baseline.board@, 0) {
        Some(place) => after == before.remove(place).insert(0, before[place]),
        None => {
            &&& after.len() == vstd::math::min(before.len() as int + 1, limit)
            &&& after.len() > 0 ==> stands_for(after[0], baseline)
            &&& forall|i: int| 1 <= i < after.len() ==> #[trigger] after[i] == before[i - 1]
        },
    }
}

proof fn lemma_candidate_with_board(candidates: Seq<RootCandidate>, board: Seq<u8>, from: int)
    requires
        0 <= from,
    ensures
        candidate_with_board(candidates, board, from) matches Some(place) ==> from <= place
            < candidates.len() && candidates[place].board@ == board,
    decreases candidates.len() - from,
{
    if from < candidates.len() && candidates[from].board@ != board {
        lemma_candidate_with_board(candidates, board, from + 1);
    }
}

pub open spec fn candidates_wf(candidates: Seq<RootCandidate>) -> bool {
    forall|i: int| 0 <= i < candidates.len() ==> (#[trigger] candidates[i]).wf()
}

/// Puts the usual move in front of the candidates.
pub fn put_baseline_first(
    candidates: Vec<RootCandidate>,
    baseline: SearchOutcome,
    limit: usize,
) -> (ordered: Vec<RootCandidate>)
    requires
        candidates_wf(candidates@),
        baseline.wf(),
    ensures
        has_baseline_first(candidates@, baseline, limit as int, ordered@),
        candidates_wf(ordered@),
{
    let ghost before = candidates@;
    let mut candidates: Vec<RootCandidate> = candidates;
    let mut place: usize = 0;
    while place < candidates.len() && !same_board(&candidates[place].board, &baseline.board)
        invariant
            candidates@ == before,
            place <= candidates.len(),
            candidate_with_board(before, baseline.board@, 0) == candidate_with_board(
                before,
                baseline.board@,
                place as int,
            ),
        decreases candidates.len() - place,
    {
        place += 1;
    }
    if place < candidates.len() {
        assert(before[place as int].wf());
        let found: RootCandidate = candidates.remove(place);
        candidates.insert(0, found);
        assert(candidates_wf(candidates@)) by {
            assert forall|i: int| 0 <= i < candidates@.len() implies (
            #[trigger] candidates@[i]).wf() by {
                if 0 < i <= place {
                    assert(before[i - 1].wf());
                } else if i > place {
                    assert(before[i].wf());
                }
            }
        }
        candidates
    } else {
        let added = RootCandidate {
            board: baseline.board,
            letter_shift: baseline.letter_shift,
            rotation: baseline.rotation,
            row: baseline.row,
            col: baseline.col,
            immediate_score: baseline.immediate_score,
            immediate_lines: baseline.immediate_lines,
            immediate_words: baseline.immediate_words,
            projected_score: baseline.projected_score,
            projected_lines: baseline.projected_lines,
            heuristic_value: baseline.evaluation as i128 * 0x80_0000_0000_0000,
        };
        candidates.insert(0, added);
        let ghost longer = candidates@;
        assert(longer =~= before.insert(0, added));
        candidates.truncate(limit);
        assert(candidates_wf(candidates@)) by {
            assert forall|i: int| 0 <= i < candidates@.len() implies (
            #[trigger] candidates@[i]).wf() by {
                assert(candidates@[i] == longer[i]);
                if i > 0 {
                    assert(before[i - 1].wf());
                }
            }
        }
        candidates
    }
}

/// The usual move stands in front.
pub proof fn the_usual_move_comes_first(
    before: Seq<RootCandidate>,
    baseline: SearchOutcome,
    limit: int,
    after: Seq<RootCandidate>,
)
    requires
        limit >= 1,
        has_baseline_first(before, baseline, limit, after),
    ensures
        after.len() >= 1,
        after[0].board@ == baseline.board@,
{
    lemma_candidate_with_board(before, baseline.board@, 0);
}

proof fn lemma_board_is_missing(candidates: Seq<RootCandidate>, board: Seq<u8>, from: int)
    requires
        0 <= from,
        candidate_with_board(candidates, board, from).is_none(),
    ensures
        forall|i: int| from <= i < candidates.len() ==> (#[trigger] candidates[i]).board@ != board,
    decreases candidates.len() - from,
{
    if from < candidates.len() {
        lemma_board_is_missing(candidates, board, from + 1);
    }
}

pub open spec fn boards_differ(candidates: Seq<RootCandidate>) -> bool {
    forall|i: int, j: int|
        0 <= i < j < candidates.len() ==> candidates[i].board@ != candidates[j].board@
}

/// Putting the usual move in front leaves no board twice.
pub proof fn ordered_boards_differ(
    before: Seq<RootCandidate>,
    baseline: SearchOutcome,
    limit: int,
    after: Seq<RootCandidate>,
)
    requires
        boards_differ(before),
        has_baseline_first(before, baseline, limit, after),
    ensures
        boards_differ(after),
{
    lemma_candidate_with_board(before, baseline.board@, 0);
    match candidate_with_board(before, baseline.board@, 0) {
        Some(place) => {
            assert forall|i: int, j: int| 0 <= i < j < after.len() implies after[i].board@
                != after[j].board@ by {
                let right = if j <= place {
                    j - 1
                } else {
                    j
                };
                let left = if i == 0 {
                    place
                } else if i <= place {
                    i - 1
                } else {
                    i
                };
                assert(after[i] == before[left] && after[j] == before[right]);
                if left < right {
                    assert(before[left].board@ != before[right].board@);
                } else {
                    assert(before[right].board@ != before[left].board@);
                }
            }
        },
        None => {
            lemma_board_is_missing(before, baseline.board@, 0);
            assert forall|i: int, j: int| 0 <= i < j < after.len() implies after[i].board@
                != after[j].board@ by {
                assert(after[j] == before[j - 1]);
                if i > 0 {
                    assert(after[i] == before[i - 1]);
                }
            }
        },
    }
}

/// Whether a record says what trying a candidate brought.
pub open spec fn is_trial(
    record: CounterfactualRecord,
    strategy: Strategy,
    task: Task,
    options: TrialOptions,
    candidate: RootCandidate,
    rank: int,
    count: int,
) -> bool {
    let words = word_views(candidate.immediate_words@);
    &&& record.board == candidate.board
    &&& record.visible@ == task.future@.subrange(1, 6)
    &&& record.current_lines == byte_lines(task.current_lines + candidate.immediate_lines)
    &&& record.lexicon == task.lexicon
    &&& record.rank == rank
    &&& record.seed == task.seed
    &&& record.step == task.step
    &&& record.candidate_count == count
    &&& record.immediate_score == candidate.immediate_score
    &&& record.immediate_lines == candidate.immediate_lines
    &&& record.immediate_words == words.len()
    &&& record.immediate_word_length == letters_in(words, words.len() as int)
    &&& record.projected_score == candidate.projected_score
    &&& record.projected_lines == candidate.projected_lines
    &&& record.heuristic_value == candidate.heuristic_value
    &&& record.rollout@ == rollout_after(
        strategy,
        task.future@,
        options,
        candidate.board@,
        byte_lines(task.current_lines + candidate.immediate_lines),
    )
}

/// Tries one candidate.
fn try_candidate(
    strategy: &Strategy,
    task: &Task,
    options: &TrialOptions,
    candidate: &RootCandidate,
    rank: u8,
    count: u16,
) -> (record: CounterfactualRecord)
    requires
        task.wf(),
        options.valid(),
        options.future() <= task.future.len(),
        candidate.wf(),
    ensures
        is_trial(record, *strategy, *task, *options, *candidate, rank as int, count as int),
        record.wf(),
{
    let future: &Vec<Piece> = &task.future;
    let visible: [Piece; 5] = [future[1], future[2], future[3], future[4], future[5]];
    assert(visible@ =~= task.future@.subrange(1, 6));
    let letters: u32 = count_letters(&candidate.immediate_words);
    assert(word_views(candidate.immediate_words@).len() == candidate.immediate_words.len());
    CounterfactualRecord {
        board: candidate.board,
        visible,
        current_lines: add_lines(task.current_lines, candidate.immediate_lines),
        lexicon: task.lexicon,
        rank,
        seed: task.seed,
        step: task.step,
        candidate_count: count,
        immediate_score: candidate.immediate_score,
        immediate_lines: candidate.immediate_lines,
        immediate_words: candidate.immediate_words.len() as u8,
        immediate_word_length: letters as u16,
        projected_score: candidate.projected_score,
        projected_lines: candidate.projected_lines,
        heuristic_value: candidate.heuristic_value,
        rollout: rollout(strategy, task, candidate, options),
    }
}

/// Tries candidates, in order.
pub fn try_candidates(
    strategy: &Strategy,
    task: &Task,
    options: &TrialOptions,
    candidates: &Vec<RootCandidate>,
) -> (records: Vec<CounterfactualRecord>)
    requires
        task.wf(),
        options.valid(),
        options.future() <= task.future.len(),
        candidates_wf(candidates@),
        candidates.len() <= 255,
    ensures
        records.len() == candidates.len(),
        forall|i: int|
            0 <= i < records.len() ==> is_trial(
                #[trigger] records@[i],
                *strategy,
                *task,
                *options,
                candidates@[i],
                i,
                candidates.len() as int,
            ),
        forall|i: int| 0 <= i < records.len() ==> (#[trigger] records@[i]).wf(),
{
    let mut records: Vec<CounterfactualRecord> = Vec::new();
    let mut index: usize = 0;
    while index < candidates.len()
        invariant
            index <= candidates.len() <= 255,
            task.wf(),
            options.valid(),
            options.future() <= task.future.len(),
            candidates_wf(candidates@),
            records.len() == index,
            forall|i: int|
                0 <= i < records.len() ==> is_trial(
                    #[trigger] records@[i],
                    *strategy,
                    *task,
                    *options,
                    candidates@[i],
                    i,
                    candidates.len() as int,
                ),
            forall|i: int| 0 <= i < records.len() ==> (#[trigger] records@[i]).wf(),
        decreases candidates.len() - index,
    {
        assert(candidates@[index as int].wf());
        records.push(
            try_candidate(
                strategy,
                task,
                options,
                &candidates[index],
                index as u8,
                candidates.len() as u16,
            ),
        );
        index += 1;
    }
    records
}

/// Whether these are the candidates that a search finds in a task's position.
pub open spec fn are_candidates(
    candidates: Seq<RootCandidate>,
    strategy: Strategy,
    task: Task,
    options: TrialOptions,
) -> bool {
    let leaves = strategy.leaves(
        task.board@,
        task.current_lines as int,
        task.future@.take(options.search_depth as int),
        options.candidate_beam_width as int,
    );
    let picks = distinct_roots(leaves, options.candidates as int, leaves.states.len() as int);
    &&& candidates.len() == picks.len()
    &&& forall|i: int|
        0 <= i < picks.len() ==> (#[trigger] candidates[i]).describes(leaves, picks[i])
}

/// Whether this is the usual move in a task's position.
pub open spec fn is_baseline(
    outcome: SearchOutcome,
    strategy: Strategy,
    task: Task,
    options: TrialOptions,
) -> bool {
    chosen_move(
        strategy,
        MovePolicy::Best { width: options.rollout_beam_width },
        task.board@,
        task.current_lines as int,
        task.future@.take(options.search_depth as int),
    ) == Some(outcome@)
}

/// Whether these records say what trying the candidates brought, the usual move first.
pub open spec fn is_group(
    records: Seq<CounterfactualRecord>,
    strategy: Strategy,
    task: Task,
    options: TrialOptions,
    baseline: SearchOutcome,
    found: Seq<RootCandidate>,
    ordered: Seq<RootCandidate>,
) -> bool {
    &&& is_baseline(baseline, strategy, task, options)
    &&& are_candidates(found, strategy, task, options)
    &&& has_baseline_first(found, baseline, options.candidates as int, ordered)
    &&& records.len() == ordered.len()
    &&& forall|i: int|
        0 <= i < records.len() ==> is_trial(
            #[trigger] records[i],
            strategy,
            task,
            options,
            ordered[i],
            i,
            ordered.len() as int,
        )
}

/// Tries the candidates of a task's position, the usual move first.
pub fn process_task(strategy: &Strategy, task: &Task, options: &TrialOptions) -> (records: Result<
    Vec<CounterfactualRecord>,
    TrialFault,
>)
    requires
        task.wf(),
        options.valid(),
        options.future() <= task.future.len(),
    ensures
        match records {
            Ok(found) => {
                &&& strategy.can_search(
                    task.board@,
                    task.future@.take(options.search_depth as int),
                )
                &&& 1 <= found.len() <= options.candidates
                &&& forall|i: int| 0 <= i < found.len() ==> (#[trigger] found@[i]).wf()
                &&& exists|
                    baseline: SearchOutcome,
                    candidates: Seq<RootCandidate>,
                    ordered: Seq<RootCandidate>,
                | #[trigger]
                    is_group(found@, *strategy, *task, *options, baseline, candidates, ordered)
            },
            Err(fault) => {
                &&& fault == TrialFault::NoBaseline
                &&& !strategy.can_search(
                    task.board@,
                    task.future@.take(options.search_depth as int),
                )
            },
        },
{
    let sequence: &[Piece] = vstd::slice::slice_subrange(
        task.future.as_slice(),
        0,
        options.search_depth,
    );
    assert(sequence@ =~= task.future@.take(options.search_depth as int));
    let baseline: SearchOutcome = match strategy.find_best_move(
        &task.board,
        task.current_lines,
        sequence,
        options.rollout_beam_width,
    ) {
        Some(outcome) => outcome,
        None => return Err(TrialFault::NoBaseline),
    };
    let candidates: Vec<RootCandidate> = strategy.root_candidates(
        &task.board,
        task.current_lines,
        sequence,
        options.candidate_beam_width,
        options.candidates,
    );
    proof {
        let leaves = strategy.leaves(
            task.board@,
            task.current_lines as int,
            sequence@,
            options.candidate_beam_width as int,
        );
        picked_roots_are_distinct(leaves, options.candidates as int);
    }
    let ghost found = candidates@;
    if candidates.len() == 0 {
        return Err(TrialFault::NoCandidates);
    }
    let ghost usual = baseline;
    let ordered: Vec<RootCandidate> = put_baseline_first(candidates, baseline, options.candidates);
    proof {
        lemma_candidate_with_board(found, usual.board@, 0);
    }
    let records: Vec<CounterfactualRecord> = try_candidates(strategy, task, options, &ordered);
    assert(is_group(records@, *strategy, *task, *options, usual, found, ordered@));
    Ok(records)
}

} // verus!
