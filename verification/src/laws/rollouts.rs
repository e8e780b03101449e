//! Laws of playing on: what a rollout reports is the sum of its moves, and a longer
//! horizon only adds to it.

use vstd::prelude::*;

use crate::counterfactual::TrialOptions;
use crate::episode::{chosen_move, MovePolicy};
use crate::game::letters_in;
use crate::laws::counting::{
    adds_up_to, are_running_sums, lemma_longer_sums, one_part_more_adds_itself,
};
use crate::laws::moves::the_usual_move_leads_to_a_best_end;
use crate::native::{OutcomeModel, Piece, SpelledWord, Strategy};
use crate::rollout::{next_outcome, objective_of, rolled, rolled_out, rollout_after, RolloutModel};

verus! {

// ---------------------------------------------------------------------------
// What moves bring
// ---------------------------------------------------------------------------

/// How many letters each word has.
pub open spec fn lengths_of(words: Seq<SpelledWord>) -> Seq<int> {
    Seq::new(words.len(), |i: int| words[i].text.len() as int)
}

pub open spec fn scores_of(moves: Seq<OutcomeModel>) -> Seq<int> {
    Seq::new(moves.len(), |k: int| moves[k].immediate_score)
}

pub open spec fn lines_of(moves: Seq<OutcomeModel>) -> Seq<int> {
    Seq::new(moves.len(), |k: int| moves[k].immediate_lines)
}

pub open spec fn word_counts_of(moves: Seq<OutcomeModel>) -> Seq<int> {
    Seq::new(moves.len(), |k: int| moves[k].immediate_words.len() as int)
}

pub open spec fn letter_counts_of(moves: Seq<OutcomeModel>) -> Seq<int> {
    Seq::new(
        moves.len(),
        |k: int| letters_in(moves[k].immediate_words, moves[k].immediate_words.len() as int),
    )
}

proof fn lemma_letters(words: Seq<SpelledWord>, count: int)
    requires
        0 <= count <= words.len(),
    ensures
        adds_up_to(lengths_of(words.take(count)), letters_in(words, count)),
        letters_in(words, count) >= 0,
    decreases count,
{
    if count == 0 {
        one_part_more_adds_itself(Seq::empty(), 0, 0);
        assert(lengths_of(words.take(0)) =~= Seq::<int>::empty());
    } else {
        lemma_letters(words, count - 1);
        let parts = lengths_of(words.take(count - 1));
        let more = words[count - 1].text.len() as int;
        one_part_more_adds_itself(parts, letters_in(words, count - 1), more);
        assert(lengths_of(words.take(count)) =~= parts.push(more));
    }
}

/// The letters of words are those of each word, added up.
pub proof fn letters_add_up_word_by_word(words: Seq<SpelledWord>)
    ensures
        adds_up_to(lengths_of(words), letters_in(words, words.len() as int)),
        letters_in(words, words.len() as int) >= 0,
{
    lemma_letters(words, words.len() as int);
    assert(words.take(words.len() as int) =~= words);
}

/// Whether a result is what moves bring together: their points, lines, words and
/// letters, and how many they are.
pub open spec fn is_sum_of(result: RolloutModel, moves: Seq<OutcomeModel>) -> bool {
    &&& adds_up_to(scores_of(moves), result.score)
    &&& adds_up_to(lines_of(moves), result.lines)
    &&& adds_up_to(word_counts_of(moves), result.words)
    &&& adds_up_to(letter_counts_of(moves), result.word_length)
    &&& result.placements == moves.len()
}

proof fn lemma_no_moves(result: RolloutModel)
    requires
        result.score == 0,
        result.lines == 0,
        result.words == 0,
        result.word_length == 0,
        result.placements == 0,
    ensures
        is_sum_of(result, Seq::empty()),
        lines_of(Seq::empty()) == Seq::<int>::empty(),
{
    let none = Seq::<OutcomeModel>::empty();
    one_part_more_adds_itself(Seq::empty(), 0, 0);
    assert(scores_of(none) =~= Seq::<int>::empty());
    assert(lines_of(none) =~= Seq::<int>::empty());
    assert(word_counts_of(none) =~= Seq::<int>::empty());
    assert(letter_counts_of(none) =~= Seq::<int>::empty());
}

proof fn lemma_one_more_move(
    result: RolloutModel,
    moves: Seq<OutcomeModel>,
    lines: int,
    outcome: OutcomeModel,
)
    requires
        is_sum_of(result, moves),
    ensures
        is_sum_of(rolled(result, lines, outcome), moves.push(outcome)),
        lines_of(moves.push(outcome)) == lines_of(moves).push(outcome.immediate_lines),
{
    let words = outcome.immediate_words;
    let letters = letters_in(words, words.len() as int);
    let more = moves.push(outcome);
    one_part_more_adds_itself(scores_of(moves), result.score, outcome.immediate_score);
    one_part_more_adds_itself(lines_of(moves), result.lines, outcome.immediate_lines);
    one_part_more_adds_itself(word_counts_of(moves), result.words, words.len() as int);
    one_part_more_adds_itself(letter_counts_of(moves), result.word_length, letters);
    assert(scores_of(more) =~= scores_of(moves).push(outcome.immediate_score));
    assert(lines_of(more) =~= lines_of(moves).push(outcome.immediate_lines));
    assert(word_counts_of(more) =~= word_counts_of(moves).push(words.len() as int));
    assert(letter_counts_of(more) =~= letter_counts_of(moves).push(letters));
}

// ---------------------------------------------------------------------------
// Which moves are made
// ---------------------------------------------------------------------------

/// The board on which move number `step` is made.
pub open spec fn board_left(board: Seq<u8>, moves: Seq<OutcomeModel>, step: int) -> Seq<u8> {
    if step == 0 {
        board
    } else {
        moves[step - 1].board
    }
}

/// The move that is chosen with the pieces from number `step` behind the first on.
#[verifier::opaque]
pub open spec fn usual_move(
    strategy: Strategy,
    future: Seq<Piece>,
    options: TrialOptions,
    board: Seq<u8>,
    lines: int,
    step: int,
) -> Option<OutcomeModel> {
    chosen_move(
        strategy,
        MovePolicy::Best { width: options.rollout_beam_width },
        board,
        lines,
        future.subrange(1 + step, 1 + step + options.rollout_depth),
    )
}

/// Whether move number `step` is the one chosen on the board that the move before left,
/// with the lines done by then, which are fewer than forty.
pub open spec fn is_made(
    strategy: Strategy,
    future: Seq<Piece>,
    options: TrialOptions,
    board: Seq<u8>,
    lines: int,
    moves: Seq<OutcomeModel>,
    done: Seq<int>,
    step: int,
) -> bool {
    &&& lines + done[step] < 40
    &&& usual_move(
        strategy,
        future,
        options,
        board_left(board, moves, step),
        lines + done[step],
        step,
    ) == Some(moves[step])
}

/// Whether the moves are made one after another, with so many lines done before each.
pub open spec fn are_made(
    strategy: Strategy,
    future: Seq<Piece>,
    options: TrialOptions,
    board: Seq<u8>,
    lines: int,
    moves: Seq<OutcomeModel>,
    done: Seq<int>,
) -> bool {
    &&& are_running_sums(lines_of(moves), done)
    &&& forall|step: int|
        0 <= step < moves.len() ==> #[trigger] is_made(
            strategy,
            future,
            options,
            board,
            lines,
            moves,
            done,
            step,
        )
}

/// Whether a rollout ends here: at the horizon, with forty lines, or where no move is
/// left, and says which.
pub open spec fn ends_rightly(
    strategy: Strategy,
    future: Seq<Piece>,
    options: TrialOptions,
    board: Seq<u8>,
    lines: int,
    moves: Seq<OutcomeModel>,
    result: RolloutModel,
) -> bool {
    let next = usual_move(
        strategy,
        future,
        options,
        board_left(board, moves, moves.len() as int),
        lines + result.lines,
        moves.len() as int,
    );
    &&& moves.len() <= options.horizon
    &&& result.completed == (lines + result.lines >= 40)
    &&& result.topped_out == (moves.len() < options.horizon && !result.completed && next.is_none())
    &&& moves.len() < options.horizon ==> result.completed || result.topped_out
}

/// Whether a rollout consists of these moves.
pub open spec fn consists_of(
    strategy: Strategy,
    future: Seq<Piece>,
    options: TrialOptions,
    board: Seq<u8>,
    lines: int,
    moves: Seq<OutcomeModel>,
    done: Seq<int>,
    result: RolloutModel,
) -> bool {
    &&& are_made(strategy, future, options, board, lines, moves, done)
    &&& is_sum_of(result, moves)
    &&& ends_rightly(strategy, future, options, board, lines, moves, result)
}

proof fn lemma_usual_move(
    strategy: Strategy,
    future: Seq<Piece>,
    options: TrialOptions,
    board: Seq<u8>,
    lines: int,
    step: int,
)
    ensures
        next_outcome(strategy, future, options, board, lines, step) == usual_move(
            strategy,
            future,
            options,
            board,
            lines,
            step,
        ),
{
    reveal(next_outcome);
    reveal(usual_move);
}

/// Whether so much has been played: the moves made up to a board.
spec fn has_played(
    strategy: Strategy,
    future: Seq<Piece>,
    options: TrialOptions,
    board: Seq<u8>,
    lines: int,
    moves: Seq<OutcomeModel>,
    done: Seq<int>,
    so_far: RolloutModel,
    here: Seq<u8>,
    count: int,
) -> bool {
    &&& are_made(strategy, future, options, board, lines, moves, done)
    &&& is_sum_of(so_far, moves)
    &&& done[moves.len() as int] == so_far.lines
    &&& here == board_left(board, moves, moves.len() as int)
    &&& so_far.completed == (lines + so_far.lines >= 40)
    &&& !so_far.topped_out
    &&& !so_far.completed ==> count == lines + so_far.lines
}

proof fn lemma_one_more_made(
    strategy: Strategy,
    future: Seq<Piece>,
    options: TrialOptions,
    board: Seq<u8>,
    lines: int,
    moves: Seq<OutcomeModel>,
    done: Seq<int>,
    outcome: OutcomeModel,
)
    requires
        are_made(strategy, future, options, board, lines, moves, done),
        lines + done[moves.len() as int] < 40,
        usual_move(
            strategy,
            future,
            options,
            board_left(board, moves, moves.len() as int),
            lines + done[moves.len() as int],
            moves.len() as int,
        ) == Some(outcome),
    ensures
        are_made(
            strategy,
            future,
            options,
            board,
            lines,
            moves.push(outcome),
            done.push(done[moves.len() as int] + outcome.immediate_lines),
        ),
{
    let more = moves.push(outcome);
    let after = done.push(done[moves.len() as int] + outcome.immediate_lines);
    lemma_longer_sums(lines_of(moves), done, outcome.immediate_lines);
    assert(lines_of(moves).len() == moves.len());
    assert(lines_of(more) =~= lines_of(moves).push(outcome.immediate_lines));
    assert(are_running_sums(lines_of(more), after));
    assert forall|step: int| 0 <= step < more.len() implies #[trigger] is_made(
        strategy,
        future,
        options,
        board,
        lines,
        more,
        after,
        step,
    ) by {
        assert(board_left(board, more, step) == board_left(board, moves, step));
        if step < moves.len() {
            assert(is_made(strategy, future, options, board, lines, moves, done, step));
        }
    }
}

proof fn lemma_next_move(
    strategy: Strategy,
    future: Seq<Piece>,
    options: TrialOptions,
    board: Seq<u8>,
    lines: int,
    moves: Seq<OutcomeModel>,
    done: Seq<int>,
    so_far: RolloutModel,
    here: Seq<u8>,
    count: int,
    outcome: OutcomeModel,
)
    requires
        has_played(strategy, future, options, board, lines, moves, done, so_far, here, count),
        !so_far.completed,
        next_outcome(strategy, future, options, here, count, moves.len() as int) == Some(outcome),
    ensures
        has_played(
            strategy,
            future,
            options,
            board,
            lines,
            moves.push(outcome),
            done.push(so_far.lines + outcome.immediate_lines),
            rolled(so_far, count, outcome),
            outcome.board,
            crate::rollout::byte_lines(count + outcome.immediate_lines),
        ),
{
    lemma_usual_move(strategy, future, options, here, count, moves.len() as int);
    lemma_one_more_move(so_far, moves, count, outcome);
    lemma_one_more_made(strategy, future, options, board, lines, moves, done, outcome);
}

proof fn lemma_rolled_out(
    strategy: Strategy,
    future: Seq<Piece>,
    options: TrialOptions,
    board: Seq<u8>,
    lines: int,
    moves: Seq<OutcomeModel>,
    done: Seq<int>,
    so_far: RolloutModel,
    here: Seq<u8>,
    count: int,
) -> (all: (Seq<OutcomeModel>, Seq<int>))
    requires
        has_played(strategy, future, options, board, lines, moves, done, so_far, here, count),
        moves.len() <= options.horizon,
    ensures
        consists_of(
            strategy,
            future,
            options,
            board,
            lines,
            all.0,
            all.1,
            rolled_out(strategy, future, options, here, count, so_far, moves.len() as int),
        ),
    decreases options.horizon - moves.len(),
{
    let step = moves.len() as int;
    if step >= options.horizon || so_far.completed {
        (moves, done)
    } else {
        match next_outcome(strategy, future, options, here, count, step) {
            None => {
                lemma_usual_move(strategy, future, options, here, count, step);
                let result = RolloutModel { topped_out: true, ..so_far };
                assert(is_sum_of(result, moves));
                (moves, done)
            },
            Some(outcome) => {
                lemma_next_move(
                    strategy,
                    future,
                    options,
                    board,
                    lines,
                    moves,
                    done,
                    so_far,
                    here,
                    count,
                    outcome,
                );
                lemma_rolled_out(
                    strategy,
                    future,
                    options,
                    board,
                    lines,
                    moves.push(outcome),
                    done.push(so_far.lines + outcome.immediate_lines),
                    rolled(so_far, count, outcome),
                    outcome.board,
                    crate::rollout::byte_lines(count + outcome.immediate_lines),
                )
            },
        }
    }
}

/// A rollout reports the sum of the moves made in it: its points are those of all its
/// moves, and so are its lines, words and letters. Each move is the one chosen on the
/// board that the moves before it left, and the moves go on to the horizon unless forty
/// lines are done or no move is left.
pub proof fn a_rollout_is_the_sum_of_its_moves(
    strategy: Strategy,
    future: Seq<Piece>,
    options: TrialOptions,
    board: Seq<u8>,
    lines: int,
)
    ensures
        exists|moves: Seq<OutcomeModel>, done: Seq<int>| #[trigger]
            consists_of(
                strategy,
                future,
                options,
                board,
                lines,
                moves,
                done,
                rollout_after(strategy, future, options, board, lines),
            ),
{
    let start = RolloutModel {
        score: 0,
        lines: 0,
        words: 0,
        word_length: 0,
        placements: 0,
        completed: lines >= 40,
        topped_out: false,
    };
    lemma_no_moves(start);
    let (moves, done) = lemma_rolled_out(
        strategy,
        future,
        options,
        board,
        lines,
        Seq::empty(),
        seq![0int],
        start,
        board,
        lines,
    );
    let result = rolled_out(strategy, future, options, board, lines, start, 0);
    assert(result == rollout_after(strategy, future, options, board, lines));
    assert(consists_of(strategy, future, options, board, lines, moves, done, result));
}

// ---------------------------------------------------------------------------
// A longer horizon
// ---------------------------------------------------------------------------

/// Whether one rollout goes exactly one move further than another: the points, lines,
/// words and letters of that move are added, and nothing else.
pub open spec fn goes_one_move_further(
    short: RolloutModel,
    long: RolloutModel,
    made: OutcomeModel,
) -> bool {
    let words = made.immediate_words;
    &&& long.score == short.score + made.immediate_score
    &&& long.lines == short.lines + made.immediate_lines
    &&& long.words == short.words + words.len()
    &&& long.word_length == short.word_length + letters_in(words, words.len() as int)
    &&& long.placements == short.placements + 1
    &&& !long.topped_out
}

/// Whether a move is made on some board with so many lines done.
pub open spec fn is_next(
    strategy: Strategy,
    future: Seq<Piece>,
    options: TrialOptions,
    board: Seq<u8>,
    lines: int,
    made: OutcomeModel,
) -> bool {
    usual_move(strategy, future, options, board, lines, options.horizon as int) == Some(made)
}

/// What a horizon of one move more changes: nothing where the game ended before, and
/// else one move, or that there is none.
pub open spec fn adds_one_move(
    strategy: Strategy,
    future: Seq<Piece>,
    options: TrialOptions,
    lines: int,
    short: RolloutModel,
    long: RolloutModel,
) -> bool {
    if short.completed || short.topped_out {
        long == short
    } else {
        ||| long == RolloutModel { topped_out: true, ..short }
        ||| exists|here: Seq<u8>, made: OutcomeModel|
            {
                &&& #[trigger] is_next(strategy, future, options, here, lines + short.lines, made)
                &&& goes_one_move_further(short, long, made)
            }
    }
}

proof fn lemma_one_move_further(
    strategy: Strategy,
    future: Seq<Piece>,
    options: TrialOptions,
    longer: TrialOptions,
    lines: int,
    here: Seq<u8>,
    count: int,
    so_far: RolloutModel,
    placement: int,
)
    requires
        longer == (TrialOptions { horizon: longer.horizon, ..options }),
        longer.horizon == options.horizon + 1,
        placement <= options.horizon,
        so_far.completed == (lines + so_far.lines >= 40),
        !so_far.topped_out,
        !so_far.completed ==> count == lines + so_far.lines,
    ensures
        adds_one_move(
            strategy,
            future,
            options,
            lines,
            rolled_out(strategy, future, options, here, count, so_far, placement),
            rolled_out(strategy, future, longer, here, count, so_far, placement),
        ),
    decreases options.horizon - placement,
{
    lemma_usual_move(strategy, future, options, here, count, placement);
    let next = next_outcome(strategy, future, options, here, count, placement);
    assert(next_outcome(strategy, future, longer, here, count, placement) == next) by {
        reveal(next_outcome);
    }
    if so_far.completed {
    } else if placement >= options.horizon {
        match next {
            None => {},
            Some(made) => {
                let long = rolled(so_far, count, made);
                assert(is_next(strategy, future, options, here, lines + so_far.lines, made));
                assert(goes_one_move_further(so_far, long, made));
                let left = crate::rollout::byte_lines(count + made.immediate_lines);
                assert(rolled_out(strategy, future, longer, made.board, left, long, placement + 1)
                    == long);
            },
        }
    } else {
        match next {
            None => {},
            Some(made) => {
                lemma_one_move_further(
                    strategy,
                    future,
                    options,
                    longer,
                    lines,
                    made.board,
                    crate::rollout::byte_lines(count + made.immediate_lines),
                    rolled(so_far, count, made),
                    placement + 1,
                );
            },
        }
    }
}

/// Playing one move further changes a rollout by exactly what that move brings: its
/// score by that move's points, its lines by that move's lines, and so on.
pub proof fn one_move_further_adds_that_move(
    strategy: Strategy,
    future: Seq<Piece>,
    options: TrialOptions,
    longer: TrialOptions,
    board: Seq<u8>,
    lines: int,
)
    requires
        longer == (TrialOptions { horizon: longer.horizon, ..options }),
        longer.horizon == options.horizon + 1,
    ensures
        adds_one_move(
            strategy,
            future,
            options,
            lines,
            rollout_after(strategy, future, options, board, lines),
            rollout_after(strategy, future, longer, board, lines),
        ),
{
    let start = RolloutModel {
        score: 0,
        lines: 0,
        words: 0,
        word_length: 0,
        placements: 0,
        completed: lines >= 40,
        topped_out: false,
    };
    lemma_one_move_further(strategy, future, options, longer, lines, board, lines, start, 0);
}

/// Whether one rollout brings no less than another.
pub open spec fn brings_no_less(short: RolloutModel, long: RolloutModel) -> bool {
    &&& long.score >= short.score
    &&& long.lines >= short.lines
    &&& long.words >= short.words
    &&& long.word_length >= short.word_length
    &&& long.placements >= short.placements
}

proof fn lemma_a_move_takes_nothing(
    strategy: Strategy,
    future: Seq<Piece>,
    options: TrialOptions,
    here: Seq<u8>,
    count: int,
    so_far: RolloutModel,
    placement: int,
    made: OutcomeModel,
)
    requires
        here.len() == 220,
        next_outcome(strategy, future, options, here, count, placement) == Some(made),
    ensures
        made.board.len() == 220,
        brings_no_less(so_far, rolled(so_far, count, made)),
{
    letters_add_up_word_by_word(made.immediate_words);
    reveal(next_outcome);
    the_usual_move_leads_to_a_best_end(
        strategy,
        options.rollout_beam_width,
        here,
        count,
        future.subrange(1 + placement, 1 + placement + options.rollout_depth),
    );
}

proof fn lemma_moves_take_nothing(
    strategy: Strategy,
    future: Seq<Piece>,
    options: TrialOptions,
    longer: TrialOptions,
    here: Seq<u8>,
    count: int,
    so_far: RolloutModel,
    placement: int,
)
    requires
        longer == (TrialOptions { horizon: longer.horizon, ..options }),
        longer.horizon >= options.horizon,
        here.len() == 220,
    ensures
        ({
            let long = rolled_out(strategy, future, longer, here, count, so_far, placement);
            &&& brings_no_less(so_far, long)
            &&& brings_no_less(
                rolled_out(strategy, future, options, here, count, so_far, placement),
                long,
            )
        }),
    decreases longer.horizon - placement,
{
    let next = next_outcome(strategy, future, longer, here, count, placement);
    assert(next_outcome(strategy, future, options, here, count, placement) == next) by {
        reveal(next_outcome);
    }
    if placement < longer.horizon && !so_far.completed {
        match next {
            None => {},
            Some(made) => {
                lemma_a_move_takes_nothing(
                    strategy,
                    future,
                    longer,
                    here,
                    count,
                    so_far,
                    placement,
                    made,
                );
                lemma_moves_take_nothing(
                    strategy,
                    future,
                    options,
                    longer,
                    made.board,
                    crate::rollout::byte_lines(count + made.immediate_lines),
                    rolled(so_far, count, made),
                    placement + 1,
                );
            },
        }
    }
}

/// A longer horizon over the same moves never lowers what a rollout brings.
pub proof fn a_longer_horizon_brings_no_less(
    strategy: Strategy,
    future: Seq<Piece>,
    options: TrialOptions,
    longer: TrialOptions,
    board: Seq<u8>,
    lines: int,
)
    requires
        longer == (TrialOptions { horizon: longer.horizon, ..options }),
        longer.horizon >= options.horizon,
        board.len() == 220,
    ensures
        brings_no_less(
            rollout_after(strategy, future, options, board, lines),
            rollout_after(strategy, future, longer, board, lines),
        ),
        rollout_after(strategy, future, options, board, lines).score >= 0,
{
    let start = RolloutModel {
        score: 0,
        lines: 0,
        words: 0,
        word_length: 0,
        placements: 0,
        completed: lines >= 40,
        topped_out: false,
    };
    lemma_moves_take_nothing(strategy, future, options, longer, board, lines, start, 0);
    lemma_moves_take_nothing(strategy, future, options, options, board, lines, start, 0);
}

// ---------------------------------------------------------------------------
// What a tried move is worth
// ---------------------------------------------------------------------------

/// A point more at once or later makes a tried move worth a point more, topping out
/// costs the penalty, and a move that brings nothing is worth nothing.
pub proof fn worth_is_counted_point_for_point(
    immediate: int,
    later: int,
    more: int,
    topped_out: bool,
)
    ensures
        objective_of(immediate + more, later, topped_out) == objective_of(
            immediate,
            later,
            topped_out,
        ) + more,
        objective_of(immediate, later + more, topped_out) == objective_of(
            immediate,
            later,
            topped_out,
        ) + more,
        objective_of(immediate, later, false) - objective_of(immediate, later, true) == 2_500,
        objective_of(0, 0, false) == 0,
{
}

} // verus!
