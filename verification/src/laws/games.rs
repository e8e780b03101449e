//! Laws of whole games: what is reached is the sum of the moves, every move follows from
//! the one before, and pieces come in as they were announced.

use vstd::prelude::*;

use crate::episode::{
    after_move, chosen_move, episode_end, first_episode, goes_on, nodes_in, seen_pieces,
    EpisodeModel, MoveModel, MovePolicy,
};
use crate::game::{
    counted, dealt, letters_in, lemma_dealt, lemma_more_letters, lemma_more_pieces, more_letters,
    more_pieces, one_of_each, playable, played, queued, refilled, GameModel, MetricsModel, Phase,
};
use crate::laws::counting::{adds_up_to, one_part_more_adds_itself};
use crate::laws::rollouts::{letter_counts_of, lines_of, scores_of, word_counts_of};
use crate::native::{OutcomeModel, Strategy};
use crate::random::{a_pick_is_below_the_length, next32, pick};

verus! {

// ---------------------------------------------------------------------------
// Queues
// ---------------------------------------------------------------------------

/// Whether a list begins with another.
pub open spec fn begins_with<A>(longer: Seq<A>, shorter: Seq<A>) -> bool {
    shorter.len() <= longer.len() && longer.take(shorter.len() as int) == shorter
}

/// Whether a part of a list holds each tetromino once.
pub open spec fn is_whole_bag(pieces: Seq<u8>, from: int) -> bool {
    from + 7 <= pieces.len() && pieces.subrange(from, from + 7).to_multiset()
        == one_of_each().to_multiset()
}

/// A queue of pieces that runs low is filled up with whole bags behind what it held, each
/// bag with every tetromino once; one that holds fourteen stays as it is.
pub proof fn pieces_come_in_whole_bags(pieces: Seq<u8>, random: u32)
    ensures
        ({
            let after = more_pieces(pieces, random).0;
            &&& begins_with(after, pieces)
            &&& after.len() >= 14
            &&& pieces.len() >= 14 ==> after == pieces
            &&& pieces.len() < 14 ==> after.len() < 21
            &&& (after.len() - pieces.len()) % 7 == 0
            &&& forall|bag: int|
                0 <= bag && pieces.len() + 7 * bag < after.len() ==> #[trigger] is_whole_bag(
                    after,
                    pieces.len() + 7 * bag,
                )
        }),
    decreases vstd::math::max(14 - pieces.len(), 0),
{
    lemma_more_pieces(pieces, random);
    let after = more_pieces(pieces, random).0;
    if pieces.len() >= 14 {
        assert(pieces.take(pieces.len() as int) =~= pieces);
    } else {
        let (dealt_bag, number) = dealt(random, one_of_each(), 6);
        lemma_dealt(random, one_of_each(), 6);
        let longer = pieces + dealt_bag;
        pieces_come_in_whole_bags(longer, number);
        assert(after == more_pieces(longer, number).0);
        assert(after.take(pieces.len() as int) =~= longer.take(pieces.len() as int)) by {
            assert forall|i: int| 0 <= i < pieces.len() implies after[i] == longer[i] by {
                assert(after.take(longer.len() as int)[i] == after[i]);
            }
        }
        assert(longer.take(pieces.len() as int) =~= pieces);
        assert forall|bag: int| 0 <= bag && pieces.len() + 7 * bag < after.len() implies #[trigger]
            is_whole_bag(after, pieces.len() + 7 * bag) by {
            if bag == 0 {
                let start = pieces.len() as int;
                assert(after.subrange(start, start + 7) =~= dealt_bag) by {
                    assert forall|i: int| 0 <= i < 7 implies after[pieces.len() + i]
                        == dealt_bag[i] by {
                        assert(after.take(longer.len() as int)[start + i] == after[start + i]);
                    }
                }
            } else {
                assert(is_whole_bag(after, longer.len() + 7 * (bag - 1)));
            }
        }
    }
}

/// Whether a part of a list is one of the letter bags.
pub open spec fn is_letter_bag(
    letters: Seq<[u8; 4]>,
    from: int,
    bags: Seq<Vec<[u8; 4]>>,
) -> bool {
    exists|i: int|
        0 <= i < bags.len() && from + 28 <= letters.len() && letters.subrange(from, from + 28) == (
        #[trigger] bags[i])@
}

/// A queue of letters that runs low is filled up with whole letter bags behind what it
/// held; one that holds fifty-six stays as it is.
pub proof fn letters_come_in_whole_bags(
    letters: Seq<[u8; 4]>,
    random: u32,
    bags: Seq<Vec<[u8; 4]>>,
)
    requires
        playable(bags),
    ensures
        ({
            let after = more_letters(letters, random, bags).0;
            &&& begins_with(after, letters)
            &&& after.len() >= 56
            &&& letters.len() >= 56 ==> after == letters
            &&& letters.len() < 56 ==> after.len() < 84
            &&& (after.len() - letters.len()) % 28 == 0
            &&& forall|bag: int|
                0 <= bag && letters.len() + 28 * bag < after.len() ==> #[trigger] is_letter_bag(
                    after,
                    letters.len() + 28 * bag,
                    bags,
                )
        }),
    decreases vstd::math::max(56 - letters.len(), 0),
{
    lemma_more_letters(letters, random, bags);
    let after = more_letters(letters, random, bags).0;
    if letters.len() >= 56 {
        assert(letters.take(letters.len() as int) =~= letters);
    } else {
        let number = next32(random);
        let place = pick(number, bags.len() as int);
        a_pick_is_below_the_length(number, bags.len() as int);
        assert(bags[place].len() == 28);
        let longer = letters + bags[place]@;
        letters_come_in_whole_bags(longer, number, bags);
        assert(after == more_letters(longer, number, bags).0);
        assert(after.take(letters.len() as int) =~= letters) by {
            assert forall|i: int| 0 <= i < letters.len() implies after[i] == letters[i] by {
                assert(after.take(longer.len() as int)[i] == after[i]);
            }
        }
        assert forall|bag: int| 0 <= bag && letters.len() + 28 * bag < after.len() implies #[trigger]
            is_letter_bag(after, letters.len() + 28 * bag, bags) by {
            if bag == 0 {
                let start = letters.len() as int;
                assert(after.subrange(start, start + 28) =~= bags[place]@) by {
                    assert forall|i: int| 0 <= i < 28 implies after[letters.len() + i]
                        == bags[place]@[i] by {
                        assert(after.take(longer.len() as int)[start + i] == after[start + i]);
                    }
                }
            } else {
                assert(is_letter_bag(after, longer.len() + 28 * (bag - 1), bags));
            }
        }
    }
}

/// Whether what one game has queued comes next in another, without the first of it.
pub open spec fn hands_on(before: GameModel, after: GameModel) -> bool {
    &&& begins_with(after.pieces, before.pieces.skip(1))
    &&& begins_with(after.letters, before.letters.skip(1))
}

/// Whether the piece in play is the one that was announced first.
pub open spec fn keeps_its_word(before: GameModel, after: GameModel) -> bool {
    &&& queued(before).len() > 0
    &&& after.active == Some(queued(before)[0])
    &&& hands_on(before, after)
}

proof fn lemma_ready(game: GameModel, bags: Seq<Vec<[u8; 4]>>)
    requires
        playable(bags),
    ensures
        ({
            let ready = refilled(game, bags);
            &&& ready.pieces.len() >= 14
            &&& ready.letters.len() >= 56
            &&& begins_with(ready.pieces, game.pieces)
            &&& begins_with(ready.letters, game.letters)
            &&& game.pieces.len() >= 14 && game.letters.len() >= 56 ==> ready.pieces == game.pieces
                && ready.letters == game.letters
        }),
{
    let (pieces, random) = more_pieces(game.pieces, game.random);
    pieces_come_in_whole_bags(game.pieces, game.random);
    letters_come_in_whole_bags(game.letters, random, bags);
}

proof fn lemma_begins<A>(longer: Seq<A>, middle: Seq<A>, shorter: Seq<A>)
    requires
        begins_with(longer, middle),
        begins_with(middle, shorter),
    ensures
        begins_with(longer, shorter),
{
    assert forall|i: int| 0 <= i < shorter.len() implies longer[i] == shorter[i] by {
        assert(longer.take(middle.len() as int)[i] == middle[i]);
        assert(middle.take(shorter.len() as int)[i] == shorter[i]);
    }
    assert(longer.take(shorter.len() as int) =~= shorter);
}

/// A move in a game with full queues brings in the piece that was announced first, and
/// the others move up.
pub proof fn the_announced_piece_comes_in(
    game: GameModel,
    bags: Seq<Vec<[u8; 4]>>,
    outcome: OutcomeModel,
)
    requires
        playable(bags),
        game.pieces.len() >= 14,
        game.letters.len() >= 56,
    ensures
        ({
            let after = played(game, bags, outcome);
            &&& after.board == outcome.board
            &&& after.active.is_some() ==> keeps_its_word(game, after) && after.current.lines < 40
            &&& after.current.lines >= 40 ==> after.phase == Phase::Complete
                && after.active.is_none()
            &&& game.phase == Phase::Playing ==> (after.phase == Phase::Playing)
                == after.active.is_some()
        }),
{
    let moved = GameModel {
        board: outcome.board,
        current: counted(game.current, outcome),
        active: None,
        ..game
    };
    lemma_ready(moved, bags);
    assert(game.pieces.skip(1).take(game.pieces.skip(1).len() as int) =~= game.pieces.skip(1));
    assert(game.letters.skip(1).take(game.letters.skip(1).len() as int) =~= game.letters.skip(1));
}

// ---------------------------------------------------------------------------
// What a game has reached
// ---------------------------------------------------------------------------

pub open spec fn outcomes_of(moves: Seq<MoveModel>) -> Seq<OutcomeModel> {
    Seq::new(moves.len(), |k: int| moves[k].outcome)
}

/// Whether the numbers are what moves bring together.
pub open spec fn counts_up(current: MetricsModel, outcomes: Seq<OutcomeModel>) -> bool {
    &&& adds_up_to(scores_of(outcomes), current.score)
    &&& adds_up_to(lines_of(outcomes), current.lines)
    &&& adds_up_to(word_counts_of(outcomes), current.words)
    &&& adds_up_to(letter_counts_of(outcomes), current.total_word_length)
}

proof fn lemma_counted(
    current: MetricsModel,
    outcomes: Seq<OutcomeModel>,
    outcome: OutcomeModel,
)
    requires
        counts_up(current, outcomes),
    ensures
        counts_up(counted(current, outcome), outcomes.push(outcome)),
{
    let words = outcome.immediate_words;
    let letters = letters_in(words, words.len() as int);
    let more = outcomes.push(outcome);
    one_part_more_adds_itself(scores_of(outcomes), current.score, outcome.immediate_score);
    one_part_more_adds_itself(lines_of(outcomes), current.lines, outcome.immediate_lines);
    one_part_more_adds_itself(word_counts_of(outcomes), current.words, words.len() as int);
    one_part_more_adds_itself(letter_counts_of(outcomes), current.total_word_length, letters);
    assert(scores_of(more) =~= scores_of(outcomes).push(outcome.immediate_score));
    assert(lines_of(more) =~= lines_of(outcomes).push(outcome.immediate_lines));
    assert(word_counts_of(more) =~= word_counts_of(outcomes).push(words.len() as int));
    assert(letter_counts_of(more) =~= letter_counts_of(outcomes).push(letters));
}

/// The board on which move number `step` of a game is made.
pub open spec fn board_at(moves: Seq<MoveModel>, step: int) -> Seq<u8> {
    if step == 0 {
        Seq::new(220, |i: int| 0u8)
    } else {
        moves[step - 1].outcome.board
    }
}

/// Whether move number `step` is the one that the policy chooses, on the board that the
/// move before left, with what the moves before it have brought.
#[verifier::opaque]
pub open spec fn is_chosen(
    strategy: Strategy,
    depth: int,
    policy: MovePolicy,
    made: MoveModel,
) -> bool {
    chosen_move(
        strategy,
        policy,
        made.game.board,
        made.game.current.lines,
        seen_pieces(made.game, depth),
    ) == Some(made.outcome)
}

/// Whether move number `step` of a game follows from those before it.
pub open spec fn is_in_place(
    strategy: Strategy,
    depth: int,
    policy: MovePolicy,
    moves: Seq<MoveModel>,
    step: int,
) -> bool {
    let made = moves[step];
    &&& made.game.board == board_at(moves, step)
    &&& made.game.current.lines < 40
    &&& made.game.current.pieces == step + 1
    &&& counts_up(made.game.current, outcomes_of(moves.take(step)))
    &&& is_chosen(strategy, depth, policy, made)
    &&& step > 0 ==> keeps_its_word(moves[step - 1].game, made.game)
}

/// Whether a game has been played as it should: move by move, and counted up.
pub open spec fn is_well_played(
    strategy: Strategy,
    depth: int,
    policy: MovePolicy,
    episode: EpisodeModel,
) -> bool {
    let moves = episode.moves;
    let game = episode.game;
    &&& moves.len() <= 400
    &&& game.board == board_at(moves, moves.len() as int)
    &&& counts_up(game.current, outcomes_of(moves))
    &&& forall|step: int|
        0 <= step < moves.len() ==> #[trigger] is_in_place(strategy, depth, policy, moves, step)
    &&& (game.phase == Phase::Complete) == (game.current.lines >= 40)
    &&& game.phase == Phase::Complete ==> game.current.pieces == moves.len()
    &&& game.phase == Phase::Playing ==> game.current.pieces == moves.len() + 1
    &&& moves.len() <= game.current.pieces <= moves.len() + 1
}

/// Whether the next move can be made as it should be.
spec fn can_go_on(episode: EpisodeModel) -> bool {
    let moves = episode.moves;
    let game = episode.game;
    &&& (game.phase == Phase::Playing) == game.active.is_some()
    &&& game.phase == Phase::Playing && moves.len() > 0 ==> keeps_its_word(
        moves.last().game,
        game,
    )
}

proof fn lemma_start(
    seed: u32,
    strategy: Strategy,
    bags: Seq<Vec<[u8; 4]>>,
    depth: int,
    policy: MovePolicy,
)
    requires
        playable(bags),
    ensures
        is_well_played(strategy, depth, policy, first_episode(seed, bags)),
        can_go_on(first_episode(seed, bags)),
{
    let episode = first_episode(seed, bags);
    one_part_more_adds_itself(Seq::empty(), 0, 0);
    let none = outcomes_of(Seq::<MoveModel>::empty());
    assert(scores_of(none) =~= Seq::<int>::empty());
    assert(lines_of(none) =~= Seq::<int>::empty());
    assert(word_counts_of(none) =~= Seq::<int>::empty());
    assert(letter_counts_of(none) =~= Seq::<int>::empty());
}

proof fn lemma_one_more(
    strategy: Strategy,
    bags: Seq<Vec<[u8; 4]>>,
    depth: int,
    policy: MovePolicy,
    episode: EpisodeModel,
    outcome: OutcomeModel,
)
    requires
        playable(bags),
        goes_on(episode),
        is_well_played(strategy, depth, policy, episode),
        can_go_on(episode),
        is_chosen(
            strategy,
            depth,
            policy,
            (MoveModel { game: refilled(episode.game, bags), outcome }),
        ),
    ensures
        is_well_played(strategy, depth, policy, after_move(episode, bags, Some(outcome))),
        can_go_on(after_move(episode, bags, Some(outcome))),
{
    let before = episode.moves;
    let ready = refilled(episode.game, bags);
    let made = MoveModel { game: ready, outcome };
    let moves = before.push(made);
    let count = before.len() as int;
    let game = played(ready, bags, outcome);
    lemma_ready(episode.game, bags);
    the_announced_piece_comes_in(ready, bags, outcome);
    lemma_counted(ready.current, outcomes_of(before), outcome);
    assert(outcomes_of(moves) =~= outcomes_of(before).push(outcome));
    assert(moves.take(count) =~= before);
    assert(counts_up(game.current, outcomes_of(moves))) by {
        assert(game.current.score == counted(ready.current, outcome).score);
    }
    assert forall|step: int| 0 <= step < moves.len() implies #[trigger] is_in_place(
        strategy,
        depth,
        policy,
        moves,
        step,
    ) by {
        if step < count {
            assert(is_in_place(strategy, depth, policy, before, step));
            assert(moves.take(step) =~= before.take(step));
        } else if count > 0 {
            let last = before.last().game;
            lemma_begins(ready.pieces, episode.game.pieces, last.pieces.skip(1));
            lemma_begins(ready.letters, episode.game.letters, last.letters.skip(1));
        }
    }
}

proof fn lemma_end(
    strategy: Strategy,
    bags: Seq<Vec<[u8; 4]>>,
    depth: int,
    policy: MovePolicy,
    episode: EpisodeModel,
)
    requires
        playable(bags),
        is_well_played(strategy, depth, policy, episode),
        can_go_on(episode),
    ensures
        is_well_played(
            strategy,
            depth,
            policy,
            episode_end(strategy, bags, depth, policy, episode),
        ),
        !goes_on(episode_end(strategy, bags, depth, policy, episode)),
    decreases 400 - episode.moves.len(),
{
    if goes_on(episode) {
        let ready = refilled(episode.game, bags);
        let outcome = chosen_move(
            strategy,
            policy,
            ready.board,
            ready.current.lines,
            seen_pieces(ready, depth),
        );
        match outcome {
            None => {},
            Some(found) => {
                assert(is_chosen(
                    strategy,
                    depth,
                    policy,
                    MoveModel { game: ready, outcome: found },
                )) by {
                    reveal(is_chosen);
                }
                lemma_one_more(strategy, bags, depth, policy, episode, found);
                lemma_end(
                    strategy,
                    bags,
                    depth,
                    policy,
                    after_move(episode, bags, outcome),
                );
            },
        }
    }
}

/// A whole game starts from an empty field, makes one chosen move after another, each on
/// the board that the one before left and with the piece that was announced, and has
/// reached in the end what its moves brought together. It is complete exactly with forty
/// lines.
pub proof fn a_game_is_the_sum_of_its_moves(
    seed: u32,
    strategy: Strategy,
    bags: Seq<Vec<[u8; 4]>>,
    depth: int,
    policy: MovePolicy,
)
    requires
        playable(bags),
    ensures
        is_well_played(
            strategy,
            depth,
            policy,
            episode_end(strategy, bags, depth, policy, first_episode(seed, bags)),
        ),
        !goes_on(episode_end(strategy, bags, depth, policy, first_episode(seed, bags))),
{
    lemma_start(seed, strategy, bags, depth, policy);
    lemma_end(strategy, bags, depth, policy, first_episode(seed, bags));
}

/// The states that the searches of a game have counted are those of each search.
pub proof fn searched_states_add_up(moves: Seq<MoveModel>, count: int)
    requires
        0 <= count <= moves.len(),
    ensures
        adds_up_to(
            Seq::new(count as nat, |k: int| moves[k].outcome.nodes),
            nodes_in(moves, count),
        ),
    decreases count,
{
    let parts = Seq::new(count as nat, |k: int| moves[k].outcome.nodes);
    if count == 0 {
        one_part_more_adds_itself(Seq::empty(), 0, 0);
        assert(parts =~= Seq::<int>::empty());
    } else {
        searched_states_add_up(moves, count - 1);
        let fewer = Seq::new((count - 1) as nat, |k: int| moves[k].outcome.nodes);
        let more = moves[count - 1].outcome.nodes;
        one_part_more_adds_itself(fewer, nodes_in(moves, count - 1), more);
        assert(parts =~= fewer.push(more));
    }
}

// ---------------------------------------------------------------------------
// What a player sees
// ---------------------------------------------------------------------------

/// A queued piece has the shape and the letters that stand at its place in the queues,
/// and a search sees the piece in play and as many of those behind it as it is deep.
pub proof fn pieces_are_seen_in_their_order(game: GameModel, depth: int)
    requires
        depth >= 0,
        game.active.is_some(),
    ensures
        queued(game).len() <= game.pieces.len(),
        queued(game).len() <= game.letters.len(),
        queued(game).len() == game.pieces.len() || queued(game).len() == game.letters.len(),
        forall|i: int|
            0 <= i < queued(game).len() ==> (#[trigger] queued(game)[i]).kind == game.pieces[i]
                && queued(game)[i].letters == game.letters[i],
        seen_pieces(game, depth).len() >= 1,
        seen_pieces(game, depth)[0] == game.active.unwrap(),
        1 <= depth <= queued(game).len() + 1 ==> seen_pieces(game, depth).len() == depth,
        depth > queued(game).len() + 1 ==> seen_pieces(game, depth).len() == queued(game).len() + 1,
        forall|i: int|
            1 <= i < seen_pieces(game, depth).len() ==> (#[trigger] seen_pieces(game, depth)[i]).kind
                == game.pieces[i - 1] && seen_pieces(game, depth)[i].letters == game.letters[i - 1],
{
    let seen = seen_pieces(game, depth);
    assert forall|i: int| 1 <= i < seen.len() implies (#[trigger] seen[i]).kind == game.pieces[i
        - 1] && seen[i].letters == game.letters[i - 1] by {
        assert(seen[i] == queued(game)[i - 1]);
    }
}

} // verus!
