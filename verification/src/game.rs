//! A game against the clock of forty lines: queues, spawning and counting.

use std::collections::VecDeque;

use vstd::prelude::*;

use crate::bags::{bag_valid, bags_wf};
use crate::board::{cells_valid, Board};
use crate::native::{
    has_room, word_views, OutcomeModel, ScoredWord, SearchOutcome, SpelledWord, Strategy,
};
use crate::pieces::{letters_valid, Piece};
use crate::random::{
    a_pick_is_below_the_length, lemma_swap_keeps_the_items, lemma_swapped, next32, pick, swapped,
    XorShift32,
};
use crate::ranking::first_items;

verus! {

// ---------------------------------------------------------------------------
// What a game is
// ---------------------------------------------------------------------------

#[derive(Clone, Copy, Debug, PartialEq, Eq, Structural)]
pub enum Phase {
    Playing,
    Over,
    Complete,
}

/// What a player has reached so far.
#[derive(Clone, Copy, Debug)]
pub struct CurrentMetrics {
    pub score: i32,
    pub lines: u32,
    pub pieces: u32,
    pub words: u32,
    pub total_word_length: u32,
}

pub ghost struct MetricsModel {
    pub score: int,
    pub lines: int,
    pub pieces: int,
    pub words: int,
    pub total_word_length: int,
}

impl CurrentMetrics {
    pub open spec fn view(&self) -> MetricsModel {
        MetricsModel {
            score: self.score as int,
            lines: self.lines as int,
            pieces: self.pieces as int,
            words: self.words as int,
            total_word_length: self.total_word_length as int,
        }
    }

    /// What holds of the numbers in every game.
    pub open spec fn wf(&self) -> bool {
        &&& self.lines <= 61
        &&& 0 <= self.score <= 200_000 * self.lines
        &&& self.words <= 20 * self.lines
        &&& self.total_word_length <= 10 * self.words
    }
}

pub struct GameState {
    pub board: Board,
    pub piece_queue: VecDeque<u8>,
    pub letter_queue: VecDeque<[u8; 4]>,
    pub active: Option<Piece>,
    pub random: XorShift32,
    pub current: CurrentMetrics,
    pub phase: Phase,
}

pub ghost struct GameModel {
    pub board: Seq<u8>,
    pub pieces: Seq<u8>,
    pub letters: Seq<[u8; 4]>,
    pub active: Option<Piece>,
    pub random: u32,
    pub current: MetricsModel,
    pub phase: Phase,
}

pub open spec fn kinds_valid(kinds: Seq<u8>) -> bool {
    forall|i: int| 0 <= i < kinds.len() ==> #[trigger] kinds[i] < 7
}

impl GameState {
    pub open spec fn view(&self) -> GameModel {
        GameModel {
            board: self.board@,
            pieces: self.piece_queue@,
            letters: self.letter_queue@,
            active: self.active,
            random: self.random.state,
            current: self.current@,
            phase: self.phase,
        }
    }

    /// What holds of the parts, also while a piece is brought in.
    pub open spec fn parts_wf(&self) -> bool {
        &&& cells_valid(self.board@)
        &&& kinds_valid(self.piece_queue@)
        &&& bag_valid(self.letter_queue@)
        &&& (self.active matches Some(piece) ==> piece.valid())
        &&& self.current.wf()
    }

    pub open spec fn wf(&self) -> bool {
        &&& self.parts_wf()
        &&& (self.phase == Phase::Playing ==> self.active.is_some() && self.current.lines < 40)
    }
}

// ---------------------------------------------------------------------------
// Queues
// ---------------------------------------------------------------------------

/// The seven tetrominos and the generator after a shuffle from place `index` down.
pub open spec fn dealt(random: u32, bag: Seq<u8>, index: int) -> (Seq<u8>, u32)
    decreases index,
{
    if index < 1 {
        (bag, random)
    } else {
        let number = next32(random);
        dealt(number, swapped(bag, index, pick(number, index + 1)), index - 1)
    }
}

/// One of each tetromino.
pub open spec fn one_of_each() -> Seq<u8> {
    seq![0u8, 1, 2, 3, 4, 5, 6]
}

pub proof fn lemma_dealt(random: u32, bag: Seq<u8>, index: int)
    requires
        bag.len() == 7,
        index < 7,
        kinds_valid(bag),
    ensures
        dealt(random, bag, index).0.len() == 7,
        kinds_valid(dealt(random, bag, index).0),
        dealt(random, bag, index).0.to_multiset() == bag.to_multiset(),
    decreases index,
{
    if index >= 1 {
        let number = next32(random);
        let place = pick(number, index + 1);
        a_pick_is_below_the_length(number, index + 1);
        lemma_swap_keeps_the_items(bag, index, place);
        let after = swapped(bag, index, place);
        assert forall|i: int| 0 <= i < after.len() implies #[trigger] after[i] < 7 by {
            lemma_swapped(bag, index, place, i);
            assert(bag[index] < 7 && bag[place] < 7 && bag[i] < 7);
        }
        lemma_dealt(number, after, index - 1);
    }
}

/// Every seven pieces hold each tetromino once.
pub proof fn a_dealt_bag_holds_each_piece_once(random: u32)
    ensures
        dealt(random, one_of_each(), 6).0.to_multiset() == one_of_each().to_multiset(),
{
    lemma_dealt(random, one_of_each(), 6);
}

/// The pieces in the queue once it holds at least fourteen, and the generator.
pub open spec fn more_pieces(pieces: Seq<u8>, random: u32) -> (Seq<u8>, u32)
    decreases vstd::math::max(14 - pieces.len(), 0),
{
    let (bag, after) = dealt(random, one_of_each(), 6);
    if pieces.len() >= 14 || bag.len() == 0 {
        (pieces, random)
    } else {
        more_pieces(pieces + bag, after)
    }
}

/// The letters in the queue once it holds at least 56, and the generator.
pub open spec fn more_letters(
    letters: Seq<[u8; 4]>,
    random: u32,
    bags: Seq<Vec<[u8; 4]>>,
) -> (Seq<[u8; 4]>, u32)
    decreases vstd::math::max(56 - letters.len(), 0),
{
    let number = next32(random);
    let bag = bags[pick(number, bags.len() as int)]@;
    if letters.len() >= 56 || bag.len() == 0 {
        (letters, random)
    } else {
        more_letters(letters + bag, number, bags)
    }
}

/// A game with full queues.
pub open spec fn refilled(game: GameModel, bags: Seq<Vec<[u8; 4]>>) -> GameModel {
    let (pieces, random) = more_pieces(game.pieces, game.random);
    let (letters, after) = more_letters(game.letters, random, bags);
    GameModel { pieces, letters, random: after, ..game }
}

/// The queued pieces with their letters.
pub open spec fn queued(game: GameModel) -> Seq<Piece> {
    Seq::new(
        vstd::math::min(game.pieces.len() as int, game.letters.len() as int) as nat,
        |i: int| Piece { kind: game.pieces[i], letters: game.letters[i] },
    )
}

/// Letter bags that can be played with.
pub open spec fn playable(bags: Seq<Vec<[u8; 4]>>) -> bool {
    bags_wf(bags) && 1 <= bags.len() <= 0x20_0000_0000_0000
}

fn deal_bag(random: &mut XorShift32) -> (bag: [u8; 7])
    ensures
        (bag@, final(random).state) == dealt(old(random).state, one_of_each(), 6),
        kinds_valid(bag@),
{
    let mut bag: [u8; 7] = [0, 1, 2, 3, 4, 5, 6];
    let ghost goal = dealt(random.state, one_of_each(), 6);
    proof {
        assert(bag@ =~= one_of_each());
        lemma_dealt(random.state, one_of_each(), 6);
    }
    let mut index: usize = 6;
    while index >= 1
        invariant
            index <= 6,
            goal == dealt(random.state, bag@, index as int),
        decreases index,
    {
        let place: usize = random.index(index + 1);
        let ghost before = bag@;
        let kept: u8 = bag[index];
        let moved: u8 = bag[place];
        bag[index] = moved;
        bag[place] = kept;
        assert(bag@ =~= swapped(before, index as int, place as int));
        index -= 1;
    }
    bag
}

impl GameState {
    /// Fills the queues from the generator.
    pub fn ensure_queues(&mut self, bags: &Vec<Vec<[u8; 4]>>)
        requires
            old(self).parts_wf(),
            playable(bags@),
        ensures
            final(self).parts_wf(),
            final(self)@ == refilled(old(self)@, bags@),
            final(self).piece_queue.len() >= 14,
            final(self).letter_queue.len() >= 56,
    {
        let ghost pieces_goal = more_pieces(self.piece_queue@, self.random.state);
        while self.piece_queue.len() < 14
            invariant
                self.parts_wf(),
                self@ == (GameModel {
                    pieces: self.piece_queue@,
                    random: self.random.state,
                    ..old(self)@
                }),
                pieces_goal == more_pieces(self.piece_queue@, self.random.state),
            decreases vstd::math::max(14 - self.piece_queue.len(), 0),
        {
            let ghost before = self.piece_queue@;
            proof {
                lemma_dealt(self.random.state, one_of_each(), 6);
            }
            let bag: [u8; 7] = deal_bag(&mut self.random);
            let ghost after = self.random.state;
            let mut index: usize = 0;
            assert(before + bag@.take(0) =~= before);
            while index < 7
                invariant
                    index <= 7,
                    kinds_valid(bag@),
                    self.parts_wf(),
                    self.random.state == after,
                    self@ == (GameModel {
                        pieces: self.piece_queue@,
                        random: self.random.state,
                        ..old(self)@
                    }),
                    self.piece_queue@ == before + bag@.take(index as int),
                decreases 7 - index,
            {
                self.piece_queue.push_back(bag[index]);
                assert(bag@[index as int] < 7);
                assert(self.piece_queue@ =~= before + bag@.take(index + 1));
                index += 1;
            }
            assert(bag@.take(7) =~= bag@);
        }
        let ghost letters_goal = more_letters(self.letter_queue@, self.random.state, bags@);
        while self.letter_queue.len() < 56
            invariant
                self.parts_wf(),
                playable(bags@),
                self.piece_queue@ == pieces_goal.0,
                self.piece_queue.len() >= 14,
                self@ == (GameModel {
                    pieces: self.piece_queue@,
                    letters: self.letter_queue@,
                    random: self.random.state,
                    ..old(self)@
                }),
                letters_goal == more_letters(self.letter_queue@, self.random.state, bags@),
            decreases vstd::math::max(56 - self.letter_queue.len(), 0),
        {
            let ghost before = self.letter_queue@;
            let place: usize = self.random.index(bags.len());
            let bag: &Vec<[u8; 4]> = &bags[place];
            let ghost after = self.random.state;
            assert(bags@[place as int].len() == 28 && bag_valid(bags@[place as int]@));
            let mut index: usize = 0;
            assert(before + bag@.take(0) =~= before);
            while index < bag.len()
                invariant
                    index <= bag.len(),
                    bag_valid(bag@),
                    self.parts_wf(),
                    self.random.state == after,
                    self.piece_queue@ == pieces_goal.0,
                    self.piece_queue.len() >= 14,
                    self@ == (GameModel {
                        pieces: self.piece_queue@,
                        letters: self.letter_queue@,
                        random: self.random.state,
                        ..old(self)@
                    }),
                    self.letter_queue@ == before + bag@.take(index as int),
                decreases bag.len() - index,
            {
                self.letter_queue.push_back(bag[index]);
                assert(letters_valid(bag@[index as int]@));
                assert(self.letter_queue@ =~= before + bag@.take(index + 1));
                index += 1;
            }
            assert(bag@.take(bag.len() as int) =~= bag@);
        }
    }
}

// ---------------------------------------------------------------------------
// Moves
// ---------------------------------------------------------------------------

/// A game in which the next piece has been brought in, or which is over because
/// the piece has no room.
pub open spec fn spawned(game: GameModel, bags: Seq<Vec<[u8; 4]>>) -> GameModel {
    let ready = refilled(game, bags);
    let piece = Piece { kind: ready.pieces[0], letters: ready.letters[0] };
    let rest = GameModel { pieces: ready.pieces.skip(1), letters: ready.letters.skip(1), ..ready };
    if has_room(rest.board, piece.kind as int) {
        GameModel {
            active: Some(piece),
            current: MetricsModel { pieces: rest.current.pieces + 1, ..rest.current },
            ..rest
        }
    } else {
        GameModel { active: None, phase: Phase::Over, ..rest }
    }
}

/// The start of a game.
pub open spec fn opening(random: u32) -> GameModel {
    GameModel {
        board: Seq::new(220, |i: int| 0u8),
        pieces: Seq::empty(),
        letters: Seq::empty(),
        active: None,
        random,
        current: MetricsModel { score: 0, lines: 0, pieces: 0, words: 0, total_word_length: 0 },
        phase: Phase::Playing,
    }
}

/// How many letters the first `count` words have together.
pub open spec fn letters_in(words: Seq<SpelledWord>, count: int) -> int
    decreases count,
{
    if count <= 0 {
        0
    } else {
        letters_in(words, count - 1) + words[count - 1].text.len()
    }
}

/// What a player has reached after a move.
pub open spec fn counted(current: MetricsModel, outcome: OutcomeModel) -> MetricsModel {
    let words = outcome.immediate_words;
    MetricsModel {
        score: current.score + outcome.immediate_score,
        lines: current.lines + outcome.immediate_lines,
        pieces: current.pieces,
        words: current.words + words.len(),
        total_word_length: current.total_word_length + letters_in(words, words.len() as int),
    }
}

/// A game after a move: complete with forty lines, or else with the next piece.
pub open spec fn played(
    game: GameModel,
    bags: Seq<Vec<[u8; 4]>>,
    outcome: OutcomeModel,
) -> GameModel {
    let moved = GameModel {
        board: outcome.board,
        current: counted(game.current, outcome),
        active: None,
        ..game
    };
    if moved.current.lines >= 40 {
        GameModel { phase: Phase::Complete, ..moved }
    } else {
        spawned(moved, bags)
    }
}

/// A game that has been given up because no move was found.
pub open spec fn given_up(game: GameModel) -> GameModel {
    GameModel { phase: Phase::Over, active: None, ..game }
}

/// How many letters the words have together.
pub fn count_letters(words: &Vec<ScoredWord>) -> (count: u32)
    requires
        words.len() <= 20,
        forall|i: int| 0 <= i < words.len() ==> (#[trigger] words@[i]).text@.len() <= 10,
    ensures
        count == letters_in(word_views(words@), words.len() as int),
        count <= 10 * words.len(),
{
    let mut count: u32 = 0;
    let mut index: usize = 0;
    while index < words.len()
        invariant
            index <= words.len() <= 20,
            forall|i: int| 0 <= i < words.len() ==> (#[trigger] words@[i]).text@.len() <= 10,
            count == letters_in(word_views(words@), index as int),
            count <= 10 * index,
        decreases words.len() - index,
    {
        assert(words@[index as int].text@.len() <= 10);
        assert(word_views(words@)[index as int] == words@[index as int]@);
        count += words[index].text.as_str().unicode_len() as u32;
        index += 1;
    }
    count
}

impl GameState {
    /// Brings in the next piece, or ends the game where it has no room.
    fn spawn_piece(&mut self, strategy: &Strategy, bags: &Vec<Vec<[u8; 4]>>)
        requires
            old(self).parts_wf(),
            old(self).phase == Phase::Playing,
            old(self).current.lines < 40,
            old(self).current.pieces < u32::MAX,
            playable(bags@),
        ensures
            final(self).wf(),
            final(self)@ == spawned(old(self)@, bags@),
    {
        self.ensure_queues(bags);
        let ghost ready = self@;
        let kind: Option<u8> = self.piece_queue.pop_front();
        let letters: Option<[u8; 4]> = self.letter_queue.pop_front();
        assert(self.piece_queue@ =~= ready.pieces.skip(1));
        assert(self.letter_queue@ =~= ready.letters.skip(1));
        proof {
            assert forall|i: int| 0 <= i < self.piece_queue@.len() implies #[trigger]
                self.piece_queue@[i] < 7 by {
                assert(ready.pieces[i + 1] < 7);
            }
            assert forall|i: int| 0 <= i < self.letter_queue@.len() implies letters_valid(
                (#[trigger] self.letter_queue@[i])@,
            ) by {
                assert(letters_valid(ready.letters[i + 1]@));
            }
        }
        match (kind, letters) {
            (Some(kind), Some(letters)) => {
                assert(ready.pieces[0] < 7);
                assert(letters_valid(ready.letters[0]@));
                if strategy.can_spawn(&self.board, kind) {
                    self.active = Some(Piece { kind, letters });
                    self.current.pieces = self.current.pieces + 1;
                } else {
                    self.active = None;
                    self.phase = Phase::Over;
                }
            },
            _ => {},
        }
    }

    /// Starts a game.
    pub fn new(seed: u32, strategy: &Strategy, bags: &Vec<Vec<[u8; 4]>>) -> (game: Self)
        requires
            playable(bags@),
        ensures
            game.wf(),
            game@ == spawned(
                opening(
                    if seed == 0 {
                        0x9e37_79b9u32
                    } else {
                        seed
                    },
                ),
                bags@,
            ),
    {
        let mut game = GameState {
            board: [0u8; 220],
            piece_queue: VecDeque::new(),
            letter_queue: VecDeque::new(),
            active: None,
            random: XorShift32::new(seed),
            current: CurrentMetrics {
                score: 0,
                lines: 0,
                pieces: 0,
                words: 0,
                total_word_length: 0,
            },
            phase: Phase::Playing,
        };
        assert(game@.board =~= opening(game.random.state).board);
        game.spawn_piece(strategy, bags);
        game
    }

    /// Makes a move: takes over its board, counts what it brought, and brings in
    /// the next piece unless forty lines are done.
    pub fn apply(&mut self, strategy: &Strategy, bags: &Vec<Vec<[u8; 4]>>, outcome: &SearchOutcome)
        requires
            old(self).wf(),
            old(self).phase == Phase::Playing,
            old(self).current.pieces < u32::MAX,
            outcome.wf(),
            playable(bags@),
        ensures
            final(self).wf(),
            final(self)@ == played(old(self)@, bags@, outcome@),
    {
        self.board = outcome.board;
        self.current.score = self.current.score + outcome.immediate_score;
        self.current.lines = self.current.lines + outcome.immediate_lines as u32;
        self.current.words = self.current.words + outcome.immediate_words.len() as u32;
        self.current.total_word_length = self.current.total_word_length + count_letters(
            &outcome.immediate_words,
        );
        self.active = None;
        if self.current.lines >= 40 {
            self.phase = Phase::Complete;
        } else {
            self.spawn_piece(strategy, bags);
        }
    }

    /// Ends a game in which no move was found.
    pub fn give_up(&mut self)
        requires
            old(self).wf(),
        ensures
            final(self).wf(),
            final(self)@ == given_up(old(self)@),
    {
        self.phase = Phase::Over;
        self.active = None;
    }

    fn copy_queued(&self, from: usize, count: usize) -> (pieces: Vec<Piece>)
        requires
            self.wf(),
            from + count <= self.piece_queue.len(),
            from + count <= self.letter_queue.len(),
        ensures
            pieces@ == queued(self@).subrange(from as int, from + count),
            forall|i: int| 0 <= i < pieces.len() ==> (#[trigger] pieces@[i]).valid(),
    {
        let mut pieces: Vec<Piece> = Vec::new();
        let mut index: usize = 0;
        while index < count
            invariant
                self.wf(),
                index <= count,
                from + count <= self.piece_queue.len(),
                from + count <= self.letter_queue.len(),
                pieces.len() == index,
                forall|i: int| 0 <= i < index ==> #[trigger] pieces@[i] == queued(self@)[from + i],
                forall|i: int| 0 <= i < pieces.len() ==> (#[trigger] pieces@[i]).valid(),
            decreases count - index,
        {
            let place: usize = from + index;
            let kind: u8 = self.piece_queue[place];
            let letters: [u8; 4] = self.letter_queue[place];
            assert(self.piece_queue@[place as int] < 7);
            assert(letters_valid(self.letter_queue@[place as int]@));
            pieces.push(Piece { kind, letters });
            index += 1;
        }
        assert(pieces@ =~= queued(self@).subrange(from as int, from + count));
        pieces
    }

    /// The piece in play and those that follow, `depth` in all where the queue
    /// reaches that far.
    pub fn sequence(&mut self, bags: &Vec<Vec<[u8; 4]>>, depth: usize) -> (sequence: Vec<Piece>)
        requires
            old(self).wf(),
            old(self).active.is_some(),
            playable(bags@),
        ensures
            final(self).wf(),
            final(self)@ == refilled(old(self)@, bags@),
            sequence@ == seq![old(self).active.unwrap()] + first_items(
                queued(final(self)@),
                if depth == 0 {
                    0
                } else {
                    depth - 1
                },
            ),
            forall|i: int| 0 <= i < sequence.len() ==> (#[trigger] sequence@[i]).valid(),
    {
        self.ensure_queues(bags);
        let mut sequence: Vec<Piece> = Vec::new();
        let wanted: usize = if depth == 0 {
            0
        } else {
            depth - 1
        };
        let count: usize = self.queue_count(wanted);
        match self.active {
            Some(piece) => {
                sequence.push(piece);
            },
            None => {},
        }
        let mut following: Vec<Piece> = self.copy_queued(0, count);
        assert(following@ =~= first_items(queued(self@), wanted as int));
        sequence.append(&mut following);
        assert(sequence@ =~= seq![old(self).active.unwrap()] + first_items(
            queued(self@),
            wanted as int,
        ));
        sequence
    }

    fn queue_count(&self, wanted: usize) -> (count: usize)
        ensures
            count == vstd::math::min(queued(self@).len() as int, wanted as int),
            count <= self.piece_queue.len(),
            count <= self.letter_queue.len(),
    {
        let mut count: usize = wanted;
        if self.piece_queue.len() < count {
            count = self.piece_queue.len();
        }
        if self.letter_queue.len() < count {
            count = self.letter_queue.len();
        }
        count
    }

    /// The five pieces that follow once `depth` pieces have been placed.
    pub fn leaf_visible(&mut self, bags: &Vec<Vec<[u8; 4]>>, depth: usize) -> (pieces: Vec<Piece>)
        requires
            old(self).wf(),
            playable(bags@),
        ensures
            final(self).wf(),
            final(self)@ == refilled(old(self)@, bags@),
            pieces@ == ({
                let after = queued(final(self)@);
                let start = vstd::math::min(
                    if depth == 0 {
                        0
                    } else {
                        depth - 1
                    },
                    after.len() as int,
                );
                first_items(after.skip(start), 5)
            }),
            forall|i: int| 0 <= i < pieces.len() ==> (#[trigger] pieces@[i]).valid(),
    {
        self.ensure_queues(bags);
        let wanted: usize = if depth == 0 {
            0
        } else {
            depth - 1
        };
        let start: usize = self.queue_count(wanted);
        let total: usize = self.queue_count(usize::MAX);
        let count: usize = if total - start < 5 {
            total - start
        } else {
            5
        };
        let pieces: Vec<Piece> = self.copy_queued(start, count);
        assert(pieces@ =~= first_items(queued(self@).skip(start as int), 5));
        pieces
    }

    /// The five pieces that follow the one in play.
    pub fn root_visible(&mut self, bags: &Vec<Vec<[u8; 4]>>) -> (pieces: Vec<Piece>)
        requires
            old(self).wf(),
            playable(bags@),
        ensures
            final(self).wf(),
            final(self)@ == refilled(old(self)@, bags@),
            pieces@ == first_items(queued(final(self)@), 5),
            forall|i: int| 0 <= i < pieces.len() ==> (#[trigger] pieces@[i]).valid(),
    {
        self.next_pieces(bags, 5)
    }

    /// The pieces that a player sees next.
    pub fn next_pieces(&mut self, bags: &Vec<Vec<[u8; 4]>>, wanted: usize) -> (pieces: Vec<Piece>)
        requires
            old(self).wf(),
            playable(bags@),
        ensures
            final(self).wf(),
            final(self)@ == refilled(old(self)@, bags@),
            pieces@ == first_items(queued(final(self)@), wanted as int),
            forall|i: int| 0 <= i < pieces.len() ==> (#[trigger] pieces@[i]).valid(),
    {
        self.ensure_queues(bags);
        let count: usize = self.queue_count(wanted);
        let pieces: Vec<Piece> = self.copy_queued(0, count);
        assert(pieces@ =~= first_items(queued(self@), wanted as int));
        pieces
    }
}

pub proof fn lemma_more_pieces(pieces: Seq<u8>, random: u32)
    ensures
        more_pieces(pieces, random).0.len() >= 14,
    decreases vstd::math::max(14 - pieces.len(), 0),
{
    lemma_dealt(random, one_of_each(), 6);
    if pieces.len() < 14 {
        let (bag, after) = dealt(random, one_of_each(), 6);
        lemma_more_pieces(pieces + bag, after);
    }
}

pub proof fn lemma_more_letters(letters: Seq<[u8; 4]>, random: u32, bags: Seq<Vec<[u8; 4]>>)
    requires
        playable(bags),
    ensures
        more_letters(letters, random, bags).0.len() >= 56,
    decreases vstd::math::max(56 - letters.len(), 0),
{
    if letters.len() < 56 {
        let number = next32(random);
        let place = pick(number, bags.len() as int);
        a_pick_is_below_the_length(number, bags.len() as int);
        assert(bags[place].len() == 28);
        lemma_more_letters(letters + bags[place]@, number, bags);
    }
}

/// Full queues are not filled again.
pub proof fn refilling_twice_changes_nothing(game: GameModel, bags: Seq<Vec<[u8; 4]>>)
    requires
        playable(bags),
    ensures
        refilled(refilled(game, bags), bags) == refilled(game, bags),
{
    let (pieces, random) = more_pieces(game.pieces, game.random);
    lemma_more_pieces(game.pieces, game.random);
    lemma_more_letters(game.letters, random, bags);
}

} // verus!
