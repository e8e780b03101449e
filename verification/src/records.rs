//! Positions and moves as they are written down.

use vstd::prelude::*;

use crate::board::{cell_letter, cell_piece, letter_of, piece_of, Board};
use crate::evaluation::evaluation_of;
use crate::game::{queued, refilled, CurrentMetrics, GameModel, GameState, playable};
use crate::native::{
    BoardEvaluation, OutcomeModel, Piece, ScoredWord, SearchOutcome, SpelledWord, Strategy,
    string_views, word_views,
};
use crate::pieces::{cycle, shifted_letters};
use crate::ranking::first_items;
use crate::text::{
    decimal, letter_char, letter_to_char, letters_vec, piece_char, piece_name, push_decimal,
    push_signed, signed_decimal, spell, spelled,
};

verus! {

// ---------------------------------------------------------------------------
// Boards and pieces
// ---------------------------------------------------------------------------

/// A cell's letter in a written board.
pub open spec fn cell_letter_char(cell: u8) -> char {
    if letter_of(cell) == 0 {
        '.'
    } else {
        letter_char(letter_of(cell))
    }
}

/// A cell's colour group in a written board.
pub open spec fn cell_piece_char(cell: u8) -> char {
    if piece_of(cell) == 0 {
        '.'
    } else {
        piece_char(piece_of(cell) - 1)
    }
}

pub open spec fn row_letter_text(board: Seq<u8>, row: int) -> Seq<char> {
    Seq::new(10, |col: int| cell_letter_char(board[row * 10 + col]))
}

pub open spec fn row_piece_text(board: Seq<u8>, row: int) -> Seq<char> {
    Seq::new(10, |col: int| cell_piece_char(board[row * 10 + col]))
}

/// A written board: a string of letters and one of colour groups for each row.
pub struct BoardView {
    pub letters: Vec<String>,
    pub pieces: Vec<String>,
}

impl BoardView {
    pub open spec fn describes(&self, board: Seq<u8>) -> bool {
        &&& string_views(self.letters@) == Seq::new(22, |row: int| row_letter_text(board, row))
        &&& string_views(self.pieces@) == Seq::new(22, |row: int| row_piece_text(board, row))
    }
}

fn row_letters(board: &Board, row: usize) -> (text: String)
    requires
        row < 22,
    ensures
        text@ == row_letter_text(board@, row as int),
{
    let mut text: String = String::new();
    let mut col: usize = 0;
    while col < 10
        invariant
            row < 22,
            col <= 10,
            text@ == row_letter_text(board@, row as int).take(col as int),
        decreases 10 - col,
    {
        let letter: u8 = cell_letter(board[row * 10 + col]);
        if letter == 0 {
            text.push('.');
        } else {
            text.push(letter_to_char(letter));
        }
        col += 1;
        assert(text@ =~= row_letter_text(board@, row as int).take(col as int));
    }
    assert(row_letter_text(board@, row as int).take(10) =~= row_letter_text(board@, row as int));
    text
}

fn row_pieces(board: &Board, row: usize) -> (text: String)
    requires
        row < 22,
    ensures
        text@ == row_piece_text(board@, row as int),
{
    let mut text: String = String::new();
    let mut col: usize = 0;
    while col < 10
        invariant
            row < 22,
            col <= 10,
            text@ == row_piece_text(board@, row as int).take(col as int),
        decreases 10 - col,
    {
        let cell: u8 = board[row * 10 + col];
        let piece: u8 = cell_piece(cell);
        assert(cell >> 5u8 <= 7) by (bit_vector);
        if piece == 0 {
            text.push('.');
        } else {
            text.push(piece_name(piece - 1));
        }
        col += 1;
        assert(text@ =~= row_piece_text(board@, row as int).take(col as int));
    }
    assert(row_piece_text(board@, row as int).take(10) =~= row_piece_text(board@, row as int));
    text
}

/// Writes a board down.
pub fn board_view(board: &Board) -> (view: BoardView)
    ensures
        view.describes(board@),
{
    let mut letters: Vec<String> = Vec::new();
    let mut pieces: Vec<String> = Vec::new();
    let mut row: usize = 0;
    while row < 22
        invariant
            row <= 22,
            letters.len() == row,
            pieces.len() == row,
            forall|i: int| 0 <= i < row ==> (#[trigger] letters@[i])@ == row_letter_text(board@, i),
            forall|i: int| 0 <= i < row ==> (#[trigger] pieces@[i])@ == row_piece_text(board@, i),
        decreases 22 - row,
    {
        letters.push(row_letters(board, row));
        pieces.push(row_pieces(board, row));
        row += 1;
    }
    assert(string_views(letters@) =~= Seq::new(22, |row: int| row_letter_text(board@, row)));
    assert(string_views(pieces@) =~= Seq::new(22, |row: int| row_piece_text(board@, row)));
    BoardView { letters, pieces }
}

/// A written piece: its tetromino's name and its letters.
pub struct PieceView {
    pub piece: String,
    pub letters: String,
}

impl PieceView {
    pub open spec fn describes(&self, piece: Piece) -> bool {
        &&& self.piece@ == seq![piece_char(piece.kind as int)]
        &&& self.letters@ == spelled(piece.letters@)
    }
}

pub fn piece_view(piece: Piece) -> (view: PieceView)
    requires
        piece.kind < 7,
    ensures
        view.describes(piece),
{
    let mut name: String = String::new();
    name.push(piece_name(piece.kind));
    assert(name@ =~= seq![piece_char(piece.kind as int)]);
    PieceView { piece: name, letters: spell(piece.letters.as_slice()) }
}

/// A written position: everything a player sees before a move.
pub struct Position {
    pub board: BoardView,
    pub active: PieceView,
    pub next: Vec<PieceView>,
    pub current: CurrentMetrics,
    pub features: BoardEvaluation,
}

impl Position {
    /// Whether this is what a player sees in a game with full queues.
    pub open spec fn describes(&self, nodes: Seq<u32>, game: GameModel) -> bool {
        let next = first_items(queued(game), 4);
        &&& self.board.describes(game.board)
        &&& game.active matches Some(piece) && self.active.describes(piece)
        &&& self.next.len() == next.len()
        &&& forall|i: int|
            0 <= i < next.len() ==> (#[trigger] self.next@[i]).describes(next[i])
        &&& self.current@ == game.current
        &&& self.features.describes(evaluation_of(nodes, game.board))
    }
}

impl GameState {
    /// Writes the position down; nothing where no piece is in play.
    pub fn position(&mut self, strategy: &Strategy, bags: &Vec<Vec<[u8; 4]>>) -> (position: Option<
        Position,
    >)
        requires
            old(self).wf(),
            playable(bags@),
        ensures
            final(self).wf(),
            final(self)@ == refilled(old(self)@, bags@),
            position.is_some() == old(self).active.is_some(),
            position matches Some(found) ==> found.describes(strategy.nodes(), final(self)@),
            position matches Some(found) ==> found.current == old(self).current,
    {
        let next: Vec<Piece> = self.next_pieces(bags, 4);
        let mut views: Vec<PieceView> = Vec::new();
        let mut index: usize = 0;
        while index < next.len()
            invariant
                index <= next.len(),
                views.len() == index,
                forall|i: int| 0 <= i < next.len() ==> (#[trigger] next@[i]).valid(),
                forall|i: int| 0 <= i < index ==> (#[trigger] views@[i]).describes(next@[i]),
            decreases next.len() - index,
        {
            assert(next@[index as int].valid());
            views.push(piece_view(next[index]));
            index += 1;
        }
        match (self.active, strategy.evaluate(&self.board)) {
            (Some(active), Some(features)) => Some(
                Position {
                    board: board_view(&self.board),
                    active: piece_view(active),
                    next: views,
                    current: self.current,
                    features,
                },
            ),
            _ => None,
        }
    }
}

// ---------------------------------------------------------------------------
// Moves
// ---------------------------------------------------------------------------

/// The texts with a separator between them.
pub open spec fn joined(texts: Seq<Seq<char>>, separator: Seq<char>) -> Seq<char>
    decreases texts.len(),
{
    if texts.len() == 0 {
        Seq::empty()
    } else if texts.len() == 1 {
        texts[0]
    } else {
        joined(texts.drop_last(), separator) + separator + texts.last()
    }
}

pub open spec fn word_texts(words: Seq<SpelledWord>) -> Seq<Seq<char>> {
    Seq::new(words.len(), |i: int| words[i].text)
}

/// Why a move was chosen, in words.
pub open spec fn reason_text(outcome: OutcomeModel) -> Seq<char> {
    let words = word_texts(outcome.immediate_words);
    if words.len() == 0 {
        "Native depth-"@ + decimal(outcome.depth as nat) + " search selected column "@
            + signed_decimal(outcome.col + 1) + " at "@ + decimal(
            (outcome.rotation * 90) as nat,
        ) + "\u{b0}."@
    } else {
        "Bank "@ + joined(words, " + "@) + " for "@ + signed_decimal(outcome.immediate_score)
            + " points at column "@ + signed_decimal(outcome.col + 1) + ", "@ + decimal(
            (outcome.rotation * 90) as nat,
        ) + "\u{b0}."@
    }
}

/// A written move.
pub struct Plan {
    pub piece: String,
    pub source_letters: Vec<String>,
    pub letters: Vec<String>,
    pub letter_shift: u8,
    pub rotation: u8,
    pub row: i8,
    pub col: i8,
    pub immediate_score: i32,
    pub immediate_lines: u8,
    pub immediate_words: Vec<String>,
    pub projected_score: i32,
    pub projected_lines: u16,
    pub setup_words: Vec<String>,
    pub depth: u8,
    pub nodes: u32,
    pub evaluation: i32,
    pub reason: String,
}

/// Letters, each as a text of its own.
pub open spec fn letter_texts(letters: Seq<u8>) -> Seq<Seq<char>> {
    Seq::new(4, |i: int| seq![letter_char(letters[i])])
}

impl Plan {
    pub open spec fn describes(&self, active: Piece, outcome: OutcomeModel) -> bool {
        &&& self.piece@ == seq![piece_char(active.kind as int)]
        &&& string_views(self.source_letters@) == letter_texts(active.letters@)
        &&& string_views(self.letters@) == letter_texts(
            cycle(active.letters@, outcome.letter_shift),
        )
        &&& self.letter_shift == outcome.letter_shift
        &&& self.rotation == outcome.rotation
        &&& self.row == outcome.row
        &&& self.col == outcome.col
        &&& self.immediate_score == outcome.immediate_score
        &&& self.immediate_lines == outcome.immediate_lines
        &&& string_views(self.immediate_words@) == word_texts(outcome.immediate_words)
        &&& self.projected_score == outcome.projected_score
        &&& self.projected_lines == outcome.projected_lines
        &&& string_views(self.setup_words@) == outcome.setup_words
        &&& self.depth == outcome.depth
        &&& self.nodes == outcome.nodes
        &&& self.evaluation == outcome.evaluation
        &&& self.reason@ == reason_text(outcome)
    }
}

fn copy_texts(words: &Vec<ScoredWord>) -> (texts: Vec<String>)
    ensures
        string_views(texts@) == word_texts(word_views(words@)),
{
    let mut texts: Vec<String> = Vec::new();
    let mut index: usize = 0;
    while index < words.len()
        invariant
            index <= words.len(),
            texts.len() == index,
            forall|i: int| 0 <= i < index ==> (#[trigger] texts@[i])@ == words@[i].text@,
        decreases words.len() - index,
    {
        texts.push(words[index].text.clone());
        index += 1;
    }
    assert(string_views(texts@) =~= word_texts(word_views(words@)));
    texts
}

fn copy_strings(strings: &Vec<String>) -> (copies: Vec<String>)
    ensures
        string_views(copies@) == string_views(strings@),
{
    let mut copies: Vec<String> = Vec::new();
    let mut index: usize = 0;
    while index < strings.len()
        invariant
            index <= strings.len(),
            copies.len() == index,
            forall|i: int| 0 <= i < index ==> (#[trigger] copies@[i])@ == strings@[i]@,
        decreases strings.len() - index,
    {
        copies.push(strings[index].clone());
        index += 1;
    }
    assert(string_views(copies@) =~= string_views(strings@));
    copies
}

fn push_joined(text: &mut String, texts: &Vec<String>, separator: &str)
    ensures
        final(text)@ == old(text)@ + joined(string_views(texts@), separator@),
{
    let ghost views = string_views(texts@);
    let mut index: usize = 0;
    assert(views.take(0) =~= Seq::<Seq<char>>::empty());
    assert(text@ =~= old(text)@ + joined(views.take(0), separator@));
    while index < texts.len()
        invariant
            index <= texts.len(),
            views == string_views(texts@),
            text@ == old(text)@ + joined(views.take(index as int), separator@),
        decreases texts.len() - index,
    {
        let ghost before = text@;
        assert(views.take(index + 1).drop_last() =~= views.take(index as int));
        assert(views[index as int] == texts@[index as int]@);
        if index > 0 {
            text.append(separator);
        }
        text.append(texts[index].as_str());
        index += 1;
        assert(text@ =~= old(text)@ + joined(views.take(index as int), separator@));
    }
    assert(views.take(texts.len() as int) =~= views);
}

fn reason(outcome: &SearchOutcome, words: &Vec<String>) -> (text: String)
    requires
        outcome.wf(),
        string_views(words@) == word_texts(outcome@.immediate_words),
    ensures
        text@ == reason_text(outcome@),
{
    let mut text: String = String::new();
    let column: i64 = outcome.col as i64 + 1;
    let angle: u64 = outcome.rotation as u64 * 90;
    assert(string_views(words@).len() == words.len());
    if words.len() == 0 {
        text.append("Native depth-");
        push_decimal(&mut text, outcome.depth as u64);
        text.append(" search selected column ");
        push_signed(&mut text, column);
        text.append(" at ");
    } else {
        text.append("Bank ");
        push_joined(&mut text, words, " + ");
        text.append(" for ");
        push_signed(&mut text, outcome.immediate_score as i64);
        text.append(" points at column ");
        push_signed(&mut text, column);
        text.append(", ");
    }
    push_decimal(&mut text, angle);
    text.append("\u{b0}.");
    assert(text@ =~= reason_text(outcome@));
    text
}

/// Writes a move down.
pub fn plan(active: Piece, outcome: &SearchOutcome) -> (plan: Plan)
    requires
        active.kind < 7,
        outcome.wf(),
    ensures
        plan.describes(active, outcome@),
{
    let view: PieceView = piece_view(active);
    let shifted: [u8; 4] = shifted_letters(active.letters, outcome.letter_shift);
    let source_letters: Vec<String> = letters_vec(&active.letters);
    let letters: Vec<String> = letters_vec(&shifted);
    assert(string_views(source_letters@) =~= letter_texts(active.letters@));
    assert(string_views(letters@) =~= letter_texts(shifted@));
    let immediate_words: Vec<String> = copy_texts(&outcome.immediate_words);
    let why: String = reason(outcome, &immediate_words);
    Plan {
        piece: view.piece,
        source_letters,
        letters,
        letter_shift: outcome.letter_shift,
        rotation: outcome.rotation,
        row: outcome.row,
        col: outcome.col,
        immediate_score: outcome.immediate_score,
        immediate_lines: outcome.immediate_lines,
        immediate_words,
        projected_score: outcome.projected_score,
        projected_lines: outcome.projected_lines,
        setup_words: copy_strings(&outcome.setup_words),
        depth: outcome.depth,
        nodes: outcome.nodes,
        evaluation: outcome.evaluation,
        reason: why,
    }
}

} // verus!
