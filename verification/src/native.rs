//! The strategy as other programs use it: one lexicon, plain values in and out.

use vstd::prelude::*;

use crate::binary64::{check_finite, is_finite64};
use crate::board::{cells_valid, filled_count, valid_cells};
use crate::bytes::{le32_run, read_u32_run};
use crate::evaluation::{evaluate_board, evaluation_of, Evaluation, EvaluationModel};
use crate::lexicon::in_lexicon;
use crate::pieces::{collides, is_colliding, valid_letters};
pub use crate::pieces::Piece;
use crate::placement::Placement;
use crate::rerank::{
    a_reranked_search_agrees_with_the_plain_one, adds_nothing, is_reranked, leaves_are_ranked,
    rerank_limit,
};
use crate::roots::{distinct_roots, the_best_leaf_is_picked_first};
use crate::search::{
    clamp, clamp_to, has_move, leaves_of, pieces_valid, result_at, search, search_leaves, Leaves,
    LeavesModel, ResultModel, SearchResult, SearchState,
};
use crate::text::{spell, spelled};
use crate::words::{row_words, Text, TextList, WordList, WordModel};

verus! {

pub const WIDTH: usize = 10;

pub const HEIGHT: usize = 22;

pub const CELL_COUNT: usize = 220;

pub type PackedBoard = [u8; CELL_COUNT];

// ---------------------------------------------------------------------------
// Words as strings
// ---------------------------------------------------------------------------

pub open spec fn spelled_all(texts: Seq<Seq<u8>>) -> Seq<Seq<char>> {
    Seq::new(texts.len(), |i: int| spelled(texts[i]))
}

pub open spec fn string_views(strings: Seq<String>) -> Seq<Seq<char>> {
    Seq::new(strings.len(), |i: int| strings[i]@)
}

/// A word of a row, spelled out.
#[derive(Clone, Debug, PartialEq, Eq)]
pub struct ScoredWord {
    pub start: u8,
    pub end: u8,
    pub text: String,
    pub score: i32,
}

/// What a spelled word says.
pub ghost struct SpelledWord {
    pub start: int,
    pub end: int,
    pub text: Seq<char>,
    pub score: int,
}

impl ScoredWord {
    pub open spec fn view(&self) -> SpelledWord {
        SpelledWord {
            start: self.start as int,
            end: self.end as int,
            text: self.text@,
            score: self.score as int,
        }
    }
}

pub open spec fn word_views(words: Seq<ScoredWord>) -> Seq<SpelledWord> {
    Seq::new(words.len(), |i: int| words[i]@)
}

pub open spec fn spelled_word(word: WordModel) -> SpelledWord {
    SpelledWord {
        start: word.start,
        end: word.end,
        text: spelled(word.text),
        score: word.score,
    }
}

pub open spec fn spelled_words(words: Seq<WordModel>) -> Seq<SpelledWord> {
    Seq::new(words.len(), |i: int| spelled_word(words[i]))
}

fn text_to_string(text: &Text) -> (string: String)
    requires
        text.wf(),
    ensures
        string@ == spelled(text@),
{
    let letters: &[u8] = vstd::slice::slice_subrange(text.letters.as_slice(), 0, text.len as usize);
    assert(letters@ =~= text@);
    spell(letters)
}

fn words_to_vec(words: &WordList) -> (scored: Vec<ScoredWord>)
    requires
        words.wf(),
    ensures
        word_views(scored@) == spelled_words(words@),
{
    let mut scored: Vec<ScoredWord> = Vec::new();
    let mut index: usize = 0;
    while index < words.len as usize
        invariant
            words.wf(),
            index <= words.len,
            scored.len() == index,
            forall|i: int| 0 <= i < index ==> (#[trigger] scored@[i])@ == spelled_word(words@[i]),
        decreases words.len - index,
    {
        let word = words.items[index];
        assert(words@[index as int] == word@);
        scored.push(
            ScoredWord {
                start: word.start,
                end: word.end,
                text: text_to_string(&word.text),
                score: word.score,
            },
        );
        index += 1;
    }
    assert(word_views(scored@) =~= spelled_words(words@));
    scored
}

fn texts_to_vec(texts: &TextList) -> (strings: Vec<String>)
    requires
        texts.wf(),
    ensures
        string_views(strings@) == spelled_all(texts@),
{
    let mut strings: Vec<String> = Vec::new();
    let mut index: usize = 0;
    while index < texts.len as usize
        invariant
            texts.wf(),
            index <= texts.len,
            strings.len() == index,
            forall|i: int| 0 <= i < index ==> (#[trigger] strings@[i])@ == spelled(texts@[i]),
        decreases texts.len - index,
    {
        assert(texts@[index as int] == texts.items@[index as int]@);
        strings.push(text_to_string(&texts.items[index]));
        index += 1;
    }
    assert(string_views(strings@) =~= spelled_all(texts@));
    strings
}

// ---------------------------------------------------------------------------
// What the strategy answers
// ---------------------------------------------------------------------------

/// An evaluated board. The two heuristic numbers count units of 2^-55.
#[derive(Clone, Debug)]
pub struct BoardEvaluation {
    pub heights: [i32; 10],
    pub holes: i32,
    pub buried_depth: i32,
    pub aggregate_height: i32,
    pub maximum_height: i32,
    pub bumpiness: i32,
    pub wells: i32,
    pub word_potential: i128,
    pub setup_words: Vec<String>,
    pub heuristic_value: i128,
}

impl BoardEvaluation {
    pub open spec fn describes(&self, evaluation: EvaluationModel) -> bool {
        &&& Seq::new(10, |i: int| self.heights@[i] as int) == evaluation.heights
        &&& self.holes == evaluation.holes
        &&& self.buried_depth == evaluation.buried_depth
        &&& self.aggregate_height == evaluation.aggregate_height
        &&& self.maximum_height == evaluation.maximum_height
        &&& self.bumpiness == evaluation.bumpiness
        &&& self.wells == evaluation.wells
        &&& self.word_potential == evaluation.word_potential
        &&& string_views(self.setup_words@) == spelled_all(evaluation.setup_words)
        &&& self.heuristic_value == evaluation.value
    }
}

/// A recommended placement with what the search expects of it.
#[derive(Clone, Debug)]
pub struct SearchOutcome {
    pub board: PackedBoard,
    pub letter_shift: u8,
    pub rotation: u8,
    pub row: i8,
    pub col: i8,
    pub immediate_score: i32,
    pub immediate_lines: u8,
    pub immediate_words: Vec<ScoredWord>,
    pub projected_score: i32,
    pub projected_lines: u16,
    pub setup_words: Vec<String>,
    pub depth: u8,
    pub nodes: u32,
    pub evaluation: i32,
}

/// What an outcome says.
pub ghost struct OutcomeModel {
    pub board: Seq<u8>,
    pub letter_shift: int,
    pub rotation: int,
    pub row: int,
    pub col: int,
    pub immediate_score: int,
    pub immediate_lines: int,
    pub immediate_words: Seq<SpelledWord>,
    pub projected_score: int,
    pub projected_lines: int,
    pub setup_words: Seq<Seq<char>>,
    pub depth: int,
    pub nodes: int,
    pub evaluation: int,
}

/// The outcome of a recommendation.
pub open spec fn outcome_of(result: ResultModel) -> OutcomeModel {
    OutcomeModel {
        board: result.root.board,
        letter_shift: result.root.letter_shift,
        rotation: result.root.rotation,
        row: result.root.row,
        col: result.root.col,
        immediate_score: result.root.score,
        immediate_lines: result.root.lines,
        immediate_words: spelled_words(result.root.words),
        projected_score: result.projected_score,
        projected_lines: result.projected_lines,
        setup_words: spelled_all(result.setup_words),
        depth: result.depth,
        nodes: result.nodes,
        evaluation: result.evaluation,
    }
}

impl SearchOutcome {
    pub open spec fn view(&self) -> OutcomeModel {
        OutcomeModel {
            board: self.board@,
            letter_shift: self.letter_shift as int,
            rotation: self.rotation as int,
            row: self.row as int,
            col: self.col as int,
            immediate_score: self.immediate_score as int,
            immediate_lines: self.immediate_lines as int,
            immediate_words: word_views(self.immediate_words@),
            projected_score: self.projected_score as int,
            projected_lines: self.projected_lines as int,
            setup_words: string_views(self.setup_words@),
            depth: self.depth as int,
            nodes: self.nodes as int,
            evaluation: self.evaluation as int,
        }
    }

    /// What holds of every outcome: a playable board and modest numbers.
    pub open spec fn wf(&self) -> bool {
        &&& cells_valid(self.board@)
        &&& self.letter_shift < 4
        &&& self.rotation < 4
        &&& -3 <= self.col < 10
        &&& self.immediate_lines <= 22
        &&& 0 <= self.immediate_score <= 200_000 * self.immediate_lines
        &&& self.immediate_words.len() <= 20
        &&& self.immediate_words.len() <= 20 * self.immediate_lines
        &&& forall|i: int|
            0 <= i < self.immediate_words.len() ==> (#[trigger] self.immediate_words@[i]).text@.len()
                <= 10
    }
}

pub(crate) fn result_to_outcome(result: &SearchResult) -> (outcome: SearchOutcome)
    requires
        result.wf(),
    ensures
        outcome@ == outcome_of(result@),
        outcome.wf(),
{
    let words: Vec<ScoredWord> = words_to_vec(&result.root.words);
    assert(word_views(words@).len() == words.len());
    assert forall|i: int| 0 <= i < words.len() implies (#[trigger] words@[i]).text@.len() <= 10 by {
        assert(word_views(words@)[i] == spelled_words(result.root.words@)[i]);
        assert(result.root.words.items@[i].text.wf());
    }
    SearchOutcome {
        board: result.root.board,
        letter_shift: result.root.letter_shift,
        rotation: result.root.rotation,
        row: result.root.row,
        col: result.root.col,
        immediate_score: result.root.score,
        immediate_lines: result.root.lines,
        immediate_words: words,
        projected_score: result.projected_score,
        projected_lines: result.projected_lines,
        setup_words: texts_to_vec(&result.setup_words),
        depth: result.depth,
        nodes: result.nodes,
        evaluation: result.evaluation,
    }
}

/// A placement of the first piece with the best leaf it leads to. The heuristic
/// value counts units of 2^-55.
#[derive(Clone, Debug)]
pub struct RootCandidate {
    pub board: PackedBoard,
    pub letter_shift: u8,
    pub rotation: u8,
    pub row: i8,
    pub col: i8,
    pub immediate_score: i32,
    pub immediate_lines: u8,
    pub immediate_words: Vec<ScoredWord>,
    pub projected_score: i32,
    pub projected_lines: u16,
    pub heuristic_value: i128,
}

impl RootCandidate {
    pub open spec fn describes(&self, leaves: LeavesModel, leaf: int) -> bool {
        let state = leaves.states[leaf];
        let root = leaves.roots[state.root_index];
        &&& self.board@ == root.board
        &&& self.letter_shift == root.letter_shift
        &&& self.rotation == root.rotation
        &&& self.row == root.row
        &&& self.col == root.col
        &&& self.immediate_score == root.score
        &&& self.immediate_lines == root.lines
        &&& word_views(self.immediate_words@) == spelled_words(root.words)
        &&& self.projected_score == state.score
        &&& self.projected_lines == state.lines
        &&& self.heuristic_value == state.value
    }

    pub open spec fn wf(&self) -> bool {
        &&& cells_valid(self.board@)
        &&& self.letter_shift < 4
        &&& self.rotation < 4
        &&& -3 <= self.col < 10
        &&& self.immediate_lines <= 22
        &&& 0 <= self.immediate_score <= 200_000 * self.immediate_lines
        &&& self.immediate_words.len() <= 20
        &&& self.immediate_words.len() <= 20 * self.immediate_lines
        &&& forall|i: int|
            0 <= i < self.immediate_words.len() ==> (#[trigger] self.immediate_words@[i]).text@.len()
                <= 10
    }
}

fn leaf_to_candidate(leaves: &Leaves, leaf: usize) -> (candidate: RootCandidate)
    requires
        leaves.wf(),
        leaf < leaves.states.len(),
    ensures
        candidate.describes(leaves@, leaf as int),
        candidate.wf(),
{
    let state: &SearchState = &leaves.states[leaf];
    assert(leaves.states@[leaf as int].wf());
    assert(leaves@.states[leaf as int] == state@);
    let root: &Placement = &leaves.roots[state.root_index as usize];
    assert(leaves.roots@[state.root_index as int].wf());
    assert(leaves@.roots[state.root_index as int] == root@);
    let words: Vec<ScoredWord> = words_to_vec(&root.words);
    assert(word_views(words@).len() == words.len());
    assert forall|i: int| 0 <= i < words.len() implies (#[trigger] words@[i]).text@.len() <= 10 by {
        assert(word_views(words@)[i] == spelled_words(root.words@)[i]);
        assert(root.words.items@[i].text.wf());
    }
    RootCandidate {
        board: root.board,
        letter_shift: root.letter_shift,
        rotation: root.rotation,
        row: root.row,
        col: root.col,
        immediate_score: root.score,
        immediate_lines: root.lines,
        immediate_words: words,
        projected_score: state.score,
        projected_lines: state.lines,
        heuristic_value: state.value,
    }
}

/// One to five pieces, all of them valid.
pub open spec fn is_valid_sequence(sequence: Seq<Piece>) -> bool {
    1 <= sequence.len() <= 5 && pieces_valid(sequence)
}

pub fn valid_sequence(sequence: &[Piece]) -> (valid: bool)
    ensures
        valid == is_valid_sequence(sequence@),
{
    if sequence.len() == 0 || sequence.len() > 5 {
        return false;
    }
    let mut index: usize = 0;
    while index < sequence.len()
        invariant
            index <= sequence.len(),
            forall|i: int| 0 <= i < index ==> (#[trigger] sequence@[i]).valid(),
        decreases sequence.len() - index,
    {
        if sequence[index].kind >= 7 || !valid_letters(&sequence[index].letters) {
            assert(!sequence@[index as int].valid());
            return false;
        }
        index += 1;
    }
    true
}

/// Whether a position can be valued anew: five valid pieces ahead, a known lexicon,
/// and a finite weight.
pub open spec fn can_be_reranked(leaf_visible: Seq<Piece>, lexicon: u8, weight: u64) -> bool {
    &&& leaf_visible.len() == 5
    &&& is_valid_sequence(leaf_visible)
    &&& lexicon <= 1
    &&& is_finite64(weight)
}

/// Whether a position has five valid pieces ahead and a known lexicon.
pub fn can_rerank(leaf_visible: &[Piece], lexicon: u8) -> (usable: bool)
    ensures
        usable == (leaf_visible.len() == 5 && is_valid_sequence(leaf_visible@) && lexicon <= 1),
{
    leaf_visible.len() == 5 && valid_sequence(leaf_visible) && lexicon <= 1
}

/// What leaves are valued anew with: the pieces after the search, the lexicon, the
/// weight of the new values as a binary64 bit pattern, and the number of leaves.
pub struct FragmentRerank<'a> {
    pub leaf_visible: &'a [Piece],
    pub lexicon: u8,
    pub weight: u64,
    pub candidates: usize,
}

// ---------------------------------------------------------------------------
// The strategy
// ---------------------------------------------------------------------------

/// A player with a word list.
pub struct Strategy {
    lexicon: Vec<u32>,
}

/// What is wrong with a word list that cannot be used.
pub const KWG_ERROR: &'static str = "KWG must contain at least two little-endian u32 nodes";

/// The beam width in use where `width` is asked for.
pub open spec fn beam_width(width: int) -> int {
    clamp(width, 12, 160)
}

/// Whether a new piece has room at the top of a valid board.
pub open spec fn has_room(board: Seq<u8>, kind: int) -> bool {
    &&& 0 <= kind < 7
    &&& cells_valid(board)
    &&& !is_colliding(board, kind, 0, 1, 3) || !is_colliding(board, kind, 0, 0, 3)
}

impl Strategy {
    /// The nodes of the word graph.
    pub closed spec fn nodes(&self) -> Seq<u32> {
        self.lexicon@
    }

    /// The nodes of the word graph, for calls that take a lexicon.
    pub fn lexicon(&self) -> (nodes: &[u32])
        ensures
            nodes@ == self.nodes(),
    {
        self.lexicon.as_slice()
    }

    /// Reads a word graph: at least two 32-bit nodes, and nothing left over.
    pub fn from_kwg_bytes(bytes: &[u8]) -> (strategy: Result<Self, String>)
        ensures
            strategy.is_ok() == (bytes.len() >= 8 && bytes.len() % 4 == 0),
            strategy matches Ok(made) ==> made.nodes() == le32_run(
                bytes@,
                0,
                (bytes.len() / 4) as nat,
            ),
            strategy matches Err(text) ==> text@ == KWG_ERROR@,
    {
        if bytes.len() < 8 || bytes.len() % 4 != 0 {
            return Err(KWG_ERROR.to_owned());
        }
        let lexicon: Vec<u32> = read_u32_run(bytes, 0, bytes.len() / 4);
        Ok(Strategy { lexicon })
    }

    /// Whether the word list holds a word, given by its letters (A-Z as 1-26).
    pub fn is_word(&self, letters: &[u8]) -> (found: bool)
        ensures
            found == in_lexicon(self.nodes(), letters@),
    {
        crate::lexicon::is_word(self.lexicon.as_slice(), letters)
    }

    /// Whether a new piece has room at the top, in its usual row or one above.
    pub fn can_spawn(&self, board: &PackedBoard, piece: u8) -> (room: bool)
        ensures
            room == has_room(board@, piece as int),
    {
        piece < 7 && valid_cells(board.as_slice()) && (!collides(board, piece, 0, 1, 3)
            || !collides(board, piece, 0, 0, 3))
    }

    /// The best-scoring words of a row that do not overlap; nothing for a row that
    /// holds an invalid cell.
    pub fn analyze_row(&self, row: &[u8; 10]) -> (words: Option<Vec<ScoredWord>>)
        ensures
            words.is_some() == cells_valid(row@),
            words matches Some(found) ==> word_views(found@) == spelled_words(
                row_words(self.nodes(), row@),
            ),
    {
        if !valid_cells(row.as_slice()) {
            return None;
        }
        Some(words_to_vec(&crate::words::analyze_row(self.lexicon.as_slice(), row)))
    }

    /// Measures a board; nothing for one that holds an invalid cell.
    pub fn evaluate(&self, board: &PackedBoard) -> (evaluation: Option<BoardEvaluation>)
        ensures
            evaluation.is_some() == cells_valid(board@),
            evaluation matches Some(found) ==> found.describes(
                evaluation_of(self.nodes(), board@),
            ),
    {
        if !valid_cells(board.as_slice()) {
            return None;
        }
        let evaluation: Evaluation = evaluate_board(self.lexicon.as_slice(), board);
        Some(
            BoardEvaluation {
                heights: evaluation.heights,
                holes: evaluation.holes,
                buried_depth: evaluation.buried_depth,
                aggregate_height: evaluation.aggregate_height,
                maximum_height: evaluation.maximum_height,
                bumpiness: evaluation.bumpiness,
                wells: evaluation.wells,
                word_potential: evaluation.word_potential,
                setup_words: texts_to_vec(&evaluation.setup_words),
                heuristic_value: evaluation.value,
            },
        )
    }

    /// Whether a position can be searched: valid cells, valid pieces, and room for
    /// the first of them.
    pub open spec fn can_search(&self, board: Seq<u8>, sequence: Seq<Piece>) -> bool {
        &&& cells_valid(board)
        &&& is_valid_sequence(sequence)
        &&& has_move(self.nodes(), board, sequence)
    }

    /// The leaves of a search with the beam width that `width` asks for.
    pub open spec fn leaves(
        &self,
        board: Seq<u8>,
        current_lines: int,
        sequence: Seq<Piece>,
        width: int,
    ) -> LeavesModel {
        leaves_of(self.nodes(), board, current_lines, sequence, beam_width(width))
    }

    /// Searches a position to its leaves.
    pub fn search_leaves(
        &self,
        board: &PackedBoard,
        current_lines: u8,
        sequence: &[Piece],
        width: usize,
    ) -> (leaves: Option<Leaves>)
        ensures
            leaves.is_some() == self.can_search(board@, sequence@),
            leaves matches Some(found) ==> {
                &&& found.wf()
                &&& found@ == self.leaves(
                    board@,
                    current_lines as int,
                    sequence@,
                    width as int,
                )
            },
    {
        if !valid_cells(board.as_slice()) || !valid_sequence(sequence) {
            return None;
        }
        search_leaves(
            self.lexicon.as_slice(),
            board,
            current_lines,
            sequence,
            clamp_to(width, 12, 160),
        )
    }

    /// The placement of the first piece that leads to the best leaf.
    pub fn find_best_move(
        &self,
        board: &PackedBoard,
        current_lines: u8,
        sequence: &[Piece],
        width: usize,
    ) -> (outcome: Option<SearchOutcome>)
        ensures
            outcome.is_some() == self.can_search(board@, sequence@),
            outcome matches Some(found) ==> {
                &&& found.wf()
                &&& found@ == outcome_of(
                    result_at(
                        self.nodes(),
                        self.leaves(board@, current_lines as int, sequence@, width as int),
                        0,
                    ),
                )
                &&& filled_count(found.board@) == filled_count(board@) + 4 - 10
                    * found.immediate_lines
            },
    {
        if !valid_cells(board.as_slice()) || !valid_sequence(sequence) {
            return None;
        }
        match search(
            self.lexicon.as_slice(),
            board,
            current_lines,
            sequence,
            clamp_to(width, 12, 160),
        ) {
            Some(result) => Some(result_to_outcome(&result)),
            None => None,
        }
    }

    /// A search to whose best leaves weighted residuals are added. A residual is given
    /// for a leaf's board and the lines cleared by then, as a binary64 bit pattern.
    /// Where the new values cannot be ordered the best leaf of the search stays.
    ///
    /// The search itself is that of `find_best_move`: its depth and nodes stay, one
    /// candidate changes the evaluation only, and where nothing is added, as with a
    /// weight of zero, nothing changes.
    pub fn find_best_move_with_fragment_model<F: Fn(&PackedBoard, u8) -> u64>(
        &self,
        board: &PackedBoard,
        current_lines: u8,
        sequence: &[Piece],
        width: usize,
        reranker: FragmentRerank<'_>,
        residual: F,
    ) -> (outcome: Option<SearchOutcome>)
        requires
            forall|board: &PackedBoard, lines: u8| call_requires(residual, (board, lines)),
        ensures
            outcome.is_some() == (self.can_search(board@, sequence@) && can_be_reranked(
                reranker.leaf_visible@,
                reranker.lexicon,
                reranker.weight,
            )),
            outcome matches Some(found) ==> {
                let leaves = self.leaves(
                    board@,
                    current_lines as int,
                    sequence@,
                    width as int,
                );
                let plain = outcome_of(result_at(self.nodes(), leaves, 0));
                &&& found.wf()
                &&& found@.depth == plain.depth
                &&& found@.nodes == plain.nodes
                &&& adds_nothing(residual, reranker.weight) ==> found@ == plain
                &&& reranker.candidates <= 1 ==> found@ == (OutcomeModel {
                    evaluation: found@.evaluation,
                    ..plain
                })
                &&& exists|result: ResultModel|
                    #[trigger] is_reranked(
                        result,
                        self.nodes(),
                        leaves,
                        current_lines as int,
                        rerank_limit(leaves, reranker.candidates as int, beam_width(width as int)),
                        reranker.weight,
                        residual,
                    ) && found@ == outcome_of(result)
            },
    {
        if !can_rerank(reranker.leaf_visible, reranker.lexicon) || !check_finite(reranker.weight) {
            return None;
        }
        match self.search_leaves(board, current_lines, sequence, width) {
            None => None,
            Some(leaves) => {
                let result: SearchResult = leaves.rerank_with(
                    self.lexicon.as_slice(),
                    current_lines,
                    reranker.candidates,
                    clamp_to(width, 12, 160),
                    reranker.weight,
                    residual,
                );
                proof {
                    leaves_are_ranked(
                        self.nodes(),
                        board@,
                        current_lines as int,
                        sequence@,
                        beam_width(width as int),
                    );
                    a_reranked_search_agrees_with_the_plain_one(
                        result@,
                        self.nodes(),
                        leaves@,
                        current_lines as int,
                        reranker.candidates as int,
                        beam_width(width as int),
                        reranker.weight,
                        residual,
                    );
                }
                Some(result_to_outcome(&result))
            },
        }
    }

    /// The different boards that the first piece can lead to, each with its best
    /// leaf, in the order of the leaves, and at most `limit` of them.
    pub fn root_candidates(
        &self,
        board: &PackedBoard,
        current_lines: u8,
        sequence: &[Piece],
        width: usize,
        limit: usize,
    ) -> (candidates: Vec<RootCandidate>)
        ensures
            !self.can_search(board@, sequence@) ==> candidates.len() == 0,
            self.can_search(board@, sequence@) ==> {
                let leaves = self.leaves(board@, current_lines as int, sequence@, width as int);
                let picks = distinct_roots(leaves, limit as int, leaves.states.len() as int);
                &&& candidates.len() == picks.len()
                &&& forall|i: int|
                    0 <= i < picks.len() ==> (#[trigger] candidates@[i]).describes(leaves, picks[i])
            },
            forall|i: int| 0 <= i < candidates.len() ==> (#[trigger] candidates@[i]).wf(),
            self.can_search(board@, sequence@) && limit >= 1 ==> candidates.len() >= 1,
    {
        let mut candidates: Vec<RootCandidate> = Vec::new();
        match self.search_leaves(board, current_lines, sequence, width) {
            None => {},
            Some(leaves) => {
                let picks: Vec<usize> = leaves.distinct_roots(limit);
                let ghost ints = crate::roots::as_ints(picks@);
                proof {
                    if limit >= 1 {
                        the_best_leaf_is_picked_first(
                            leaves@,
                            limit as int,
                            leaves.states.len() as int,
                        );
                    }
                    assert(ints.len() == picks.len());
                }
                let mut index: usize = 0;
                while index < picks.len()
                    invariant
                        leaves.wf(),
                        index <= picks.len(),
                        ints == crate::roots::as_ints(picks@),
                        forall|i: int|
                            0 <= i < picks.len() ==> #[trigger] picks@[i] < leaves.states.len(),
                        candidates.len() == index,
                        forall|i: int|
                            0 <= i < index ==> (#[trigger] candidates@[i]).describes(
                                leaves@,
                                ints[i],
                            ),
                        forall|i: int|
                            0 <= i < candidates.len() ==> (#[trigger] candidates@[i]).wf(),
                    decreases picks.len() - index,
                {
                    assert(picks@[index as int] < leaves.states.len());
                    candidates.push(leaf_to_candidate(&leaves, picks[index]));
                    index += 1;
                }
            },
        }
        candidates
    }
}

} // verus!
