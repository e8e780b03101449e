//! Scored words and the best way to segment a row into them.

use vstd::prelude::*;

use crate::board::{cell_letter, cell_piece, cells_valid, is_valid_cell, letter_of, piece_of};
use crate::lexicon::{in_lexicon, is_word};

verus! {

/// A word scores only from this many points on.
pub const MINIMUM_WORD_SCORE: i32 = 40;

/// Points per letter; the blank at index zero is worth nothing.
pub const LETTER_VALUES: [i32; 27] = [
    0, 1, 3, 3, 2, 1, 4, 2, 4, 1, 8, 5, 1, 3, 1, 1, 3, 10, 1, 1, 1, 1, 4, 4, 8, 4, 10,
];

/// A run of at most ten letters, padded with zeros.
#[derive(Clone, Copy)]
pub struct Text {
    pub len: u8,
    pub letters: [u8; 10],
}

impl Text {
    pub open spec fn view(&self) -> Seq<u8> {
        self.letters@.take(self.len as int)
    }

    pub open spec fn wf(&self) -> bool {
        &&& self.len <= 10
        &&& forall|i: int| self.len <= i < 10 ==> #[trigger] self.letters@[i] == 0
    }

    /// The text without letters.
    pub fn empty() -> (text: Self)
        ensures
            text.wf(),
            text@ == Seq::<u8>::empty(),
    {
        let text = Text { len: 0, letters: [0u8; 10] };
        assert(text@ =~= Seq::<u8>::empty());
        text
    }

    pub fn from_slice(letters: &[u8]) -> (text: Self)
        requires
            letters.len() <= 10,
        ensures
            text.wf(),
            text@ == letters@,
    {
        let mut copied: [u8; 10] = [0u8; 10];
        let mut index: usize = 0;
        while index < letters.len()
            invariant
                letters.len() <= 10,
                index <= letters.len(),
                forall|i: int| 0 <= i < index ==> #[trigger] copied@[i] == letters@[i],
                forall|i: int| index <= i < 10 ==> #[trigger] copied@[i] == 0,
            decreases letters.len() - index,
        {
            copied[index] = letters[index];
            index += 1;
        }
        let text = Text { len: letters.len() as u8, letters: copied };
        assert(text@ =~= letters@);
        text
    }

    /// Whether both texts have the same letters.
    pub fn same(&self, other: &Self) -> (same: bool)
        requires
            self.wf(),
            other.wf(),
        ensures
            same == (self@ == other@),
            same == (*self == *other),
    {
        if self.len != other.len {
            assert(self@.len() != other@.len());
            return false;
        }
        let mut index: usize = 0;
        while index < 10
            invariant
                self.wf(),
                other.wf(),
                self.len == other.len,
                index <= 10,
                forall|i: int| 0 <= i < index ==> #[trigger] self.letters@[i] == other.letters@[i],
            decreases 10 - index,
        {
            if self.letters[index] != other.letters[index] {
                assert(index < self.len);
                assert(self@[index as int] != other@[index as int]);
                return false;
            }
            index += 1;
        }
        assert(self.letters@ =~= other.letters@);
        assert(self.letters == other.letters);
        true
    }
}

/// What a word says: its columns, its letters and its points.
pub ghost struct WordModel {
    pub start: int,
    pub end: int,
    pub text: Seq<u8>,
    pub score: int,
}

/// A word found in a row, from column `start` to column `end`.
#[derive(Clone, Copy)]
pub struct Word {
    pub start: u8,
    pub end: u8,
    pub text: Text,
    pub score: i32,
}

impl Word {
    pub open spec fn view(&self) -> WordModel {
        WordModel {
            start: self.start as int,
            end: self.end as int,
            text: self.text@,
            score: self.score as int,
        }
    }

    pub fn empty() -> (word: Self)
        ensures
            word.text.wf(),
            word@ == (WordModel { start: 0, end: 0, text: Seq::<u8>::empty(), score: 0 }),
    {
        Word { start: 0, end: 0, text: Text::empty(), score: 0 }
    }
}

/// A list of at most twenty words.
#[derive(Clone, Copy)]
pub struct WordList {
    pub len: u8,
    pub items: [Word; 20],
}

/// The words that a full list keeps: the first twenty.
pub open spec fn keep_words(words: Seq<WordModel>) -> Seq<WordModel> {
    if words.len() <= 20 {
        words
    } else {
        words.take(20)
    }
}

impl WordList {
    pub open spec fn view(&self) -> Seq<WordModel> {
        Seq::new(self.len as nat, |i: int| self.items@[i]@)
    }

    pub open spec fn wf(&self) -> bool {
        &&& self.len <= 20
        &&& forall|i: int| 0 <= i < 20 ==> (#[trigger] self.items@[i]).text.wf()
    }

    pub fn empty() -> (list: Self)
        ensures
            list.wf(),
            list@ == Seq::<WordModel>::empty(),
    {
        let list = WordList { len: 0, items: [Word::empty();20] };
        assert(list@ =~= Seq::<WordModel>::empty());
        list
    }

    /// Appends a word unless the list is full.
    pub fn push(&mut self, word: Word)
        requires
            old(self).wf(),
            word.text.wf(),
        ensures
            final(self).wf(),
            final(self)@ == keep_words(old(self)@.push(word@)),
    {
        if (self.len as usize) < 20 {
            let index: usize = self.len as usize;
            self.items[index] = word;
            self.len = self.len + 1;
            assert(self@ =~= old(self)@.push(word@));
        } else {
            assert(self@ =~= old(self)@.push(word@).take(20));
        }
    }

    /// Appends the words of another list as far as there is room.
    pub fn extend(&mut self, other: &Self)
        requires
            old(self).wf(),
            other.wf(),
        ensures
            final(self).wf(),
            final(self)@ == keep_words(old(self)@ + other@),
    {
        let mut index: usize = 0;
        let ghost before = self@;
        assert(before + other@.take(0) =~= before);
        while index < other.len as usize
            invariant
                self.wf(),
                other.wf(),
                index <= other.len,
                before.len() <= 20,
                self@ == keep_words(before + other@.take(index as int)),
            decreases other.len - index,
        {
            let word: Word = other.items[index];
            let ghost shorter = before + other@.take(index as int);
            let ghost longer = before + other@.take(index + 1);
            assert(longer =~= shorter.push(word@));
            self.push(word);
            proof {
                if shorter.len() > 20 {
                    assert(keep_words(shorter).push(word@).take(20) =~= longer.take(20));
                }
            }
            assert(self@ =~= keep_words(longer));
            index += 1;
        }
        assert(other@.take(other.len as int) =~= other@);
    }
}

/// A list of at most four different texts.
#[derive(Clone, Copy)]
pub struct TextList {
    pub len: u8,
    pub items: [Text; 4],
}

/// Adds a text to a list unless it is there already or the list is full.
pub open spec fn with_text(texts: Seq<Seq<u8>>, text: Seq<u8>) -> Seq<Seq<u8>> {
    if texts.contains(text) || texts.len() >= 4 {
        texts
    } else {
        texts.push(text)
    }
}

impl TextList {
    pub open spec fn view(&self) -> Seq<Seq<u8>> {
        Seq::new(self.len as nat, |i: int| self.items@[i]@)
    }

    pub open spec fn wf(&self) -> bool {
        &&& self.len <= 4
        &&& forall|i: int| 0 <= i < 4 ==> (#[trigger] self.items@[i]).wf()
    }

    pub fn empty() -> (list: Self)
        ensures
            list.wf(),
            list@ == Seq::<Seq<u8>>::empty(),
    {
        let list = TextList { len: 0, items: [Text::empty();4] };
        assert(list@ =~= Seq::<Seq<u8>>::empty());
        list
    }

    pub fn push_unique(&mut self, text: Text)
        requires
            old(self).wf(),
            text.wf(),
        ensures
            final(self).wf(),
            final(self)@ == with_text(old(self)@, text@),
    {
        let mut index: usize = 0;
        while index < self.len as usize
            invariant
                self.wf(),
                text.wf(),
                *self == *old(self),
                index <= self.len,
                forall|i: int| 0 <= i < index ==> #[trigger] self@[i] != text@,
            decreases self.len - index,
        {
            if self.items[index].same(&text) {
                assert(self@[index as int] == text@);
                return ;
            }
            index += 1;
        }
        assert(!self@.contains(text@));
        if self.len as usize >= 4 {
            return ;
        }
        let slot: usize = self.len as usize;
        self.items[slot] = text;
        self.len = self.len + 1;
        assert(self@ =~= old(self)@.push(text@));
    }
}

// ---------------------------------------------------------------------------
// Word scores
// ---------------------------------------------------------------------------

pub open spec fn letter_value(tile: int) -> int {
    LETTER_VALUES@[tile] as int
}

pub open spec fn letter_sum(text: Seq<u8>) -> int
    decreases text.len(),
{
    if text.len() == 0 {
        0
    } else {
        letter_sum(text.drop_last()) + letter_value(text.last() as int)
    }
}

/// A word's points: the sum of its letter values times the square of its length.
pub open spec fn word_score(text: Seq<u8>) -> int {
    letter_sum(text) * text.len() * text.len()
}

pub open spec fn tiles_valid(text: Seq<u8>) -> bool {
    forall|i: int| 0 <= i < text.len() ==> #[trigger] text[i] <= 26
}

proof fn lemma_letter_value_range(tile: int)
    requires
        0 <= tile <= 26,
    ensures
        0 <= letter_value(tile) <= 10,
{
}

proof fn lemma_letter_sum_range(text: Seq<u8>)
    requires
        tiles_valid(text),
    ensures
        0 <= letter_sum(text) <= 10 * text.len(),
    decreases text.len(),
{
    if text.len() > 0 {
        lemma_letter_sum_range(text.drop_last());
        lemma_letter_value_range(text.last() as int);
    }
}

/// A word of at most ten tiles scores at most ten thousand points.
pub proof fn word_score_is_bounded(text: Seq<u8>)
    requires
        tiles_valid(text),
        text.len() <= 10,
    ensures
        0 <= word_score(text) <= 10_000,
{
    lemma_letter_sum_range(text);
    let sum = letter_sum(text);
    let n = text.len() as int;
    assert(0 <= sum * n <= 1000) by (nonlinear_arith)
        requires
            0 <= sum <= 10 * n,
            0 <= n <= 10,
    ;
    assert(0 <= sum * n * n <= 10_000) by (nonlinear_arith)
        requires
            0 <= sum * n <= 1000,
            0 <= n <= 10,
    ;
}

proof fn lemma_letter_sum_prefix(text: Seq<u8>, n: int)
    requires
        tiles_valid(text),
        0 <= n <= text.len(),
    ensures
        0 <= letter_sum(text.take(n)) <= letter_sum(text),
    decreases text.len(),
{
    lemma_letter_sum_range(text.take(n));
    if n == text.len() {
        assert(text.take(n) =~= text);
    } else {
        assert(text.drop_last().take(n) =~= text.take(n));
        lemma_letter_sum_prefix(text.drop_last(), n);
        lemma_letter_value_range(text.last() as int);
    }
}

/// The points of a word, as long as they fit the score type; up to 500 letters
/// they do.
pub fn score_word(text: &[u8]) -> (score: i32)
    requires
        tiles_valid(text@),
        text.len() <= 500 || (text.len() <= i32::MAX && word_score(text@) <= i32::MAX),
    ensures
        score == word_score(text@),
{
    let ghost total = letter_sum(text@);
    proof {
        lemma_letter_sum_range(text@);
        let n = text@.len() as int;
        if n <= 500 {
            assert(0 <= total * n <= 2_500_000) by (nonlinear_arith)
                requires
                    0 <= total <= 10 * n,
                    0 <= n <= 500,
            ;
            assert(total * n * n <= 1_250_000_000) by (nonlinear_arith)
                requires
                    0 <= total * n <= 2_500_000,
                    0 <= n <= 500,
            ;
        }
        assert(total <= total * n * n && total * n <= total * n * n) by (nonlinear_arith)
            requires
                0 <= total <= 10 * n,
                0 <= n,
        ;
    }
    let mut sum: i32 = 0;
    let mut index: usize = 0;
    assert(text@.take(0) =~= Seq::<u8>::empty());
    while index < text.len()
        invariant
            tiles_valid(text@),
            index <= text.len(),
            sum == letter_sum(text@.take(index as int)),
            letter_sum(text@) <= i32::MAX,
        decreases text.len() - index,
    {
        let tile: usize = text[index] as usize;
        assert(text@[index as int] <= 26);
        proof {
            lemma_letter_value_range(tile as int);
            assert(text@.take(index + 1).drop_last() =~= text@.take(index as int));
            lemma_letter_sum_prefix(text@, index + 1);
            lemma_letter_sum_prefix(text@, index as int);
        }
        sum = sum + LETTER_VALUES[tile];
        index += 1;
    }
    assert(text@.take(index as int) =~= text@);
    let len: i32 = text.len() as i32;
    assert(0 <= sum * len) by (nonlinear_arith)
        requires
            0 <= sum,
            0 <= len,
    ;
    sum * len * len
}

// ---------------------------------------------------------------------------
// Row segmentation
// ---------------------------------------------------------------------------

/// The letters in columns `start` to `end`.
pub open spec fn span_text(row: Seq<u8>, start: int, end: int) -> Seq<u8> {
    Seq::new((end - start + 1) as nat, |i: int| letter_of(row[start + i]))
}

/// Whether two neighbouring cells in the span belong to different colour groups.
pub open spec fn crosses_pieces(row: Seq<u8>, start: int, end: int) -> bool {
    exists|i: int| start < i <= end && piece_of(#[trigger] row[i]) != piece_of(row[i - 1])
}

/// A span scores if its cells are occupied, it crosses a piece boundary, and its
/// letters are a word worth the minimum score.
pub open spec fn is_scoring(nodes: Seq<u32>, row: Seq<u8>, start: int, end: int) -> bool {
    &&& 0 <= start < end < 10
    &&& forall|i: int| start <= i <= end ==> #[trigger] row[i] != 0
    &&& crosses_pieces(row, start, end)
    &&& in_lexicon(nodes, span_text(row, start, end))
    &&& word_score(span_text(row, start, end)) >= MINIMUM_WORD_SCORE
}

pub open spec fn span_word(row: Seq<u8>, start: int, end: int) -> WordModel {
    WordModel {
        start,
        end,
        text: span_text(row, start, end),
        score: word_score(span_text(row, start, end)),
    }
}

/// The most points that words in columns `from` and beyond can make together.
pub open spec fn best_total(nodes: Seq<u32>, row: Seq<u8>, from: int) -> int
    decreases 10 - from, 20int,
{
    if from < 0 || from >= 10 {
        0
    } else {
        best_total_before(nodes, row, from, 10)
    }
}

/// The same, with a word that begins at `from` ending before column `limit`.
pub open spec fn best_total_before(nodes: Seq<u32>, row: Seq<u8>, from: int, limit: int) -> int
    decreases 10 - from, limit,
{
    if from < 0 || from >= 10 || limit > 10 {
        0
    } else if limit <= from + 1 {
        best_total(nodes, row, from + 1)
    } else {
        let shorter = best_total_before(nodes, row, from, limit - 1);
        let total = span_word(row, from, limit - 1).score + best_total(nodes, row, limit);
        if is_scoring(nodes, row, from, limit - 1) && total > shorter {
            total
        } else {
            shorter
        }
    }
}

/// The end of the word to take at column `from`: the first that reaches the best
/// total, if taking a word there beats taking none.
pub open spec fn best_end_before(
    nodes: Seq<u32>,
    row: Seq<u8>,
    from: int,
    limit: int,
) -> Option<int>
    decreases limit - from,
{
    if limit <= from + 1 {
        None
    } else {
        let shorter = best_total_before(nodes, row, from, limit - 1);
        let total = span_word(row, from, limit - 1).score + best_total(nodes, row, limit);
        if is_scoring(nodes, row, from, limit - 1) && total > shorter {
            Some(limit - 1)
        } else {
            best_end_before(nodes, row, from, limit - 1)
        }
    }
}

/// The words taken from column `from` on, left to right.
pub open spec fn segment_from(nodes: Seq<u32>, row: Seq<u8>, from: int) -> Seq<WordModel>
    decreases 10 - from,
{
    if from >= 10 {
        Seq::empty()
    } else {
        match best_end_before(nodes, row, from, 10) {
            Some(end) if from < end < 10 => seq![span_word(row, from, end)] + segment_from(
                nodes,
                row,
                end + 1,
            ),
            _ => segment_from(nodes, row, from + 1),
        }
    }
}

/// The words that a row scores.
pub open spec fn row_words(nodes: Seq<u32>, row: Seq<u8>) -> Seq<WordModel> {
    segment_from(nodes, row, 0)
}

pub open spec fn total_score(words: Seq<WordModel>) -> int
    decreases words.len(),
{
    if words.len() == 0 {
        0
    } else {
        total_score(words.drop_last()) + words.last().score
    }
}

proof fn lemma_span_text_valid(row: Seq<u8>, start: int, end: int)
    requires
        row.len() == 10,
        cells_valid(row),
        0 <= start <= end < 10,
    ensures
        tiles_valid(span_text(row, start, end)),
        span_text(row, start, end).len() == end - start + 1,
        0 <= word_score(span_text(row, start, end)) <= 10_000,
{
    let text = span_text(row, start, end);
    assert forall|i: int| 0 <= i < text.len() implies #[trigger] text[i] <= 26 by {
        assert(is_valid_cell(row[start + i]));
        assert(0u8 & 0x1f == 0) by (bit_vector);
    }
    word_score_is_bounded(text);
}

proof fn lemma_best_total_range(nodes: Seq<u32>, row: Seq<u8>, from: int)
    requires
        row.len() == 10,
        cells_valid(row),
        0 <= from <= 10,
    ensures
        0 <= best_total(nodes, row, from) <= 10_000 * (10 - from),
    decreases 10 - from, 20int,
{
    if from < 10 {
        lemma_best_total_before_range(nodes, row, from, 10);
    }
}

proof fn lemma_best_total_before_range(nodes: Seq<u32>, row: Seq<u8>, from: int, limit: int)
    requires
        row.len() == 10,
        cells_valid(row),
        0 <= from < 10,
        limit <= 10,
    ensures
        0 <= best_total_before(nodes, row, from, limit) <= 10_000 * (10 - from),
    decreases 10 - from, limit,
{
    if limit <= from + 1 {
        lemma_best_total_range(nodes, row, from + 1);
    } else {
        lemma_best_total_before_range(nodes, row, from, limit - 1);
        lemma_best_total_range(nodes, row, limit);
        lemma_span_text_valid(row, from, limit - 1);
    }
}

/// Past an empty cell no span that begins at `from` scores.
proof fn lemma_no_span_past_gap(nodes: Seq<u32>, row: Seq<u8>, from: int, gap: int, limit: int)
    requires
        0 <= from <= gap < limit <= 10,
        row[gap] == 0,
    ensures
        best_total_before(nodes, row, from, limit) == best_total_before(nodes, row, from, gap),
        best_end_before(nodes, row, from, limit) == best_end_before(nodes, row, from, gap),
    decreases limit,
{
    if limit - 1 > gap {
        lemma_no_span_past_gap(nodes, row, from, gap, limit - 1);
    }
    assert(!is_scoring(nodes, row, from, limit - 1));
    if from == gap {
        reveal_with_fuel(best_total_before, 2);
    }
}

pub proof fn lemma_best_end(nodes: Seq<u32>, row: Seq<u8>, from: int, limit: int)
    requires
        0 <= from < 10,
        limit <= 10,
    ensures
        match best_end_before(nodes, row, from, limit) {
            Some(end) => {
                &&& from < end < 10
                &&& end < limit
                &&& is_scoring(nodes, row, from, end)
                &&& best_total_before(nodes, row, from, limit) == span_word(row, from, end).score
                    + best_total(nodes, row, end + 1)
            },
            None => best_total_before(nodes, row, from, limit) == best_total(nodes, row, from + 1),
        },
    decreases limit,
{
    if limit > from + 1 {
        lemma_best_end(nodes, row, from, limit - 1);
    }
}

/// Finds the best total and word end at column `from`, given those further right.
fn best_word_at(
    lexicon: &[u32],
    row: &[u8; 10],
    from: usize,
    best: &[i32; 11],
) -> (result: (i32, u8))
    requires
        cells_valid(row@),
        from < 10,
        forall|i: int| from < i <= 10 ==> #[trigger] best@[i] == best_total(lexicon@, row@, i),
    ensures
        result.0 == best_total(lexicon@, row@, from as int),
        result.1 <= 9,
        best_end_before(lexicon@, row@, from as int, 10) == (if result.1 == 0 {
            None
        } else {
            Some(result.1 as int)
        }),
{
    let mut total: i32 = best[from + 1];
    let mut chosen: u8 = 0;
    let mut changed_piece: bool = false;
    let mut letters: [u8; 10] = [0u8; 10];
    let mut end: usize = from;
    while end < 10
        invariant
            cells_valid(row@),
            from < 10,
            from <= end <= 10,
            forall|i: int| from < i <= 10 ==> #[trigger] best@[i] == best_total(
                lexicon@,
                row@,
                i,
            ),
            forall|i: int| from <= i < end ==> #[trigger] row@[i] != 0,
            forall|i: int|
                from <= i < end ==> #[trigger] letters@[i - from] == letter_of(row@[i]),
            changed_piece == crosses_pieces(row@, from as int, end - 1),
            total == best_total_before(lexicon@, row@, from as int, end as int),
            chosen <= 9,
            best_end_before(lexicon@, row@, from as int, end as int) == (if chosen == 0 {
                None
            } else {
                Some(chosen as int)
            }),
        decreases 10 - end,
    {
        if row[end] == 0 {
            proof {
                lemma_no_span_past_gap(lexicon@, row@, from as int, end as int, 10);
            }
            return (total, chosen);
        }
        letters[end - from] = cell_letter(row[end]);
        if end > from && cell_piece(row[end]) != cell_piece(row[end - 1]) {
            changed_piece = true;
        }
        assert(changed_piece == crosses_pieces(row@, from as int, end as int)) by {
            if crosses_pieces(row@, from as int, end as int) {
                let i = choose|i: int|
                    from < i <= end && piece_of(#[trigger] row@[i]) != piece_of(row@[i - 1]);
                assert(row@[i] == row@[i]);
            }
            if end > from && piece_of(row@[end as int]) != piece_of(row@[end - 1]) {
                assert(crosses_pieces(row@, from as int, end as int));
            }
        }
        let length: usize = end - from + 1;
        if length >= 2 && changed_piece {
            let text: &[u8] = &letters[0..length];
            assert(text@ =~= span_text(row@, from as int, end as int)) by {
                assert forall|i: int| 0 <= i < length implies text@[i] == span_text(
                    row@,
                    from as int,
                    end as int,
                )[i] by {
                    assert(letters@[(from + i) - from] == letter_of(row@[from + i]));
                }
            }
            proof {
                lemma_span_text_valid(row@, from as int, end as int);
                lemma_best_total_range(lexicon@, row@, end + 1);
            }
            if is_word(lexicon, text) {
                let score: i32 = score_word(text);
                if score >= MINIMUM_WORD_SCORE {
                    assert(is_scoring(lexicon@, row@, from as int, end as int));
                    let candidate: i32 = score + best[end + 1];
                    if candidate > total {
                        total = candidate;
                        chosen = end as u8;
                    }
                }
            }
        }
        end += 1;
    }
    (total, chosen)
}

/// The best-scoring words of a row that do not overlap.
///
/// Every word crosses a piece boundary and scores at least the minimum.
pub fn analyze_row(lexicon: &[u32], row: &[u8; 10]) -> (words: WordList)
    requires
        cells_valid(row@),
    ensures
        words.wf(),
        words@ == row_words(lexicon@, row@),
        words.len <= 5,
{
    let mut best: [i32; 11] = [0i32; 11];
    let mut ends: [u8; 10] = [0u8; 10];
    let mut position: usize = 10;
    while position > 0
        invariant
            cells_valid(row@),
            position <= 10,
            forall|i: int|
                position <= i <= 10 ==> #[trigger] best@[i] == best_total(lexicon@, row@, i),
            forall|i: int|
                position <= i < 10 ==> (#[trigger] ends@[i]) <= 9 && best_end_before(
                    lexicon@,
                    row@,
                    i,
                    10,
                ) == (if ends@[i] == 0 {
                    None
                } else {
                    Some(ends@[i] as int)
                }),
        decreases position,
    {
        position -= 1;
        let (total, end) = best_word_at(lexicon, row, position, &best);
        best[position] = total;
        ends[position] = end;
    }

    let mut words: WordList = WordList::empty();
    let mut column: usize = 0;
    while column < 10
        invariant
            cells_valid(row@),
            column <= 10,
            words.wf(),
            2 * words@.len() <= column,
            words@ + segment_from(lexicon@, row@, column as int) == row_words(lexicon@, row@),
            forall|i: int|
                0 <= i < 10 ==> (#[trigger] ends@[i]) <= 9 && best_end_before(
                    lexicon@,
                    row@,
                    i,
                    10,
                ) == (if ends@[i] == 0 {
                    None
                } else {
                    Some(ends@[i] as int)
                }),
        decreases 10 - column,
    {
        let end: usize = ends[column] as usize;
        proof {
            lemma_best_end(lexicon@, row@, column as int, 10);
        }
        if end != 0 {
            let length: usize = end - column + 1;
            let mut letters: [u8; 10] = [0u8; 10];
            let mut index: usize = 0;
            while index < length
                invariant
                    column < end < 10,
                    length == end - column + 1,
                    index <= length,
                    forall|i: int|
                        0 <= i < index ==> #[trigger] letters@[i] == letter_of(row@[column + i]),
                decreases length - index,
            {
                letters[index] = cell_letter(row[column + index]);
                index += 1;
            }
            let text: &[u8] = &letters[0..length];
            assert(text@ =~= span_text(row@, column as int, end as int));
            proof {
                lemma_span_text_valid(row@, column as int, end as int);
            }
            let word = Word {
                start: column as u8,
                end: end as u8,
                text: Text::from_slice(text),
                score: score_word(text),
            };
            let ghost before = words@;
            words.push(word);
            proof {
                let rest = segment_from(lexicon@, row@, end + 1);
                assert(before + (seq![span_word(row@, column as int, end as int)] + rest)
                    =~= before.push(word@) + rest);
            }
            column = end + 1;
        } else {
            column += 1;
        }
    }
    assert(words@ + Seq::<WordModel>::empty() =~= words@);
    words
}

// ---------------------------------------------------------------------------
// What the segmentation promises
// ---------------------------------------------------------------------------

/// Scoring words of a row that begin at column `from` or later, in order and
/// without overlap.
pub open spec fn is_segmentation(
    nodes: Seq<u32>,
    row: Seq<u8>,
    from: int,
    words: Seq<WordModel>,
) -> bool
    decreases words.len(),
{
    words.len() == 0 || {
        let first = words[0];
        &&& from <= first.start
        &&& is_scoring(nodes, row, first.start, first.end)
        &&& first == span_word(row, first.start, first.end)
        &&& is_segmentation(nodes, row, first.end + 1, words.drop_first())
    }
}

pub proof fn lemma_total_score_concat(left: Seq<WordModel>, right: Seq<WordModel>)
    ensures
        total_score(left + right) == total_score(left) + total_score(right),
    decreases right.len(),
{
    if right.len() == 0 {
        assert(left + right =~= left);
    } else {
        assert((left + right).drop_last() =~= left + right.drop_last());
        lemma_total_score_concat(left, right.drop_last());
    }
}

pub proof fn lemma_total_score_first(words: Seq<WordModel>)
    requires
        words.len() > 0,
    ensures
        total_score(words) == words[0].score + total_score(words.drop_first()),
{
    assert(words =~= seq![words[0]] + words.drop_first());
    lemma_total_score_concat(seq![words[0]], words.drop_first());
    reveal_with_fuel(total_score, 2);
}

pub proof fn lemma_segment(nodes: Seq<u32>, row: Seq<u8>, from: int)
    requires
        0 <= from <= 10,
    ensures
        is_segmentation(nodes, row, from, segment_from(nodes, row, from)),
        total_score(segment_from(nodes, row, from)) == best_total(nodes, row, from),
    decreases 10 - from,
{
    if from < 10 {
        lemma_best_end(nodes, row, from, 10);
        let words = segment_from(nodes, row, from);
        match best_end_before(nodes, row, from, 10) {
            Some(end) => {
                lemma_segment(nodes, row, end + 1);
                assert(words.drop_first() =~= segment_from(nodes, row, end + 1));
                lemma_total_score_first(words);
            },
            None => {
                lemma_segment(nodes, row, from + 1);
                if words.len() > 0 {
                    assert(from <= words[0].start);
                }
            },
        }
    }
}

pub proof fn lemma_best_total_before_grows(
    nodes: Seq<u32>,
    row: Seq<u8>,
    from: int,
    shorter: int,
    longer: int,
)
    requires
        0 <= from < 10,
        from < shorter <= longer <= 10,
    ensures
        best_total_before(nodes, row, from, shorter) <= best_total_before(nodes, row, from, longer),
    decreases longer,
{
    if shorter < longer {
        lemma_best_total_before_grows(nodes, row, from, shorter, longer - 1);
    }
}

pub proof fn lemma_best_total_shrinks(nodes: Seq<u32>, row: Seq<u8>, from: int, later: int)
    requires
        0 <= from <= later <= 10,
    ensures
        best_total(nodes, row, later) <= best_total(nodes, row, from),
    decreases later - from,
{
    if from < later {
        lemma_best_total_shrinks(nodes, row, from + 1, later);
        lemma_best_total_before_grows(nodes, row, from, from + 1, 10);
    }
}

pub proof fn lemma_best_total_is_best(
    nodes: Seq<u32>,
    row: Seq<u8>,
    from: int,
    words: Seq<WordModel>,
)
    requires
        0 <= from <= 10,
        is_segmentation(nodes, row, from, words),
    ensures
        total_score(words) <= best_total(nodes, row, from),
    decreases words.len(),
{
    if words.len() == 0 {
        lemma_best_total_shrinks(nodes, row, from, 10);
    } else {
        let first = words[0];
        lemma_best_total_is_best(nodes, row, first.end + 1, words.drop_first());
        lemma_total_score_first(words);
        lemma_best_total_before_grows(nodes, row, first.start, first.end + 1, 10);
        lemma_best_total_shrinks(nodes, row, from, first.start);
    }
}

/// The words of a row are scoring words in column order that do not overlap.
pub proof fn row_words_do_not_overlap(nodes: Seq<u32>, row: Seq<u8>)
    ensures
        is_segmentation(nodes, row, 0, row_words(nodes, row)),
{
    lemma_segment(nodes, row, 0);
}

/// No other choice of scoring words without overlap makes more points.
pub proof fn row_words_score_the_most(nodes: Seq<u32>, row: Seq<u8>, words: Seq<WordModel>)
    requires
        is_segmentation(nodes, row, 0, words),
    ensures
        total_score(words) <= total_score(row_words(nodes, row)),
{
    lemma_segment(nodes, row, 0);
    lemma_best_total_is_best(nodes, row, 0, words);
}

/// A row whose cells all belong to one piece scores no word.
pub proof fn one_piece_scores_nothing(nodes: Seq<u32>, row: Seq<u8>)
    requires
        row.len() == 10,
        forall|i: int, j: int|
            0 <= i < 10 && 0 <= j < 10 && row[i] != 0 && row[j] != 0 ==> piece_of(
                #[trigger] row[i],
            ) == piece_of(#[trigger] row[j]),
    ensures
        row_words(nodes, row) == Seq::<WordModel>::empty(),
{
    row_words_do_not_overlap(nodes, row);
    let words = row_words(nodes, row);
    if words.len() > 0 {
        let first = words[0];
        let i = choose|i: int|
            first.start < i <= first.end && piece_of(#[trigger] row[i]) != piece_of(row[i - 1]);
        assert(row[i] != 0 && row[i - 1] != 0);
        assert(false);
    }
    assert(words =~= Seq::<WordModel>::empty());
}

// ---------------------------------------------------------------------------
// Adding up scores
// ---------------------------------------------------------------------------

proof fn lemma_segmentation_bounded(
    nodes: Seq<u32>,
    row: Seq<u8>,
    from: int,
    words: Seq<WordModel>,
    index: int,
)
    requires
        row.len() == 10,
        cells_valid(row),
        0 <= from,
        is_segmentation(nodes, row, from, words),
        0 <= index < words.len(),
    ensures
        0 <= words[index].score <= 10_000,
    decreases words.len(),
{
    let first = words[0];
    if index == 0 {
        lemma_span_text_valid(row, first.start, first.end);
        word_score_is_bounded(span_text(row, first.start, first.end));
    } else {
        lemma_segmentation_bounded(nodes, row, first.end + 1, words.drop_first(), index - 1);
    }
}

/// No word of a row scores more than ten letters of ten points can.
pub proof fn lemma_row_words_bounded(nodes: Seq<u32>, row: Seq<u8>)
    requires
        row.len() == 10,
        cells_valid(row),
    ensures
        forall|i: int|
            0 <= i < row_words(nodes, row).len() ==> 0 <= (#[trigger] row_words(nodes, row)[i]).score
                <= 10_000,
{
    row_words_do_not_overlap(nodes, row);
    assert forall|i: int| 0 <= i < row_words(nodes, row).len() implies 0 <= (
    #[trigger] row_words(nodes, row)[i]).score <= 10_000 by {
        lemma_segmentation_bounded(nodes, row, 0, row_words(nodes, row), i);
    }
}

pub proof fn lemma_total_score_bounded(words: Seq<WordModel>)
    requires
        forall|i: int| 0 <= i < words.len() ==> 0 <= (#[trigger] words[i]).score <= 10_000,
    ensures
        0 <= total_score(words) <= 10_000 * words.len(),
    decreases words.len(),
{
    if words.len() > 0 {
        lemma_total_score_bounded(words.drop_last());
    }
}

/// The points of all words of a list together.
pub fn sum_scores(words: &WordList) -> (sum: i32)
    requires
        words.wf(),
        forall|i: int| 0 <= i < words@.len() ==> 0 <= (#[trigger] words@[i]).score <= 10_000,
    ensures
        sum == total_score(words@),
{
    let mut sum: i32 = 0;
    let mut index: usize = 0;
    while index < words.len as usize
        invariant
            words.wf(),
            forall|i: int| 0 <= i < words@.len() ==> 0 <= (#[trigger] words@[i]).score <= 10_000,
            index <= words.len,
            sum == total_score(words@.take(index as int)),
            0 <= sum <= 10_000 * index,
        decreases words.len - index,
    {
        assert(words@.take(index + 1).drop_last() =~= words@.take(index as int));
        assert(words@[index as int] == words.items@[index as int]@);
        sum += words.items[index].score;
        index += 1;
    }
    assert(words@.take(words.len as int) =~= words@);
    sum
}

} // verus!
