//! Laws of words: what a word is, what it scores, and which words a row takes.

use vstd::prelude::*;

use crate::board::{letter_of, piece_of};
use crate::lexicon::{find_sibling, in_lexicon, node_child, spells};
use crate::words::{
    best_end_before, best_total, best_total_before, crosses_pieces, is_scoring, is_segmentation,
    lemma_best_end, lemma_best_total_before_grows, lemma_best_total_is_best,
    lemma_best_total_shrinks, lemma_segment, lemma_total_score_first, letter_sum, row_words,
    segment_from, span_text, span_word, total_score, word_score, WordModel,
};

verus! {

// ---------------------------------------------------------------------------
// Points
// ---------------------------------------------------------------------------

/// What each letter is worth by itself: Q and Z ten, J and X eight, K five, F, H, V,
/// W and Y four, B, C, M and P three, D and G two, and all others one.
pub proof fn letters_have_their_points(letter: u8)
    requires
        1 <= letter <= 26,
    ensures
        letter == 17 || letter == 26 ==> word_score(seq![letter]) == 10,
        letter == 10 || letter == 24 ==> word_score(seq![letter]) == 8,
        letter == 11 ==> word_score(seq![letter]) == 5,
        letter == 6 || letter == 8 || letter == 22 || letter == 23 || letter == 25 ==> word_score(
            seq![letter],
        ) == 4,
        letter == 2 || letter == 3 || letter == 13 || letter == 16 ==> word_score(seq![letter])
            == 3,
        letter == 4 || letter == 7 ==> word_score(seq![letter]) == 2,
        letter == 1 || letter == 5 || letter == 9 || letter == 12 || letter == 14 || letter == 15
            || letter == 18 || letter == 19 || letter == 20 || letter == 21 ==> word_score(
            seq![letter],
        ) == 1,
{
    let text = seq![letter];
    assert(text.drop_last() =~= Seq::<u8>::empty());
    assert(letter_sum(text.drop_last()) == 0);
    assert(word_score(text) == letter_sum(text) * 1 * 1);
}

proof fn lemma_letter_sum_concat(left: Seq<u8>, right: Seq<u8>)
    ensures
        letter_sum(left + right) == letter_sum(left) + letter_sum(right),
    decreases right.len(),
{
    if right.len() == 0 {
        assert(left + right =~= left);
    } else {
        assert((left + right).drop_last() =~= left + right.drop_last());
        lemma_letter_sum_concat(left, right.drop_last());
    }
}

/// Per square of their lengths, the points of two texts add up when the texts are put
/// together; no text, no points.
pub proof fn points_add_up_per_square_of_the_length(left: Seq<u8>, right: Seq<u8>)
    ensures
        word_score(Seq::<u8>::empty()) == 0,
        ({
            let l = left.len() as int;
            let r = right.len() as int;
            word_score(left + right) * (l * l) * (r * r) == (l + r) * (l + r) * (word_score(left)
                * (r * r) + word_score(right) * (l * l))
        }),
{
    lemma_letter_sum_concat(left, right);
    let l = left.len() as int;
    let r = right.len() as int;
    let a = letter_sum(left);
    let b = letter_sum(right);
    let (x, y, z) = (l * l, r * r, (l + r) * (l + r));
    assert(a * l * l == a * x) by (nonlinear_arith)
        requires
            x == l * l,
    ;
    assert(b * r * r == b * y) by (nonlinear_arith)
        requires
            y == r * r,
    ;
    assert((a + b) * (l + r) * (l + r) == (a + b) * z) by (nonlinear_arith)
        requires
            z == (l + r) * (l + r),
    ;
    let k = x * y;
    assert(a * x * y == a * k) by (nonlinear_arith)
        requires
            k == x * y,
    ;
    assert(b * y * x == b * k) by (nonlinear_arith)
        requires
            k == x * y,
    ;
    let c = (a + b) * z;
    assert(c * x * y == c * k) by (nonlinear_arith)
        requires
            k == x * y,
    ;
    assert(((a + b) * z) * k == z * (a * k + b * k)) by (nonlinear_arith);
}

/// The points of lists of words add up, and one word brings its own.
pub proof fn points_of_words_add_up(left: Seq<WordModel>, right: Seq<WordModel>, word: WordModel)
    ensures
        total_score(Seq::<WordModel>::empty()) == 0,
        total_score(seq![word]) == word.score,
        total_score(left + right) == total_score(left) + total_score(right),
{
    crate::words::lemma_total_score_concat(left, right);
    assert(seq![word].drop_last() =~= Seq::<WordModel>::empty());
    assert(total_score(seq![word].drop_last()) == 0);
}

// ---------------------------------------------------------------------------
// The lexicon
// ---------------------------------------------------------------------------

/// The list that spells letter number `place` of a text whose nodes are in `path`: the
/// first list, or that below the node before.
pub open spec fn list_start(nodes: Seq<u32>, first: int, path: Seq<int>, place: int) -> int {
    if place == 0 {
        first
    } else {
        (nodes[path[place - 1]] & 0x3fffff) as int
    }
}

/// Whether a path of nodes spells a text: each node carries its letter and is the first
/// in its list to do so, the list being the one below the node before; the list does
/// not end earlier; and a word ends on the last node.
pub open spec fn is_spelled_by(
    nodes: Seq<u32>,
    first: int,
    text: Seq<u8>,
    path: Seq<int>,
) -> bool {
    &&& path.len() == text.len()
    &&& text.len() > 0
    &&& forall|i: int|
        0 <= i < path.len() ==> {
            &&& list_start(nodes, first, path, i) <= #[trigger] path[i] < nodes.len()
            &&& (nodes[path[i]] >> 24) == text[i]
            &&& i > 0 ==> list_start(nodes, first, path, i) != 0
            &&& forall|j: int|
                list_start(nodes, first, path, i) <= j < path[i] ==> (#[trigger] nodes[j] >> 24)
                    != text[i] && nodes[j] & 0x400000 == 0
        }
    &&& nodes[path.last()] & 0x800000 != 0
}

proof fn lemma_sibling(nodes: Seq<u32>, index: int, tile: u8)
    requires
        0 <= index,
    ensures
        match find_sibling(nodes, index, tile) {
            Some(found) => {
                &&& index <= found < nodes.len()
                &&& (nodes[found] >> 24) == tile
                &&& forall|j: int|
                    index <= j < found ==> (#[trigger] nodes[j] >> 24) != tile && nodes[j]
                        & 0x400000 == 0
            },
            None => forall|k: int|
                index <= k < nodes.len() && (#[trigger] nodes[k] >> 24) == tile ==> exists|j: int|
                    index <= j < k && ((#[trigger] nodes[j] >> 24) == tile || nodes[j] & 0x400000
                        != 0),
        },
    decreases nodes.len() - index,
{
    if index < nodes.len() && (nodes[index] >> 24) != tile && nodes[index] & 0x400000 == 0 {
        lemma_sibling(nodes, index + 1, tile);
        match find_sibling(nodes, index + 1, tile) {
            Some(found) => {},
            None => {
                assert forall|k: int|
                    index <= k < nodes.len() && (#[trigger] nodes[k] >> 24)
                        == tile implies exists|j: int|
                    index <= j < k && ((#[trigger] nodes[j] >> 24) == tile || nodes[j] & 0x400000
                        != 0) by {
                    let j = choose|j: int|
                        index + 1 <= j < k && ((#[trigger] nodes[j] >> 24) == tile || nodes[j]
                            & 0x400000 != 0);
                    assert(index <= j < k);
                }
            },
        }
    } else if index < nodes.len() && (nodes[index] >> 24) != tile {
        assert forall|k: int|
            index <= k < nodes.len() && (#[trigger] nodes[k] >> 24) == tile implies exists|j: int|
            index <= j < k && ((#[trigger] nodes[j] >> 24) == tile || nodes[j] & 0x400000 != 0) by {
            assert(nodes[index] & 0x400000 != 0);
            assert(index < k);
        }
    }
}

proof fn lemma_path_spells(nodes: Seq<u32>, first: int, text: Seq<u8>, path: Seq<int>)
    requires
        0 <= first,
        is_spelled_by(nodes, first, text, path),
    ensures
        spells(nodes, first, text),
    decreases text.len(),
{
    lemma_sibling(nodes, first, text[0]);
    assert(list_start(nodes, first, path, 0) == first);
    let place = path[0];
    assert(first <= place < nodes.len() && (nodes[place] >> 24) == text[0]);
    match find_sibling(nodes, first, text[0]) {
        None => {
            let j = choose|j: int|
                first <= j < place && ((#[trigger] nodes[j] >> 24) == text[0] || nodes[j]
                    & 0x400000 != 0);
            assert(false);
        },
        Some(found) => {
            if found < place {
                assert((nodes[found] >> 24) != text[0]);
            } else if place < found {
                assert((nodes[place] >> 24) != text[0]);
            }
            assert(found == place);
            if text.len() > 1 {
                let rest = path.drop_first();
                let child = (nodes[place] & 0x3fffff) as int;
                assert(path[1] == rest[0]);
                assert(list_start(nodes, first, path, 1) == child);
                assert forall|i: int| 0 <= i < rest.len() implies {
                    &&& list_start(nodes, child, rest, i) <= #[trigger] rest[i] < nodes.len()
                    &&& (nodes[rest[i]] >> 24) == text.drop_first()[i]
                    &&& i > 0 ==> list_start(nodes, child, rest, i) != 0
                    &&& forall|j: int|
                        list_start(nodes, child, rest, i) <= j < rest[i] ==> (#[trigger] nodes[j]
                            >> 24) != text.drop_first()[i] && nodes[j] & 0x400000 == 0
                } by {
                    assert(rest[i] == path[i + 1]);
                    assert(list_start(nodes, child, rest, i) == list_start(
                        nodes,
                        first,
                        path,
                        i + 1,
                    ));
                    assert(text.drop_first()[i] == text[i + 1]);
                }
                assert(rest.last() == path.last());
                lemma_path_spells(nodes, child, text.drop_first(), rest);
            } else {
                assert(path.last() == place);
            }
        },
    }
}

proof fn lemma_spelled_has_path(nodes: Seq<u32>, first: int, text: Seq<u8>) -> (path: Seq<int>)
    requires
        0 <= first,
        spells(nodes, first, text),
    ensures
        is_spelled_by(nodes, first, text, path),
    decreases text.len(),
{
    lemma_sibling(nodes, first, text[0]);
    let found = find_sibling(nodes, first, text[0]).unwrap();
    if text.len() == 1 {
        let path = seq![found];
        assert(path.last() == found);
        assert(list_start(nodes, first, path, 0) == first);
        path
    } else {
        let child = node_child(nodes[found]);
        let rest = lemma_spelled_has_path(nodes, child, text.drop_first());
        let path = seq![found] + rest;
        assert forall|i: int| 0 <= i < path.len() implies {
            &&& list_start(nodes, first, path, i) <= #[trigger] path[i] < nodes.len()
            &&& (nodes[path[i]] >> 24) == text[i]
            &&& i > 0 ==> list_start(nodes, first, path, i) != 0
            &&& forall|j: int|
                list_start(nodes, first, path, i) <= j < path[i] ==> (#[trigger] nodes[j] >> 24)
                    != text[i] && nodes[j] & 0x400000 == 0
        } by {
            if i > 0 {
                assert(path[i] == rest[i - 1]);
                assert(list_start(nodes, child, rest, i - 1) == list_start(nodes, first, path, i))
                    by {
                    if i > 1 {
                        assert(path[i - 1] == rest[i - 2]);
                    }
                }
                assert(text.drop_first()[i - 1] == text[i]);
            }
        }
        assert(path.last() == rest.last());
        path
    }
}

/// A word is a text of at least two letters that a path through the graph spells, from
/// the list that the first node points to.
pub proof fn words_are_paths_through_the_graph(nodes: Seq<u32>, text: Seq<u8>)
    requires
        nodes.len() > 0,
    ensures
        in_lexicon(nodes, text) <==> text.len() >= 2 && exists|path: Seq<int>|
            is_spelled_by(nodes, (nodes[0] & 0x3fffff) as int, text, path),
{
    let first = (nodes[0] & 0x3fffff) as int;
    if in_lexicon(nodes, text) {
        let path = lemma_spelled_has_path(nodes, first, text);
        assert(is_spelled_by(nodes, first, text, path));
    }
    if exists|path: Seq<int>| is_spelled_by(nodes, first, text, path) {
        let path = choose|path: Seq<int>| is_spelled_by(nodes, first, text, path);
        lemma_path_spells(nodes, first, text, path);
    }
}

// ---------------------------------------------------------------------------
// The words of a row
// ---------------------------------------------------------------------------

/// Whether a word lies in a row: its cells are occupied, any two of them differ in their
/// colour group, its text are their letters, the lexicon has it, and it makes at least
/// forty points.
pub open spec fn lies_in_row(nodes: Seq<u32>, row: Seq<u8>, word: WordModel) -> bool {
    &&& 0 <= word.start < word.end < 10
    &&& forall|i: int| word.start <= i <= word.end ==> #[trigger] row[i] != 0
    &&& exists|i: int, j: int|
        word.start <= i < j <= word.end && piece_of(#[trigger] row[i]) != piece_of(
            #[trigger] row[j],
        )
    &&& word.text.len() == word.end - word.start + 1
    &&& forall|k: int|
        0 <= k < word.text.len() ==> #[trigger] word.text[k] == letter_of(row[word.start + k])
    &&& in_lexicon(nodes, word.text)
    &&& word.score == word_score(word.text)
    &&& word.score >= 40
}

/// Whether words lie in a row from left to right without overlap.
pub open spec fn lie_side_by_side(nodes: Seq<u32>, row: Seq<u8>, words: Seq<WordModel>) -> bool {
    &&& forall|i: int| 0 <= i < words.len() ==> lies_in_row(nodes, row, #[trigger] words[i])
    &&& forall|i: int, j: int| 0 <= i < j < words.len() ==> words[i].end < words[j].start
}

proof fn lemma_neighbours_differ(row: Seq<u8>, i: int, j: int)
    requires
        i < j,
        piece_of(row[i]) != piece_of(row[j]),
    ensures
        exists|k: int| i < k <= j && piece_of(#[trigger] row[k]) != piece_of(row[k - 1]),
    decreases j - i,
{
    if piece_of(row[j]) != piece_of(row[j - 1]) {
        assert(i < j <= j);
    } else {
        lemma_neighbours_differ(row, i, j - 1);
        let k = choose|k: int|
            i < k <= j - 1 && piece_of(#[trigger] row[k]) != piece_of(row[k - 1]);
        assert(i < k <= j);
    }
}

proof fn lemma_scoring(nodes: Seq<u32>, row: Seq<u8>, word: WordModel)
    ensures
        lies_in_row(nodes, row, word) <==> is_scoring(nodes, row, word.start, word.end) && word
            == span_word(row, word.start, word.end),
{
    let text = span_text(row, word.start, word.end);
    if lies_in_row(nodes, row, word) {
        assert(word.text =~= text);
        let (i, j) = choose|i: int, j: int|
            word.start <= i < j <= word.end && piece_of(#[trigger] row[i]) != piece_of(
                #[trigger] row[j],
            );
        lemma_neighbours_differ(row, i, j);
        let k = choose|k: int| i < k <= j && piece_of(#[trigger] row[k]) != piece_of(row[k - 1]);
        assert(crosses_pieces(row, word.start, word.end)) by {
            assert(word.start < k <= word.end);
        }
    }
    if is_scoring(nodes, row, word.start, word.end) && word == span_word(
        row,
        word.start,
        word.end,
    ) {
        let k = choose|k: int|
            word.start < k <= word.end && piece_of(#[trigger] row[k]) != piece_of(row[k - 1]);
        assert(piece_of(row[k - 1]) != piece_of(row[k]));
    }
}

proof fn lemma_segmentation(nodes: Seq<u32>, row: Seq<u8>, from: int, words: Seq<WordModel>)
    ensures
        is_segmentation(nodes, row, from, words) <==> lie_side_by_side(nodes, row, words) && (
        words.len() > 0 ==> from <= words[0].start),
    decreases words.len(),
{
    if words.len() > 0 {
        let first = words[0];
        let rest = words.drop_first();
        lemma_segmentation(nodes, row, first.end + 1, rest);
        lemma_scoring(nodes, row, first);
        if is_segmentation(nodes, row, from, words) {
            assert forall|i: int| 0 <= i < words.len() implies lies_in_row(
                nodes,
                row,
                #[trigger] words[i],
            ) by {
                if i > 0 {
                    assert(words[i] == rest[i - 1]);
                }
            }
            assert forall|i: int, j: int| 0 <= i < j < words.len() implies words[i].end
                < words[j].start by {
                assert(words[j] == rest[j - 1]);
                assert(rest[0].start >= first.end + 1);
                assert(lies_in_row(nodes, row, rest[0]));
                if i > 0 {
                    assert(words[i] == rest[i - 1]);
                    assert(rest[i - 1].end < rest[j - 1].start);
                } else if j > 1 {
                    assert(rest[0].end < rest[j - 1].start);
                }
            }
        }
        if lie_side_by_side(nodes, row, words) && from <= first.start {
            assert forall|i: int| 0 <= i < rest.len() implies lies_in_row(
                nodes,
                row,
                #[trigger] rest[i],
            ) by {
                assert(rest[i] == words[i + 1]);
            }
            assert forall|i: int, j: int| 0 <= i < j < rest.len() implies rest[i].end
                < rest[j].start by {
                assert(words[i + 1].end < words[j + 1].start);
            }
            if rest.len() > 0 {
                assert(words[0].end < words[1].start);
            }
        }
    }
}

/// The words of a row lie in it from left to right without overlap.
pub proof fn row_words_lie_side_by_side(nodes: Seq<u32>, row: Seq<u8>)
    ensures
        lie_side_by_side(nodes, row, row_words(nodes, row)),
{
    lemma_segment(nodes, row, 0);
    lemma_segmentation(nodes, row, 0, row_words(nodes, row));
}

/// No words that lie side by side in a row make more points than the row's own.
pub proof fn no_other_words_make_more_points(
    nodes: Seq<u32>,
    row: Seq<u8>,
    words: Seq<WordModel>,
)
    requires
        lie_side_by_side(nodes, row, words),
    ensures
        total_score(words) <= total_score(row_words(nodes, row)),
{
    if words.len() > 0 {
        assert(lies_in_row(nodes, row, words[0]));
    }
    lemma_segmentation(nodes, row, 0, words);
    lemma_segment(nodes, row, 0);
    lemma_best_total_is_best(nodes, row, 0, words);
}

/// A span of occupied cells of which any two differ in their colour group scores if its
/// letters are a word of at least forty points: the row makes no fewer points.
pub proof fn a_word_across_two_pieces_counts(
    nodes: Seq<u32>,
    row: Seq<u8>,
    start: int,
    end: int,
    text: Seq<u8>,
    left: int,
    right: int,
)
    requires
        0 <= start <= left < right <= end < 10,
        forall|i: int| start <= i <= end ==> #[trigger] row[i] != 0,
        piece_of(row[left]) != piece_of(row[right]),
        text.len() == end - start + 1,
        forall|k: int| 0 <= k < text.len() ==> #[trigger] text[k] == letter_of(row[start + k]),
        in_lexicon(nodes, text),
        word_score(text) >= 40,
    ensures
        is_scoring(nodes, row, start, end),
        total_score(row_words(nodes, row)) >= word_score(text),
{
    let word = WordModel { start, end, text, score: word_score(text) };
    assert(lies_in_row(nodes, row, word)) by {
        assert(word.start <= left < right <= word.end && piece_of(row[left]) != piece_of(
            row[right],
        ));
    }
    lemma_scoring(nodes, row, word);
    no_other_words_make_more_points(nodes, row, seq![word]);
    points_of_words_add_up(Seq::empty(), Seq::empty(), word);
}

proof fn lemma_points_are_positive(nodes: Seq<u32>, row: Seq<u8>, from: int, words: Seq<WordModel>)
    requires
        is_segmentation(nodes, row, from, words),
    ensures
        total_score(words) >= 40 * words.len(),
    decreases words.len(),
{
    if words.len() > 0 {
        lemma_points_are_positive(nodes, row, words[0].end + 1, words.drop_first());
        lemma_total_score_first(words);
    }
}

/// The chosen end is the first to reach the best total, and beats taking no word.
proof fn lemma_end_is_first(nodes: Seq<u32>, row: Seq<u8>, from: int, limit: int, end: int)
    requires
        0 <= from < end < limit <= 10,
        best_end_before(nodes, row, from, limit) == Some(end),
    ensures
        best_total_before(nodes, row, from, limit) > best_total_before(nodes, row, from, end),
    decreases limit,
{
    lemma_best_end(nodes, row, from, limit - 1);
    let shorter = best_total_before(nodes, row, from, limit - 1);
    let total = span_word(row, from, limit - 1).score + best_total(nodes, row, limit);
    if !(is_scoring(nodes, row, from, limit - 1) && total > shorter) {
        lemma_end_is_first(nodes, row, from, limit - 1, end);
    }
}

/// Whether two lists agree up to a place and differ in it.
pub open spec fn first_differ(left: Seq<WordModel>, right: Seq<WordModel>, place: int) -> bool {
    &&& 0 <= place <= left.len()
    &&& place <= right.len()
    &&& left.take(place) == right.take(place)
    &&& place < left.len() || place < right.len()
    &&& place < left.len() && place < right.len() ==> left[place] != right[place]
}

proof fn lemma_rests_differ(left: Seq<WordModel>, right: Seq<WordModel>, place: int)
    requires
        first_differ(left, right, place),
        left.len() > 0,
        right.len() > 0,
    ensures
        left[0] != right[0] ==> place == 0,
        left[0] == right[0] ==> place > 0 && first_differ(
            left.drop_first(),
            right.drop_first(),
            place - 1,
        ),
{
    if place > 0 {
        assert(left.take(place)[0] == right.take(place)[0]);
        assert(left.drop_first().take(place - 1) =~= left.take(place).drop_first());
        assert(right.drop_first().take(place - 1) =~= right.take(place).drop_first());
    }
}

/// Words that make the best total take one where the row's own do, no shorter.
proof fn lemma_first_of_best(
    nodes: Seq<u32>,
    row: Seq<u8>,
    from: int,
    words: Seq<WordModel>,
    end: int,
)
    requires
        0 <= from < 10,
        is_segmentation(nodes, row, from, words),
        total_score(words) == best_total(nodes, row, from),
        best_end_before(nodes, row, from, 10) == Some(end),
    ensures
        from < end < 10,
        words.len() > 0,
        words[0].start == from,
        words[0].end >= end,
        words[0].end == end ==> words[0] == span_word(row, from, end) && total_score(
            words.drop_first(),
        ) == best_total(nodes, row, end + 1),
{
    lemma_best_end(nodes, row, from, 10);
    lemma_end_is_first(nodes, row, from, 10, end);
    lemma_best_total_before_grows(nodes, row, from, from + 1, end);
    lemma_best_total_shrinks(nodes, row, from + 1, 10);
    assert(best_total_before(nodes, row, from, from + 1) == best_total(nodes, row, from + 1));
    let first = words[0];
    if words.len() > 0 {
        if first.start > from {
            lemma_best_total_is_best(nodes, row, from + 1, words);
        }
        lemma_best_total_is_best(nodes, row, first.end + 1, words.drop_first());
        lemma_total_score_first(words);
        if first.start == from && first.end < end {
            lemma_best_total_before_grows(nodes, row, from, first.end + 1, end);
        }
    }
}

proof fn lemma_ties(nodes: Seq<u32>, row: Seq<u8>, from: int, words: Seq<WordModel>, place: int)
    requires
        0 <= from <= 10,
        is_segmentation(nodes, row, from, words),
        total_score(words) == best_total(nodes, row, from),
        first_differ(words, segment_from(nodes, row, from), place),
    ensures
        place < words.len(),
        place < segment_from(nodes, row, from).len(),
        ({
            let chosen = segment_from(nodes, row, from)[place];
            ||| words[place].start < chosen.start
            ||| words[place].start == chosen.start && words[place].end > chosen.end
        }),
    decreases 10 - from,
{
    let chosen = segment_from(nodes, row, from);
    if from >= 10 {
        assert(words.len() == 0);
    } else {
        lemma_best_end(nodes, row, from, 10);
        match best_end_before(nodes, row, from, 10) {
            Some(end) => {
                lemma_first_of_best(nodes, row, from, words, end);
                let others = segment_from(nodes, row, end + 1);
                assert(chosen == seq![span_word(row, from, end)] + others);
                assert(chosen.drop_first() =~= others);
                lemma_rests_differ(words, chosen, place);
                if words[0].end == end {
                    lemma_ties(nodes, row, end + 1, words.drop_first(), place - 1);
                    assert(words[place] == words.drop_first()[place - 1]);
                    assert(chosen[place] == others[place - 1]);
                }
            },
            None => {
                assert(chosen == segment_from(nodes, row, from + 1));
                if words.len() > 0 && words[0].start == from {
                    lemma_points_are_positive(nodes, row, from, words);
                    lemma_segment(nodes, row, from + 1);
                    if chosen.len() == 0 {
                        assert(total_score(chosen) == 0);
                    }
                    assert(chosen[0].start >= from + 1);
                    lemma_rests_differ(words, chosen, place);
                } else {
                    lemma_ties(nodes, row, from + 1, words, place);
                }
            },
        }
    }
}

/// Where other words make as many points, the row's own begin later, or end sooner, at
/// the first place in which the two differ.
pub proof fn ties_go_to_the_later_then_the_shorter_word(
    nodes: Seq<u32>,
    row: Seq<u8>,
    words: Seq<WordModel>,
    place: int,
)
    requires
        lie_side_by_side(nodes, row, words),
        total_score(words) == total_score(row_words(nodes, row)),
        first_differ(words, row_words(nodes, row), place),
    ensures
        place < words.len(),
        place < row_words(nodes, row).len(),
        ({
            let chosen = row_words(nodes, row)[place];
            ||| words[place].start < chosen.start
            ||| words[place].start == chosen.start && words[place].end > chosen.end
        }),
{
    if words.len() > 0 {
        assert(lies_in_row(nodes, row, words[0]));
    }
    lemma_segmentation(nodes, row, 0, words);
    lemma_segment(nodes, row, 0);
    lemma_ties(nodes, row, 0, words, place);
}

} // verus!
