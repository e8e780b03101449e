//! Laws of the words to set up: which are named, and in what order.

use vstd::prelude::*;

use crate::binary64::round53;
use crate::board::{filled_count, row_of};
use crate::evaluation::{
    evaluation_of, first_texts, row_setups, setup_value, setups, SetupModel, FULLNESS_FACTORS,
};
use crate::laws::counting::{lemma_passing, passing};
use crate::ranking::{rank, ranking_is_sorted, ranking_keeps_the_items};
use crate::words::{row_words, WordModel};

verus! {

// ---------------------------------------------------------------------------
// Occupied cells
// ---------------------------------------------------------------------------

proof fn lemma_filled(cells: Seq<u8>, count: int)
    requires
        0 <= count <= cells.len(),
    ensures
        filled_count(cells.take(count)) == passing(|i: int| cells[i] != 0, count).len(),
    decreases count,
{
    let test = |i: int| cells[i] != 0;
    if count > 0 {
        lemma_filled(cells, count - 1);
        lemma_passing(test, count - 1);
        assert(cells.take(count).drop_last() =~= cells.take(count - 1));
        assert(cells.take(count).last() == cells[count - 1]);
    } else {
        lemma_passing(test, 0);
    }
}

/// The occupied cells are those that are not empty, each counted once.
pub proof fn occupied_cells_are_counted_once(cells: Seq<u8>)
    ensures
        filled_count(cells) == Set::new(|i: int| 0 <= i < cells.len() && cells[i] != 0).len(),
{
    let count = cells.len() as int;
    lemma_filled(cells, count);
    assert(cells.take(count) =~= cells);
    assert(passing(|i: int| cells[i] != 0, count) =~= Set::new(
        |i: int| 0 <= i < cells.len() && cells[i] != 0,
    ));
}

// ---------------------------------------------------------------------------
// Promises
// ---------------------------------------------------------------------------

/// What a word of a row with so many occupied cells promises.
pub open spec fn promise(word: WordModel, filled: int) -> int {
    round53(word.score * FULLNESS_FACTORS@[filled])
}

/// Whether a word is one that a row promises: the row is neither nearly empty nor full.
pub open spec fn is_promised(
    nodes: Seq<u32>,
    board: Seq<u8>,
    row: int,
    index: int,
    text: Seq<u8>,
    worth: int,
) -> bool {
    let cells = row_of(board, row);
    let words = row_words(nodes, cells);
    &&& 0 <= row < 22
    &&& 2 <= filled_count(cells) <= 9
    &&& 0 <= index < words.len()
    &&& words[index].text == text
    &&& promise(words[index], filled_count(cells) as int) == worth
}

/// Whether a promise is made by some word on the board.
pub open spec fn is_made(nodes: Seq<u32>, board: Seq<u8>, text: Seq<u8>, worth: int) -> bool {
    exists|row: int, index: int| #[trigger] is_promised(nodes, board, row, index, text, worth)
}

proof fn lemma_setups(nodes: Seq<u32>, board: Seq<u8>, limit: int)
    requires
        0 <= limit <= 22,
    ensures
        forall|i: int|
            0 <= i < setups(nodes, board, limit).len() ==> is_made(
                nodes,
                board,
                (#[trigger] setups(nodes, board, limit)[i]).text,
                setups(nodes, board, limit)[i].value,
            ),
        forall|row: int, index: int, text: Seq<u8>, worth: int|
            row < limit && #[trigger] is_promised(nodes, board, row, index, text, worth)
                ==> setups(nodes, board, limit).contains(SetupModel { text, value: worth }),
    decreases limit,
{
    if limit > 0 {
        lemma_setups(nodes, board, limit - 1);
        let before = setups(nodes, board, limit - 1);
        let all = setups(nodes, board, limit);
        let cells = row_of(board, limit - 1);
        let new = row_setups(nodes, cells);
        assert(all == before + new);
        assert forall|i: int| 0 <= i < all.len() implies is_made(
            nodes,
            board,
            (#[trigger] all[i]).text,
            all[i].value,
        ) by {
            if i < before.len() {
                assert(all[i] == before[i]);
            } else {
                let index = i - before.len();
                assert(all[i] == new[index]);
                assert(is_promised(nodes, board, limit - 1, index, all[i].text, all[i].value));
            }
        }
        assert forall|row: int, index: int, text: Seq<u8>, worth: int|
            row < limit && #[trigger] is_promised(
                nodes,
                board,
                row,
                index,
                text,
                worth,
            ) implies all.contains(SetupModel { text, value: worth }) by {
            let wanted = SetupModel { text, value: worth };
            if row < limit - 1 {
                assert(before.contains(wanted));
                let place = choose|i: int| 0 <= i < before.len() && before[i] == wanted;
                assert(all[place] == wanted);
            } else {
                assert(new[index] == wanted);
                assert(all[before.len() + index] == wanted);
            }
        }
    }
}

// ---------------------------------------------------------------------------
// Which words are named
// ---------------------------------------------------------------------------

/// Whether texts are named at these places of a list: each for the first time there, in
/// order, and all texts up to the last place are named.
pub open spec fn are_first_places(
    list: Seq<SetupModel>,
    texts: Seq<Seq<u8>>,
    places: Seq<int>,
) -> bool {
    &&& places.len() == texts.len()
    &&& forall|i: int|
        0 <= i < texts.len() ==> 0 <= #[trigger] places[i] < list.len() && list[places[i]].text
            == texts[i]
    &&& forall|i: int, j: int| 0 <= i < j < texts.len() ==> places[i] < places[j]
}

proof fn lemma_places(list: Seq<SetupModel>) -> (places: Seq<int>)
    ensures
        are_first_places(list, first_texts(list), places),
        first_texts(list).len() <= 4,
        forall|k: int|
            0 <= k < list.len() ==> first_texts(list).contains((#[trigger] list[k]).text) || (
            first_texts(list).len() == 4 && places[3] < k),
    decreases list.len(),
{
    let texts = first_texts(list);
    if list.len() == 0 {
        Seq::empty()
    } else {
        let shorter = list.drop_last();
        let before = first_texts(shorter);
        let places = lemma_places(shorter);
        let text = list.last().text;
        let last = list.len() - 1;
        let all = if before.contains(text) || before.len() >= 4 {
            places
        } else {
            places.push(last)
        };
        assert forall|i: int| 0 <= i < texts.len() implies 0 <= #[trigger] all[i] < list.len()
            && list[all[i]].text == texts[i] by {
            if i < before.len() {
                assert(all[i] == places[i]);
                assert(shorter[places[i]] == list[places[i]]);
            }
        }
        assert forall|i: int, j: int| 0 <= i < j < texts.len() implies all[i] < all[j] by {
            assert(all[i] == places[i]);
            assert(places[i] < shorter.len());
        }
        assert forall|k: int| 0 <= k < list.len() implies texts.contains(
            (#[trigger] list[k]).text,
        ) || (texts.len() == 4 && all[3] < k) by {
            if k < last {
                assert(shorter[k] == list[k]);
                if before.contains(list[k].text) {
                    let i = choose|i: int| 0 <= i < before.len() && before[i] == list[k].text;
                    assert(texts[i] == list[k].text);
                }
            } else if before.contains(text) {
            } else if before.len() >= 4 {
                assert(0 <= places[3] < shorter.len());
            } else {
                assert(texts[before.len() as int] == text);
            }
        }
        all
    }
}

/// Whether promises stand for texts: each is made on the board, and they fall.
pub open spec fn stand_for(
    nodes: Seq<u32>,
    board: Seq<u8>,
    texts: Seq<Seq<u8>>,
    worths: Seq<int>,
) -> bool {
    &&& worths.len() == texts.len()
    &&& forall|i: int| 0 <= i < texts.len() ==> is_made(nodes, board, #[trigger] texts[i], worths[i])
    &&& forall|i: int, j: int| 0 <= i <= j < texts.len() ==> worths[i] >= worths[j]
}

/// Whether a word on the board is left out only where four others are named, none of
/// which promises less.
pub open spec fn leave_out_only_the_lesser(
    nodes: Seq<u32>,
    board: Seq<u8>,
    texts: Seq<Seq<u8>>,
    worths: Seq<int>,
) -> bool {
    forall|row: int, index: int, text: Seq<u8>, worth: int| #[trigger]
        is_promised(nodes, board, row, index, text, worth) ==> texts.contains(text) || (
        texts.len() == 4 && worths[3] >= worth)
}

/// The words to set up are words of rows that are neither nearly empty nor full, the
/// greatest promise first. A word of such a row is left out only where four others are
/// named, none of which promises less.
pub proof fn the_greatest_promises_are_named(nodes: Seq<u32>, board: Seq<u8>)
    ensures
        exists|worths: Seq<int>|
            {
                &&& #[trigger] stand_for(
                    nodes,
                    board,
                    evaluation_of(nodes, board).setup_words,
                    worths,
                )
                &&& leave_out_only_the_lesser(
                    nodes,
                    board,
                    evaluation_of(nodes, board).setup_words,
                    worths,
                )
            },
{
    let found = setups(nodes, board, 22);
    let ranked = rank(found, setup_value());
    let named = first_texts(ranked);
    lemma_setups(nodes, board, 22);
    ranking_is_sorted(found, setup_value());
    ranking_keeps_the_items(found, setup_value());
    let places = lemma_places(ranked);
    let worths = Seq::new(named.len(), |i: int| ranked[places[i]].value);
    assert forall|i: int| 0 <= i < named.len() implies is_made(
        nodes,
        board,
        #[trigger] named[i],
        worths[i],
    ) by {
        let item = ranked[places[i]];
        lemma_kept_by_ranking(found, ranked, item);
        let k = choose|k: int| 0 <= k < found.len() && found[k] == item;
        assert(is_made(nodes, board, found[k].text, found[k].value));
    }
    assert forall|i: int, j: int| 0 <= i <= j < named.len() implies worths[i] >= worths[j] by {
        assert(places[i] <= places[j]);
        assert(setup_value()(ranked[places[i]]) >= setup_value()(ranked[places[j]]));
    }
    assert(stand_for(nodes, board, named, worths));
    assert forall|row: int, index: int, text: Seq<u8>, worth: int| #[trigger]
        is_promised(nodes, board, row, index, text, worth) implies named.contains(text) || (
    named.len() == 4 && worths[3] >= worth) by {
        let wanted = SetupModel { text, value: worth };
        assert(found.contains(wanted));
        lemma_kept_by_ranking(ranked, found, wanted);
        let k = choose|k: int| 0 <= k < ranked.len() && ranked[k] == wanted;
        if !named.contains(ranked[k].text) {
            assert(places[3] < k);
            assert(setup_value()(ranked[places[3]]) >= setup_value()(ranked[k]));
        }
    }
    assert(leave_out_only_the_lesser(nodes, board, named, worths));
    assert(evaluation_of(nodes, board).setup_words == named);
}

proof fn lemma_kept_by_ranking(left: Seq<SetupModel>, right: Seq<SetupModel>, item: SetupModel)
    requires
        left.to_multiset() == right.to_multiset(),
        right.contains(item),
    ensures
        left.contains(item),
{
    broadcast use vstd::seq_lib::group_to_multiset_ensures;

    assert(right.to_multiset().count(item) > 0);
    assert(left.to_multiset().count(item) > 0);
}

} // verus!
