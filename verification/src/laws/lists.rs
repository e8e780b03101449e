//! Laws of the lists and counts over games, records and trials: what is kept, in what
//! order, and what the totals are.

use vstd::prelude::*;

use crate::compare::{completed_in, is_completed, EpisodeRow};
use crate::features::{piece_letters, times};
use crate::fragments::{admitted, record_at, stats_of, stats_of_one, LexiconFilter, SourceRecord};
use crate::laws::counting::{
    adds_up_to, are_passing, lemma_one_more_passing, lemma_passing, one_part_more_adds_itself,
    passing,
};
use crate::pieces::Piece;
use crate::random::split_of;
use crate::selection::{selections_of, Selection};
use crate::statistics::{
    ascending, ascending_is_sorted, middle_of, negated, positives, sum_of, zeros,
};
use crate::trials::{groups_of, split_groups, Group, GroupMeasure};

verus! {

// ---------------------------------------------------------------------------
// Counts and sums
// ---------------------------------------------------------------------------

/// A letter is counted once for each place where it occurs.
pub proof fn letters_are_counted_once(letters: Seq<u8>, letter: int, count: int)
    requires
        0 <= count <= letters.len(),
    ensures
        times(letters, letter, count) == passing(|i: int| letters[i] == letter, count).len(),
    decreases count,
{
    let test = |i: int| letters[i] == letter;
    if count > 0 {
        letters_are_counted_once(letters, letter, count - 1);
        lemma_passing(test, count - 1);
    } else {
        lemma_passing(test, 0);
    }
}

/// The letters of pieces follow one another, four for each piece.
pub proof fn letters_come_four_by_four(pieces: Seq<Piece>, count: int)
    requires
        0 <= count <= pieces.len(),
    ensures
        piece_letters(pieces, count).len() == 4 * count,
        forall|i: int|
            0 <= i < 4 * count ==> #[trigger] piece_letters(pieces, count)[i] == pieces[i
                / 4].letters@[i % 4],
    decreases count,
{
    if count > 0 {
        letters_come_four_by_four(pieces, count - 1);
        let before = piece_letters(pieces, count - 1);
        let all = piece_letters(pieces, count);
        assert forall|i: int| 0 <= i < 4 * count implies #[trigger] all[i] == pieces[i
            / 4].letters@[i % 4] by {
            if i < 4 * (count - 1) {
                assert(all[i] == before[i]);
            } else {
                assert(i / 4 == count - 1 && i % 4 == i - 4 * (count - 1));
            }
        }
    }
}

/// The sum of numbers is all of them added up, and those above zero, at zero and below
/// zero are told apart by their sign.
pub proof fn numbers_are_summed_and_counted(values: Seq<int>, count: int)
    requires
        0 <= count <= values.len(),
    ensures
        adds_up_to(values.take(count), sum_of(values, count)),
        positives(values, count) == passing(|i: int| values[i] > 0, count).len(),
        zeros(values, count) == passing(|i: int| values[i] == 0, count).len(),
    decreases count,
{
    let above = |i: int| values[i] > 0;
    let at = |i: int| values[i] == 0;
    if count == 0 {
        one_part_more_adds_itself(Seq::empty(), 0, 0);
        assert(values.take(0) =~= Seq::<int>::empty());
        lemma_passing(above, 0);
        lemma_passing(at, 0);
    } else {
        numbers_are_summed_and_counted(values, count - 1);
        one_part_more_adds_itself(
            values.take(count - 1),
            sum_of(values, count - 1),
            values[count - 1],
        );
        assert(values.take(count) =~= values.take(count - 1).push(values[count - 1]));
        lemma_passing(above, count - 1);
        lemma_passing(at, count - 1);
    }
}

/// Whether a list holds the same numbers in rising order.
pub open spec fn is_in_order(ordered: Seq<int>, values: Seq<int>) -> bool {
    &&& ordered.to_multiset() == values.to_multiset()
    &&& ordered.len() == values.len()
    &&& forall|i: int, j: int| 0 <= i <= j < ordered.len() ==> ordered[i] <= ordered[j]
}

/// The middle of numbers in order has as many of them before it as behind it.
pub proof fn the_middle_lies_half_way(values: Seq<int>)
    requires
        values.len() > 0,
    ensures
        exists|ordered: Seq<int>, low: int, high: int|
            {
                &&& is_in_order(ordered, values)
                &&& low + high == values.len() - 1
                &&& low <= high <= low + 1
                &&& middle_of(values) == (#[trigger] ordered[low], #[trigger] ordered[high])
            },
{
    let ordered = ascending(values);
    ascending_is_sorted(values);
    crate::ranking::ranking_keeps_the_items(values, negated());
    let low = (values.len() as int - 1) / 2;
    let high = values.len() as int / 2;
    assert(is_in_order(ordered, values));
    assert(middle_of(values) == (ordered[low], ordered[high]));
}

/// Each game of a group that was played to its end is counted once.
pub proof fn completed_games_are_counted_once(rows: Seq<EpisodeRow>, chosen: Seq<int>, count: int)
    requires
        0 <= count <= chosen.len(),
    ensures
        completed_in(rows, chosen, count) == passing(
            |i: int| is_completed(rows[chosen[i]]),
            count,
        ).len(),
    decreases count,
{
    let test = |i: int| is_completed(rows[chosen[i]]);
    if count > 0 {
        completed_games_are_counted_once(rows, chosen, count - 1);
        lemma_passing(test, count - 1);
    } else {
        lemma_passing(test, 0);
    }
}

// ---------------------------------------------------------------------------
// Totals of records
// ---------------------------------------------------------------------------

/// Whether a record is one of the first lexicon.
pub open spec fn is_first_lexicon(record: SourceRecord) -> bool {
    record.lexicon@ == "CSW24"@
}

pub open spec fn is_second_lexicon(record: SourceRecord) -> bool {
    record.lexicon@ == "NWL23"@
}

proof fn lemma_lexicons_differ()
    ensures
        "CSW24"@ != "NWL23"@,
{
    reveal_strlit("CSW24");
    reveal_strlit("NWL23");
    assert("CSW24"@[0] != "NWL23"@[0]);
}

/// The totals of records count each record once, each under its own lexicon, and add up
/// the scores, words and lines.
pub proof fn totals_add_up_the_records(records: Seq<SourceRecord>)
    ensures
        ({
            let count = records.len() as int;
            let found = stats_of(records);
            &&& found.records == count
            &&& found.csw24_records == passing(
                |i: int| is_first_lexicon(records[i]),
                count,
            ).len()
            &&& found.nwl23_records == passing(
                |i: int| is_second_lexicon(records[i]),
                count,
            ).len()
            &&& found.scoring_records == passing(|i: int| records[i].eight.score > 0, count).len()
            &&& adds_up_to(
                Seq::new(records.len(), |i: int| records[i].four.score as int),
                found.score_4,
            )
            &&& adds_up_to(
                Seq::new(records.len(), |i: int| records[i].eight.score as int),
                found.score_8,
            )
            &&& adds_up_to(
                Seq::new(records.len(), |i: int| records[i].sixteen.score as int),
                found.score_16,
            )
            &&& adds_up_to(
                Seq::new(records.len(), |i: int| records[i].eight.words as int),
                found.words_8,
            )
            &&& adds_up_to(
                Seq::new(records.len(), |i: int| records[i].eight.lines as int),
                found.lines_8,
            )
        }),
{
    lemma_total_counts(records);
    lemma_total_sums(records);
}

proof fn lemma_total_counts(records: Seq<SourceRecord>)
    ensures
        ({
            let count = records.len() as int;
            let found = stats_of(records);
            &&& found.records == count
            &&& found.csw24_records == passing(
                |i: int| is_first_lexicon(records[i]),
                count,
            ).len()
            &&& found.nwl23_records == passing(
                |i: int| is_second_lexicon(records[i]),
                count,
            ).len()
            &&& found.scoring_records == passing(|i: int| records[i].eight.score > 0, count).len()
        }),
    decreases records.len(),
{
    let count = records.len() as int;
    let first = |i: int| is_first_lexicon(records[i]);
    let second = |i: int| is_second_lexicon(records[i]);
    let scoring = |i: int| records[i].eight.score > 0;
    if count == 0 {
        lemma_passing(first, 0);
        lemma_passing(second, 0);
        lemma_passing(scoring, 0);
    } else {
        let fewer = records.drop_last();
        lemma_total_counts(fewer);
        lemma_lexicons_differ();
        lemma_passing(first, count - 1);
        lemma_passing(second, count - 1);
        lemma_passing(scoring, count - 1);
        assert(passing(|i: int| is_first_lexicon(fewer[i]), count - 1) =~= passing(
            first,
            count - 1,
        ));
        assert(passing(|i: int| is_second_lexicon(fewer[i]), count - 1) =~= passing(
            second,
            count - 1,
        ));
        assert(passing(|i: int| fewer[i].eight.score > 0, count - 1) =~= passing(
            scoring,
            count - 1,
        ));
        assert(stats_of(records) == crate::fragments::merged(
            stats_of(fewer),
            stats_of_one(records.last()),
        ));
    }
}

proof fn lemma_total_sums(records: Seq<SourceRecord>)
    ensures
        ({
            let found = stats_of(records);
            &&& adds_up_to(
                Seq::new(records.len(), |i: int| records[i].four.score as int),
                found.score_4,
            )
            &&& adds_up_to(
                Seq::new(records.len(), |i: int| records[i].eight.score as int),
                found.score_8,
            )
            &&& adds_up_to(
                Seq::new(records.len(), |i: int| records[i].sixteen.score as int),
                found.score_16,
            )
            &&& adds_up_to(
                Seq::new(records.len(), |i: int| records[i].eight.words as int),
                found.words_8,
            )
            &&& adds_up_to(
                Seq::new(records.len(), |i: int| records[i].eight.lines as int),
                found.lines_8,
            )
        }),
    decreases records.len(),
{
    let four = Seq::new(records.len(), |i: int| records[i].four.score as int);
    let eight = Seq::new(records.len(), |i: int| records[i].eight.score as int);
    let sixteen = Seq::new(records.len(), |i: int| records[i].sixteen.score as int);
    let words = Seq::new(records.len(), |i: int| records[i].eight.words as int);
    let lines = Seq::new(records.len(), |i: int| records[i].eight.lines as int);
    if records.len() == 0 {
        one_part_more_adds_itself(Seq::empty(), 0, 0);
        assert(four =~= Seq::<int>::empty());
        assert(eight =~= Seq::<int>::empty());
        assert(sixteen =~= Seq::<int>::empty());
        assert(words =~= Seq::<int>::empty());
        assert(lines =~= Seq::<int>::empty());
    } else {
        let fewer = records.drop_last();
        let last = records.last();
        let before = stats_of(fewer);
        lemma_total_sums(fewer);
        one_part_more_adds_itself(four.drop_last(), before.score_4, last.four.score as int);
        one_part_more_adds_itself(eight.drop_last(), before.score_8, last.eight.score as int);
        one_part_more_adds_itself(
            sixteen.drop_last(),
            before.score_16,
            last.sixteen.score as int,
        );
        one_part_more_adds_itself(words.drop_last(), before.words_8, last.eight.words as int);
        one_part_more_adds_itself(lines.drop_last(), before.lines_8, last.eight.lines as int);
        assert(Seq::new(fewer.len(), |i: int| fewer[i].four.score as int) =~= four.drop_last());
        assert(Seq::new(fewer.len(), |i: int| fewer[i].eight.score as int) =~= eight.drop_last());
        assert(Seq::new(fewer.len(), |i: int| fewer[i].sixteen.score as int)
            =~= sixteen.drop_last());
        assert(Seq::new(fewer.len(), |i: int| fewer[i].eight.words as int) =~= words.drop_last());
        assert(Seq::new(fewer.len(), |i: int| fewer[i].eight.lines as int) =~= lines.drop_last());
        assert(four.drop_last().push(last.four.score as int) =~= four);
        assert(eight.drop_last().push(last.eight.score as int) =~= eight);
        assert(sixteen.drop_last().push(last.sixteen.score as int) =~= sixteen);
        assert(words.drop_last().push(last.eight.words as int) =~= words);
        assert(lines.drop_last().push(last.eight.lines as int) =~= lines);
    }
}

// ---------------------------------------------------------------------------
// What is kept of a list
// ---------------------------------------------------------------------------

/// Whether a filter lets a record with this lexicon number through.
pub open spec fn lets_through(filter: LexiconFilter, lexicon: u8) -> bool {
    filter == LexiconFilter::All || (filter == LexiconFilter::Csw24 && lexicon == 0) || (filter
        == LexiconFilter::Nwl23 && lexicon == 1)
}

/// The records that a filter lets through are all those of its lexicon, in order.
pub proof fn admitted_records_are_all_and_in_order(
    bytes: Seq<u8>,
    filter: LexiconFilter,
    count: int,
)
    requires
        0 <= count,
        bytes.len() >= 64 + 272 * count,
    ensures
        are_passing(
            admitted(bytes, filter, count),
            |i: int| lets_through(filter, bytes[64 + 272 * i + 246]),
            count,
        ),
    decreases count,
{
    let test = |i: int| lets_through(filter, bytes[64 + 272 * i + 246]);
    if count > 0 {
        admitted_records_are_all_and_in_order(bytes, filter, count - 1);
        lemma_one_more_passing(admitted(bytes, filter, count - 1), test, count - 1);
        assert(record_at(bytes, count - 1)[246] == bytes[64 + 272 * (count - 1) + 246]);
    }
}

/// The groups of a split are all those whose seed belongs to it, in order.
pub proof fn split_groups_are_all_and_in_order(groups: Seq<Group>, split: int, count: int)
    requires
        0 <= count <= groups.len(),
    ensures
        are_passing(
            split_groups(groups, split, count),
            |i: int| split_of(groups[i].seed) == split,
            count,
        ),
    decreases count,
{
    if count > 0 {
        split_groups_are_all_and_in_order(groups, split, count - 1);
        lemma_one_more_passing(
            split_groups(groups, split, count - 1),
            |i: int| split_of(groups[i].seed) == split,
            count - 1,
        );
    }
}

/// Whether a list holds the items of another at these places.
pub open spec fn lies_at<A>(kept: Seq<A>, items: Seq<A>, places: Seq<int>) -> bool {
    &&& kept.len() == places.len()
    &&& forall|i: int| 0 <= i < kept.len() ==> #[trigger] kept[i] == items[places[i]]
}

/// The groups of a lexicon are all those that have it, in order.
pub proof fn lexicon_groups_are_all_and_in_order(
    measures: Seq<GroupMeasure>,
    first: bool,
    count: int,
) -> (places: Seq<int>)
    requires
        0 <= count <= measures.len(),
    ensures
        are_passing(places, |i: int| (measures[i].lexicon == 0) == first, count),
        lies_at(groups_of(measures, first, count), measures, places),
    decreases count,
{
    let test = |i: int| (measures[i].lexicon == 0) == first;
    if count <= 0 {
        Seq::empty()
    } else {
        let places = lexicon_groups_are_all_and_in_order(measures, first, count - 1);
        lemma_one_more_passing(places, test, count - 1);
        if test(count - 1) {
            places.push(count - 1)
        } else {
            places
        }
    }
}

/// The selections of a lexicon are all those that have it, in order.
pub proof fn lexicon_selections_are_all_and_in_order(
    selections: Seq<Selection>,
    lexicon: u8,
    count: int,
) -> (places: Seq<int>)
    requires
        0 <= count <= selections.len(),
    ensures
        are_passing(places, |i: int| selections[i].lexicon == lexicon, count),
        lies_at(selections_of(selections, lexicon, count), selections, places),
    decreases count,
{
    let test = |i: int| selections[i].lexicon == lexicon;
    if count <= 0 {
        Seq::empty()
    } else {
        let places = lexicon_selections_are_all_and_in_order(selections, lexicon, count - 1);
        lemma_one_more_passing(places, test, count - 1);
        if test(count - 1) {
            places.push(count - 1)
        } else {
            places
        }
    }
}

} // verus!
