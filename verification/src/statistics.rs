//! Whole-number statistics: sums, counts and the middle of a list.

use vstd::prelude::*;

use crate::ranking::{
    find_position, lemma_insert_at, rank, ranking_is_sorted, ranking_keeps_the_items, Ranked,
};

verus! {

/// A number that ranks the lower the greater it is.
#[derive(Clone, Copy, Debug)]
pub struct Ascending {
    pub value: i64,
}

impl Ranked for Ascending {
    open spec fn worth(&self) -> int {
        -(self.value as int)
    }

    fn rank_value(&self) -> (value: i128) {
        -(self.value as i128)
    }
}

pub open spec fn negated() -> spec_fn(int) -> int {
    |value: int| -value
}

/// One where a condition holds, else zero.
pub open spec fn one_if(holds: bool) -> int {
    if holds {
        1
    } else {
        0
    }
}

/// The numbers from the least to the greatest.
pub open spec fn ascending(values: Seq<int>) -> Seq<int> {
    rank(values, negated())
}

pub open spec fn int_views(values: Seq<i64>) -> Seq<int> {
    Seq::new(values.len(), |i: int| values[i] as int)
}

pub open spec fn ascending_views(values: Seq<Ascending>) -> Seq<int> {
    Seq::new(values.len(), |i: int| values[i].value as int)
}

/// The numbers in the middle of a list, once it is in order: the two of which the
/// median is the mean, or one number twice.
pub open spec fn middle_of(values: Seq<int>) -> (int, int) {
    let ordered = ascending(values);
    (ordered[(values.len() as int - 1) / 2], ordered[values.len() as int / 2])
}

/// In order, no number is greater than a later one.
pub proof fn ascending_is_sorted(values: Seq<int>)
    ensures
        ascending(values).len() == values.len(),
        ascending(values).to_multiset() == values.to_multiset(),
        forall|i: int, j: int|
            0 <= i <= j < values.len() ==> ascending(values)[i] <= ascending(values)[j],
{
    ranking_keeps_the_items(values, negated());
    ranking_is_sorted(values, negated());
    let ordered = ascending(values);
    assert forall|i: int, j: int| 0 <= i <= j < values.len() implies ordered[i] <= ordered[j] by {
        assert(negated()(ordered[i]) >= negated()(ordered[j]));
    }
}

/// Puts numbers in order, the least first.
pub fn in_order(values: &Vec<i64>) -> (sorted: Vec<i64>)
    ensures
        sorted.len() == values.len(),
        int_views(sorted@) == ascending(int_views(values@)),
{
    let ghost models = int_views(values@);
    let mut ordered: Vec<Ascending> = Vec::new();
    let mut index: usize = 0;
    assert(models.take(0) =~= Seq::<int>::empty());
    assert(ascending_views(ordered@) =~= Seq::<int>::empty());
    while index < values.len()
        invariant
            index <= values.len(),
            models == int_views(values@),
            ordered.len() == index,
            ascending_views(ordered@) == ascending(models.take(index as int)),
        decreases values.len() - index,
    {
        let item = Ascending { value: values[index] };
        let ghost before = ascending_views(ordered@);
        assert(models.take(index + 1).drop_last() =~= models.take(index as int));
        assert(models[index as int] == item.value);
        let position: usize = find_position(&ordered, item.rank_value());
        proof {
            assert forall|i: int| position <= i < before.len() implies negated()(
                #[trigger] before[i],
            ) < negated()(item.value as int) by {
                assert(ordered@[i].worth() < item.worth());
            }
            if position > 0 {
                assert(ordered@[position - 1].worth() >= item.worth());
            }
            lemma_insert_at(before, item.value as int, negated(), position as int);
        }
        ordered.insert(position, item);
        assert(ascending_views(ordered@) =~= before.insert(position as int, item.value as int));
        index += 1;
    }
    assert(models.take(values.len() as int) =~= models);
    let mut sorted: Vec<i64> = Vec::new();
    let mut place: usize = 0;
    while place < ordered.len()
        invariant
            place <= ordered.len(),
            sorted.len() == place,
            forall|i: int| 0 <= i < sorted.len() ==> #[trigger] sorted@[i] == ordered@[i].value,
        decreases ordered.len() - place,
    {
        sorted.push(ordered[place].value);
        place += 1;
    }
    assert(int_views(sorted@) =~= ascending_views(ordered@));
    sorted
}

/// The numbers in the middle of a list.
pub fn middle(values: &Vec<i64>) -> (pair: Option<(i64, i64)>)
    ensures
        pair.is_none() == (values.len() == 0),
        pair matches Some(found) ==> (found.0 as int, found.1 as int) == middle_of(
            int_views(values@),
        ),
{
    if values.len() == 0 {
        return None;
    }
    let sorted: Vec<i64> = in_order(values);
    let low: usize = (values.len() - 1) / 2;
    let high: usize = values.len() / 2;
    assert(int_views(sorted@)[low as int] == sorted@[low as int]);
    assert(int_views(sorted@)[high as int] == sorted@[high as int]);
    Some((sorted[low], sorted[high]))
}

/// The sum of the first `count` numbers.
pub open spec fn sum_of(values: Seq<int>, count: int) -> int
    decreases count,
{
    if count <= 0 {
        0
    } else {
        sum_of(values, count - 1) + values[count - 1]
    }
}

/// The sum of numbers that each fit into 32 bits.
pub fn sum(values: &Vec<i64>) -> (total: i64)
    requires
        values.len() <= 0x7fff_ffff,
        forall|i: int|
            0 <= i < values.len() ==> -0x1_0000_0000 <= #[trigger] values@[i] <= 0x1_0000_0000,
    ensures
        total == sum_of(int_views(values@), values.len() as int),
{
    let mut total: i64 = 0;
    let mut index: usize = 0;
    while index < values.len()
        invariant
            index <= values.len() <= 0x7fff_ffff,
            forall|i: int|
                0 <= i < values.len() ==> -0x1_0000_0000 <= #[trigger] values@[i] <= 0x1_0000_0000,
            total == sum_of(int_views(values@), index as int),
            -0x1_0000_0000 * index <= total <= 0x1_0000_0000 * index,
        decreases values.len() - index,
    {
        assert(int_views(values@)[index as int] == values@[index as int]);
        total += values[index];
        index += 1;
    }
    total
}

/// How many of the first `count` numbers are greater than zero.
pub open spec fn positives(values: Seq<int>, count: int) -> int
    decreases count,
{
    if count <= 0 {
        0
    } else {
        positives(values, count - 1) + (if values[count - 1] > 0 {
            1int
        } else {
            0
        })
    }
}

/// How many of the first `count` numbers are zero.
pub open spec fn zeros(values: Seq<int>, count: int) -> int
    decreases count,
{
    if count <= 0 {
        0
    } else {
        zeros(values, count - 1) + (if values[count - 1] == 0 {
            1int
        } else {
            0
        })
    }
}

/// Wins, ties and losses: how many numbers lie above, at and below zero.
#[derive(Clone, Copy, Debug)]
pub struct Tally {
    pub wins: usize,
    pub ties: usize,
    pub losses: usize,
}

pub fn tally(values: &Vec<i64>) -> (tally: Tally)
    ensures
        tally.wins == positives(int_views(values@), values.len() as int),
        tally.ties == zeros(int_views(values@), values.len() as int),
        tally.wins + tally.ties + tally.losses == values.len(),
{
    let mut wins: usize = 0;
    let mut ties: usize = 0;
    let mut losses: usize = 0;
    let mut index: usize = 0;
    while index < values.len()
        invariant
            index <= values.len(),
            wins == positives(int_views(values@), index as int),
            ties == zeros(int_views(values@), index as int),
            wins + ties + losses == index,
        decreases values.len() - index,
    {
        assert(int_views(values@)[index as int] == values@[index as int]);
        if values[index] > 0 {
            wins += 1;
        } else if values[index] == 0 {
            ties += 1;
        } else {
            losses += 1;
        }
        index += 1;
    }
    Tally { wins, ties, losses }
}

} // verus!
