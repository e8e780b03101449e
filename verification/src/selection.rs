//! Comparing tried moves: pairs to learn from, and what a ranking selects.

use vstd::prelude::*;

use crate::statistics::int_views;

verus! {

// ---------------------------------------------------------------------------
// Pairs
// ---------------------------------------------------------------------------

/// Two moves of one group of which one is worth more.
#[derive(Clone, Copy, Debug, PartialEq, Eq, Structural)]
pub struct RankPair {
    pub left: u32,
    pub right: u32,
    pub left_wins: bool,
    pub difference: u64,
}

pub open spec fn pair_of(values: Seq<int>, offset: int, left: int, right: int) -> RankPair {
    let difference = values[left] - values[right];
    RankPair {
        left: (offset + left) as u32,
        right: (offset + right) as u32,
        left_wins: difference > 0,
        difference: (if difference > 0 {
            difference
        } else {
            -difference
        }) as u64,
    }
}

/// The pairs of move `left` with the later moves below `limit`.
pub open spec fn pairs_with(values: Seq<int>, offset: int, left: int, limit: int) -> Seq<RankPair>
    decreases limit - left,
{
    if limit <= left + 1 {
        Seq::empty()
    } else {
        let before = pairs_with(values, offset, left, limit - 1);
        if values[left] == values[limit - 1] {
            before
        } else {
            before.push(pair_of(values, offset, left, limit - 1))
        }
    }
}

/// The pairs of the moves below `limit` with all later moves.
pub open spec fn pairs_below(values: Seq<int>, offset: int, limit: int) -> Seq<RankPair>
    decreases limit,
{
    if limit <= 0 {
        Seq::empty()
    } else {
        pairs_below(values, offset, limit - 1) + pairs_with(
            values,
            offset,
            limit - 1,
            values.len() as int,
        )
    }
}

/// The pairs of a group's moves whose worths differ; the group's first move has
/// number `offset`.
pub fn group_pairs(values: &Vec<i64>, offset: usize) -> (pairs: Vec<RankPair>)
    requires
        offset + values.len() <= u32::MAX,
        forall|i: int|
            0 <= i < values.len() ==> -0x2_0000_0000 <= #[trigger] values@[i] <= 0x2_0000_0000,
    ensures
        pairs@ == pairs_below(int_views(values@), offset as int, values.len() as int),
{
    let ghost models = int_views(values@);
    let mut pairs: Vec<RankPair> = Vec::new();
    let mut left: usize = 0;
    while left < values.len()
        invariant
            left <= values.len(),
            offset + values.len() <= u32::MAX,
            models == int_views(values@),
            forall|i: int|
                0 <= i < values.len() ==> -0x2_0000_0000 <= #[trigger] values@[i] <= 0x2_0000_0000,
            pairs@ == pairs_below(models, offset as int, left as int),
        decreases values.len() - left,
    {
        let ghost done = pairs@;
        let mut right: usize = left + 1;
        assert(pairs@ =~= done + pairs_with(models, offset as int, left as int, left + 1));
        while right < values.len()
            invariant
                left < right <= values.len(),
                offset + values.len() <= u32::MAX,
                models == int_views(values@),
                forall|i: int|
                    0 <= i < values.len() ==> -0x2_0000_0000 <= #[trigger] values@[i]
                        <= 0x2_0000_0000,
                pairs@ == done + pairs_with(models, offset as int, left as int, right as int),
            decreases values.len() - right,
        {
            assert(models[left as int] == values@[left as int]);
            assert(models[right as int] == values@[right as int]);
            let difference: i64 = values[left] - values[right];
            if difference != 0 {
                let distance: u64 = if difference > 0 {
                    difference as u64
                } else {
                    (-difference) as u64
                };
                let ghost before = pairs@;
                pairs.push(
                    RankPair {
                        left: (offset + left) as u32,
                        right: (offset + right) as u32,
                        left_wins: difference > 0,
                        difference: distance,
                    },
                );
                assert(pairs@ =~= done + pairs_with(
                    models,
                    offset as int,
                    left as int,
                    right + 1,
                ));
            }
            right += 1;
        }
        left += 1;
    }
    pairs
}

// ---------------------------------------------------------------------------
// Selecting by a score
// ---------------------------------------------------------------------------

/// A number by which all binary32 bit patterns are ordered: the negative ones
/// backwards below the others.
pub open spec fn total_key(bits: u32) -> int {
    if bits < 0x8000_0000 {
        bits as int
    } else {
        0x7fff_ffff - bits
    }
}

/// The order tells all bit patterns apart.
pub proof fn total_key_is_injective(left: u32, right: u32)
    requires
        total_key(left) == total_key(right),
    ensures
        left == right,
{
}

fn key_of(bits: u32) -> (key: i64)
    ensures
        key == total_key(bits),
{
    if bits < 0x8000_0000 {
        bits as i64
    } else {
        0x7fff_ffff - bits as i64
    }
}

/// The last of the greatest scores among the first `count`.
pub open spec fn last_greatest(scores: Seq<u32>, count: int) -> int
    decreases count,
{
    if count <= 1 {
        0
    } else {
        let best = last_greatest(scores, count - 1);
        if total_key(scores[count - 1]) >= total_key(scores[best]) {
            count - 1
        } else {
            best
        }
    }
}

/// No score is greater than the selected one, and those behind it are less.
pub proof fn last_greatest_is_greatest(scores: Seq<u32>, count: int)
    requires
        1 <= count,
    ensures
        0 <= last_greatest(scores, count) < count,
        forall|i: int|
            0 <= i < count ==> total_key(#[trigger] scores[i]) <= total_key(
                scores[last_greatest(scores, count)],
            ),
        forall|i: int|
            last_greatest(scores, count) < i < count ==> total_key(#[trigger] scores[i])
                < total_key(scores[last_greatest(scores, count)]),
    decreases count,
{
    if count > 1 {
        last_greatest_is_greatest(scores, count - 1);
    }
}

fn select_last(scores: &Vec<u32>, start: usize, end: usize) -> (selected: usize)
    requires
        start < end <= scores.len(),
    ensures
        selected == start + last_greatest(
            scores@.subrange(start as int, end as int),
            end - start,
        ),
        start <= selected < end,
{
    let ghost part = scores@.subrange(start as int, end as int);
    let mut selected: usize = start;
    let mut index: usize = start + 1;
    while index < end
        invariant
            start <= selected < index <= end <= scores.len(),
            part == scores@.subrange(start as int, end as int),
            selected == start + last_greatest(part, index - start),
        decreases end - index,
    {
        assert(part[index - start] == scores@[index as int]);
        assert(part[selected - start] == scores@[selected as int]);
        if key_of(scores[index]) >= key_of(scores[selected]) {
            selected = index;
        }
        index += 1;
    }
    selected
}

/// The greatest of the first `count` numbers.
pub open spec fn greatest(values: Seq<int>, count: int) -> int
    decreases count,
{
    if count <= 1 {
        values[0]
    } else {
        vstd::math::max(greatest(values, count - 1), values[count - 1])
    }
}

/// What was selected in a group, and what that is worth.
#[derive(Clone, Copy, Debug)]
pub struct Selection {
    pub lexicon: u8,
    pub baseline: i64,
    pub heuristic: i64,
    pub model: i64,
    pub oracle: i64,
    pub selected_rank: usize,
    pub selected_topped_out: bool,
}

impl Selection {
    pub open spec fn selects(
        &self,
        lexicon: u8,
        values: Seq<int>,
        topped_out: Seq<bool>,
        scores: Seq<u32>,
        heuristics: Seq<u32>,
    ) -> bool {
        let count = values.len() as int;
        let selected = last_greatest(scores, count);
        &&& self.lexicon == lexicon
        &&& self.baseline == values[0]
        &&& self.heuristic == values[last_greatest(heuristics, count)]
        &&& self.model == values[selected]
        &&& self.oracle == greatest(values, count)
        &&& self.selected_rank == selected
        &&& self.selected_topped_out == topped_out[selected]
    }
}

fn find_greatest(values: &Vec<i64>, start: usize, end: usize) -> (most: i64)
    requires
        start < end <= values.len(),
    ensures
        most == greatest(int_views(values@).subrange(start as int, end as int), end - start),
{
    let ghost part = int_views(values@).subrange(start as int, end as int);
    let mut most: i64 = values[start];
    let mut index: usize = start + 1;
    assert(part[0] == values@[start as int]);
    while index < end
        invariant
            start < index <= end <= values.len(),
            part == int_views(values@).subrange(start as int, end as int),
            most == greatest(part, index - start),
        decreases end - index,
    {
        assert(part[index - start] == values@[index as int]);
        if values[index] > most {
            most = values[index];
        }
        index += 1;
    }
    most
}

/// Selects a move of the group from `start` to `end` by the greatest score, and
/// another by the greatest heuristic; the later one where several are equal.
/// Scores and heuristics are binary32 bit patterns.
pub fn select_move(
    lexicon: u8,
    values: &Vec<i64>,
    topped_out: &Vec<bool>,
    scores: &Vec<u32>,
    heuristics: &Vec<u32>,
    start: usize,
    end: usize,
) -> (selection: Selection)
    requires
        start < end <= values.len(),
        topped_out.len() == values.len(),
        scores.len() == values.len(),
        heuristics.len() == values.len(),
    ensures
        selection.selects(
            lexicon,
            int_views(values@).subrange(start as int, end as int),
            topped_out@.subrange(start as int, end as int),
            scores@.subrange(start as int, end as int),
            heuristics@.subrange(start as int, end as int),
        ),
{
    let selected: usize = select_last(scores, start, end);
    let usual: usize = select_last(heuristics, start, end);
    Selection {
        lexicon,
        baseline: values[start],
        heuristic: values[usual],
        model: values[selected],
        oracle: find_greatest(values, start, end),
        selected_rank: selected - start,
        selected_topped_out: topped_out[selected],
    }
}

proof fn lemma_greatest(values: Seq<int>, count: int, index: int)
    requires
        0 <= index < count,
    ensures
        values[index] <= greatest(values, count),
    decreases count,
{
    if count > 1 && index < count - 1 {
        lemma_greatest(values, count - 1, index);
    }
}

/// No selection is worth more than the best move.
pub proof fn no_selection_beats_the_oracle(
    selection: Selection,
    lexicon: u8,
    values: Seq<int>,
    topped_out: Seq<bool>,
    scores: Seq<u32>,
    heuristics: Seq<u32>,
)
    requires
        values.len() >= 1,
        selection.selects(lexicon, values, topped_out, scores, heuristics),
    ensures
        selection.baseline <= selection.oracle,
        selection.heuristic <= selection.oracle,
        selection.model <= selection.oracle,
{
    let count = values.len() as int;
    last_greatest_is_greatest(scores, count);
    last_greatest_is_greatest(heuristics, count);
    lemma_greatest(values, count, 0);
    lemma_greatest(values, count, last_greatest(scores, count));
    lemma_greatest(values, count, last_greatest(heuristics, count));
}

// ---------------------------------------------------------------------------
// Reports
// ---------------------------------------------------------------------------

/// One quantity of a selection.
#[derive(Clone, Copy, Debug, PartialEq, Eq, Structural)]
pub enum SelectionPart {
    Baseline,
    Heuristic,
    Model,
    Oracle,
    Uplift,
    ChangedAction,
    TopOut,
}

impl Selection {
    pub open spec fn part(&self, part: SelectionPart) -> int {
        match part {
            SelectionPart::Baseline => self.baseline as int,
            SelectionPart::Heuristic => self.heuristic as int,
            SelectionPart::Model => self.model as int,
            SelectionPart::Oracle => self.oracle as int,
            SelectionPart::Uplift => self.model - self.baseline,
            SelectionPart::ChangedAction => if self.selected_rank > 0 {
                1
            } else {
                0
            },
            SelectionPart::TopOut => if self.selected_topped_out {
                1
            } else {
                0
            },
        }
    }
}

pub open spec fn parts(selections: Seq<Selection>, part: SelectionPart) -> Seq<int> {
    Seq::new(selections.len(), |i: int| selections[i].part(part))
}

/// One quantity of every selection, in order.
pub fn list_part(selections: &Vec<Selection>, part: SelectionPart) -> (values: Vec<i64>)
    requires
        forall|i: int|
            0 <= i < selections.len() ==> i64::MIN <= (#[trigger] selections@[i]).model
                - selections@[i].baseline <= i64::MAX,
    ensures
        int_views(values@) == parts(selections@, part),
{
    let mut values: Vec<i64> = Vec::new();
    let mut index: usize = 0;
    while index < selections.len()
        invariant
            index <= selections.len(),
            forall|i: int|
                0 <= i < selections.len() ==> i64::MIN <= (#[trigger] selections@[i]).model
                    - selections@[i].baseline <= i64::MAX,
            values.len() == index,
            forall|i: int|
                0 <= i < values.len() ==> #[trigger] values@[i] == selections@[i].part(part),
        decreases selections.len() - index,
    {
        let selection: &Selection = &selections[index];
        assert(i64::MIN <= selections@[index as int].model - selections@[index as int].baseline
            <= i64::MAX);
        let value: i64 = match part {
            SelectionPart::Baseline => selection.baseline,
            SelectionPart::Heuristic => selection.heuristic,
            SelectionPart::Model => selection.model,
            SelectionPart::Oracle => selection.oracle,
            SelectionPart::Uplift => selection.model - selection.baseline,
            SelectionPart::ChangedAction => if selection.selected_rank > 0 {
                1
            } else {
                0
            },
            SelectionPart::TopOut => if selection.selected_topped_out {
                1
            } else {
                0
            },
        };
        values.push(value);
        index += 1;
    }
    assert(int_views(values@) =~= parts(selections@, part));
    values
}

/// The selections of one lexicon among the first `count`, in order.
pub open spec fn selections_of(selections: Seq<Selection>, lexicon: u8, count: int) -> Seq<Selection>
    decreases count,
{
    if count <= 0 {
        Seq::empty()
    } else if selections[count - 1].lexicon == lexicon {
        selections_of(selections, lexicon, count - 1).push(selections[count - 1])
    } else {
        selections_of(selections, lexicon, count - 1)
    }
}

/// The selections of one lexicon, in order.
pub fn of_lexicon(selections: &Vec<Selection>, lexicon: u8) -> (found: Vec<Selection>)
    ensures
        found@ == selections_of(selections@, lexicon, selections.len() as int),
{
    let mut found: Vec<Selection> = Vec::new();
    let mut index: usize = 0;
    while index < selections.len()
        invariant
            index <= selections.len(),
            found@ == selections_of(selections@, lexicon, index as int),
        decreases selections.len() - index,
    {
        if selections[index].lexicon == lexicon {
            found.push(selections[index]);
        }
        index += 1;
    }
    found
}

} // verus!
