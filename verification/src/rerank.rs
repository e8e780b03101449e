//! Leaves of a search that are valued anew before one of them is chosen.

use vstd::prelude::*;

use crate::binary64::{
    can_be_ordered, can_order, is_finite64, is_representable, magnitude, order_key, ordered_part,
    pattern_value, patterns_are_ordered_as_numbers, patterns_are_ordered_as_units, stands_for,
};
use crate::board::Board;
use crate::float64::{
    a_product_with_zero_is_zero, add_numbers, half_up64, is_zero, multiply, pattern64, pattern_of,
    patterns_round_as_units, product64, representable_units_have_their_pattern, round_half_up,
    sum64, zero_added_changes_nothing,
};
use crate::pieces::Piece;
use crate::ranking::{is_ranked, ranking_is_sorted};
use crate::search::{
    clamp, clamp_to, last_beam, leaves_of, result_at, state_worth, Leaves, LeavesModel,
    ResultModel, SearchResult, SearchState,
};

verus! {

// ---------------------------------------------------------------------------
// The greatest of new values
// ---------------------------------------------------------------------------

/// The first of the greatest keys among the first `count`.
pub open spec fn best_key(bits: Seq<u64>, count: int) -> int
    decreases count,
{
    if count <= 1 {
        0
    } else {
        let best = best_key(bits, count - 1);
        if order_key(bits[count - 1]) > order_key(bits[best]) {
            count - 1
        } else {
            best
        }
    }
}

fn key_of(bits: u64) -> (key: i128)
    ensures
        key == order_key(bits),
{
    if bits < 0x8000_0000_0000_0000 {
        bits as i128
    } else {
        0x8000_0000_0000_0000 - bits as i128
    }
}

/// The position of the greatest number, the first where several are equal.
///
/// The numbers are given by their binary64 bit patterns.
pub fn best_of(bits: &[u64]) -> (best: usize)
    requires
        bits.len() >= 1,
        can_order(bits@),
    ensures
        best < bits.len(),
        best == best_key(bits@, bits.len() as int),
{
    let mut best: usize = 0;
    let mut index: usize = 1;
    while index < bits.len()
        invariant
            1 <= index <= bits.len(),
            best < index,
            best == best_key(bits@, index as int),
        decreases bits.len() - index,
    {
        if key_of(bits[index]) > key_of(bits[best]) {
            best = index;
        }
        index += 1;
    }
    best
}

/// The chosen number beats those before it and is no less than those behind it.
pub proof fn best_key_is_the_first_greatest(bits: Seq<u64>, count: int)
    requires
        1 <= count <= bits.len(),
    ensures
        0 <= best_key(bits, count) < count,
        forall|i: int|
            0 <= i < best_key(bits, count) ==> order_key(#[trigger] bits[i]) < order_key(
                bits[best_key(bits, count)],
            ),
        forall|i: int|
            best_key(bits, count) <= i < count ==> order_key(#[trigger] bits[i]) <= order_key(
                bits[best_key(bits, count)],
            ),
    decreases count,
{
    if count > 1 {
        best_key_is_the_first_greatest(bits, count - 1);
    }
}

/// Where new values fall from front to back, the first leaf stays the choice.
pub proof fn falling_values_keep_the_first_leaf(bits: Seq<u64>)
    requires
        bits.len() >= 1,
        forall|i: int| 0 <= i < bits.len() ==> order_key(#[trigger] bits[i]) <= order_key(bits[0]),
    ensures
        best_key(bits, bits.len() as int) == 0,
{
    best_key_is_the_first_greatest(bits, bits.len() as int);
}

/// The recommendation after the first leaves have been valued anew: that of the
/// leaf with the first greatest new value, which is rounded for its evaluation.
pub open spec fn reranked_result(
    nodes: Seq<u32>,
    leaves: LeavesModel,
    bits: Seq<u64>,
) -> ResultModel {
    let best = best_key(bits, bits.len() as int);
    ResultModel { evaluation: half_up64(bits[best]), ..result_at(nodes, leaves, best) }
}

// ---------------------------------------------------------------------------
// New values
// ---------------------------------------------------------------------------

/// The lines that count as cleared in a leaf, as far as a byte can say.
pub fn leaf_lines(current_lines: u8, projected_lines: u16) -> (lines: u8)
    ensures
        lines == vstd::math::min(current_lines + projected_lines, 255),
{
    if projected_lines >= 255 || current_lines as u16 + projected_lines > 255 {
        255
    } else {
        (current_lines as u16 + projected_lines) as u8
    }
}

/// A number of units with a weighted residual added to it, in binary64.
pub open spec fn weighed(units: int, residual: u64, weight: u64) -> u64 {
    sum64(pattern64(units), product64(residual, weight))
}

/// Adds a weighted residual to a number of units.
pub fn weigh(units: i128, residual: u64, weight: u64) -> (bits: u64)
    requires
        -0x10_0000_0000_0000_0000_0000_0000_0000 < units
            < 0x10_0000_0000_0000_0000_0000_0000_0000,
    ensures
        bits == weighed(units as int, residual, weight),
{
    add_numbers(pattern_of(units), multiply(residual, weight))
}

/// Where a residual or its weight is zero, a value stays what it is.
pub proof fn nothing_is_added(units: int, residual: u64, weight: u64)
    requires
        is_representable(units),
        magnitude(units) <= 0x10_0000_0000_0000_0000_0000_0000,
        is_finite64(residual),
        is_finite64(weight),
        is_zero(residual) || is_zero(weight),
    ensures
        stands_for(weighed(units, residual, weight), units),
{
    representable_units_have_their_pattern(units);
    a_product_with_zero_is_zero(residual, weight);
    zero_added_changes_nothing(pattern64(units), product64(residual, weight));
}

/// The new values of leaves for which residuals were given.
pub open spec fn new_values(leaves: LeavesModel, residuals: Seq<u64>, weight: u64) -> Seq<u64> {
    Seq::new(residuals.len(), |i: int| weighed(leaves.states[i].value, residuals[i], weight))
}

/// Whether residuals are what was given for boards and line counts.
pub open spec fn are_answers<F: Fn(&Board, u8) -> u64>(
    residual: F,
    asked: Seq<(Board, u8)>,
    residuals: Seq<u64>,
) -> bool {
    &&& residuals.len() == asked.len()
    &&& forall|i: int|
        0 <= i < asked.len() ==> call_ensures(
            residual,
            (&(#[trigger] asked[i]).0, asked[i].1),
            residuals[i],
        )
}

/// Whether nothing is ever added to a value: the residuals are finite, and they or
/// their weight are zero.
pub open spec fn adds_nothing<F: Fn(&Board, u8) -> u64>(residual: F, weight: u64) -> bool {
    &&& is_finite64(weight)
    &&& forall|board: &Board, lines: u8, bits: u64| #[trigger]
        call_ensures(residual, (board, lines), bits) ==> is_finite64(bits) && (is_zero(weight)
            || is_zero(bits))
}

/// Whether the values of leaves are binary64 numbers.
pub open spec fn have_binary64_values(leaves: LeavesModel) -> bool {
    forall|i: int|
        0 <= i < leaves.states.len() ==> is_representable((#[trigger] leaves.states[i]).value)
            && magnitude(leaves.states[i].value) <= 0x10_0000_0000_0000_0000_0000_0000
}

/// Whether boards and line counts are those of a search's first leaves.
pub open spec fn is_asked_of_leaves(
    asked: Seq<(Board, u8)>,
    leaves: LeavesModel,
    current_lines: int,
) -> bool {
    &&& asked.len() <= leaves.states.len()
    &&& forall|i: int|
        0 <= i < asked.len() ==> (#[trigger] asked[i]).0@ == leaves.states[i].board && asked[i].1
            == vstd::math::min(current_lines + leaves.states[i].lines, 255)
}

pub(crate) proof fn lemma_one_more_answer<F: Fn(&Board, u8) -> u64>(
    residual: F,
    asked: Seq<(Board, u8)>,
    residuals: Seq<u64>,
    question: (Board, u8),
    answer: u64,
)
    requires
        are_answers(residual, asked, residuals),
        call_ensures(residual, (&question.0, question.1), answer),
    ensures
        are_answers(residual, asked.push(question), residuals.push(answer)),
{
    let longer = asked.push(question);
    assert forall|i: int| 0 <= i < longer.len() implies call_ensures(
        residual,
        (&(#[trigger] longer[i]).0, longer[i].1),
        residuals.push(answer)[i],
    ) by {
        if i < asked.len() {
            assert(longer[i] == asked[i]);
        }
    }
}

/// Whether bit patterns are the values that leaves already have.
pub open spec fn are_own_values(leaves: LeavesModel, bits: Seq<u64>) -> bool {
    forall|i: int|
        0 <= i < bits.len() ==> stands_for(#[trigger] bits[i], leaves.states[i].value)
}

/// Whether a recommendation is that of a search to whose first leaves weighted
/// residuals have been added.
pub open spec fn is_reranked<F: Fn(&Board, u8) -> u64>(
    result: ResultModel,
    nodes: Seq<u32>,
    leaves: LeavesModel,
    current_lines: int,
    count: int,
    weight: u64,
    residual: F,
) -> bool {
    exists|asked: Seq<(Board, u8)>, residuals: Seq<u64>|
        {
            &&& #[trigger] are_answers(residual, asked, residuals)
            &&& asked.len() == count
            &&& is_asked_of_leaves(asked, leaves, current_lines)
            &&& result == reranked_result(
                nodes,
                leaves,
                ordered_part(
                    new_values(leaves, residuals, weight),
                    new_values(leaves, residuals, weight),
                ),
            )
        }
}

/// How many leaves of a search are valued anew.
pub open spec fn rerank_limit(leaves: LeavesModel, candidates: int, width: int) -> int {
    vstd::math::min(leaves.states.len() as int, clamp(candidates, 1, width))
}

impl Leaves {
    /// How many leaves are valued anew where `candidates` are asked for.
    pub fn rerank_count(&self, candidates: usize, width: usize) -> (count: usize)
        requires
            width >= 1,
        ensures
            count == rerank_limit(self@, candidates as int, width as int),
    {
        let wanted: usize = clamp_to(candidates, 1, width);
        if self.states.len() < wanted {
            self.states.len()
        } else {
            wanted
        }
    }

    /// The recommendation after the first leaves have been valued anew, the values
    /// given as binary64 bit patterns.
    pub fn reranked(&self, lexicon: &[u32], bits: &[u64]) -> (result: SearchResult)
        requires
            self.wf(),
            1 <= bits.len() <= self.states.len(),
            can_order(bits@),
        ensures
            result.wf(),
            result@ == reranked_result(lexicon@, self@, bits@),
    {
        let best: usize = best_of(bits);
        let plain: SearchResult = self.result(lexicon, best);
        SearchResult { evaluation: round_half_up(bits[best]), ..plain }
    }

    proof fn lemma_binary64_values(&self)
        requires
            self.wf(),
        ensures
            have_binary64_values(self@),
    {
        assert forall|i: int| 0 <= i < self@.states.len() implies is_representable(
            (#[trigger] self@.states[i]).value,
        ) && magnitude(self@.states[i].value) <= 0x10_0000_0000_0000_0000_0000_0000 by {
            assert(self.states@[i].wf());
            assert(self@.states[i] == self.states@[i]@);
        }
    }

    /// The recommendation after weighted residuals have been added to the first leaves.
    /// A residual is given for a leaf's board and the lines cleared by then, as a
    /// binary64 bit pattern, as is the weight. Where the new values cannot be ordered
    /// the first leaf stays.
    pub fn rerank_with<F: Fn(&Board, u8) -> u64>(
        &self,
        lexicon: &[u32],
        current_lines: u8,
        candidates: usize,
        width: usize,
        weight: u64,
        residual: F,
    ) -> (result: SearchResult)
        requires
            self.wf(),
            self.states.len() >= 1,
            width >= 1,
            forall|board: &Board, lines: u8| call_requires(residual, (board, lines)),
        ensures
            result.wf(),
            is_reranked(
                result@,
                lexicon@,
                self@,
                current_lines as int,
                rerank_limit(self@, candidates as int, width as int),
                weight,
                residual,
            ),
            have_binary64_values(self@),
    {
        proof {
            self.lemma_binary64_values();
        }
        let count: usize = self.rerank_count(candidates, width);
        let mut bits: Vec<u64> = Vec::new();
        let ghost mut asked: Seq<(Board, u8)> = Seq::empty();
        let ghost mut residuals: Seq<u64> = Seq::empty();
        assert(bits@ =~= new_values(self@, residuals, weight));
        while bits.len() < count
            invariant
                self.wf(),
                bits.len() <= count <= self.states.len(),
                asked.len() == bits.len(),
                forall|board: &Board, lines: u8| call_requires(residual, (board, lines)),
                are_answers(residual, asked, residuals),
                is_asked_of_leaves(asked, self@, current_lines as int),
                bits@ == new_values(self@, residuals, weight),
            decreases count - bits.len(),
        {
            let index: usize = bits.len();
            let state: SearchState = self.states[index];
            let lines: u8 = leaf_lines(current_lines, state.lines);
            let answer: u64 = residual(&state.board, lines);
            assert(self.states@[index as int].wf());
            assert(self@.states[index as int] == state@);
            let ghost before = residuals;
            proof {
                lemma_one_more_answer(residual, asked, residuals, (state.board, lines), answer);
                asked = asked.push((state.board, lines));
                residuals = residuals.push(answer);
            }
            bits.push(weigh(state.value, answer, weight));
            assert(bits@ =~= new_values(self@, residuals, weight)) by {
                assert forall|i: int| 0 <= i < bits.len() implies #[trigger] bits@[i] == new_values(
                    self@,
                    residuals,
                    weight,
                )[i] by {
                    if i < index {
                        assert(bits@[i] == new_values(self@, before, weight)[i]);
                    }
                }
            }
        }
        let ghost all = bits@;
        if !can_be_ordered(bits.as_slice()) {
            bits.truncate(1);
        }
        assert(bits@ =~= ordered_part(all, all));
        self.reranked(lexicon, bits.as_slice())
    }
}

// ---------------------------------------------------------------------------
// What valuing leaves anew promises
// ---------------------------------------------------------------------------

/// Leaves that are valued anew with the values they have, in any number, leave the
/// recommendation of a search as it is, in every field.
pub proof fn own_values_keep_the_recommendation(
    nodes: Seq<u32>,
    leaves: LeavesModel,
    bits: Seq<u64>,
)
    requires
        is_ranked(leaves.states, state_worth()),
        have_binary64_values(leaves),
        1 <= bits.len() <= leaves.states.len(),
        are_own_values(leaves, bits),
    ensures
        reranked_result(nodes, leaves, bits) == result_at(nodes, leaves, 0),
{
    assert(stands_for(bits[0], leaves.states[0].value));
    assert forall|i: int| 0 <= i < bits.len() implies order_key(#[trigger] bits[i]) <= order_key(
        bits[0],
    ) by {
        assert(state_worth()(leaves.states[0]) >= state_worth()(leaves.states[i]));
        patterns_are_ordered_as_units(
            bits[i],
            bits[0],
            leaves.states[i].value,
            leaves.states[0].value,
        );
    }
    falling_values_keep_the_first_leaf(bits);
    assert(is_representable(leaves.states[0].value));
    patterns_round_as_units(bits[0], leaves.states[0].value);
}

/// The leaves of a search are in order, the best first.
pub proof fn leaves_are_ranked(
    nodes: Seq<u32>,
    board: Seq<u8>,
    current_lines: int,
    sequence: Seq<Piece>,
    width: int,
)
    ensures
        is_ranked(
            leaves_of(nodes, board, current_lines, sequence, width).states,
            state_worth(),
        ),
{
    let beam = last_beam(nodes, board, current_lines, sequence, width);
    ranking_is_sorted(beam.frontier + beam.finished, state_worth());
}

/// Where only one leaf is valued anew, whatever its new value, only the evaluation
/// of the recommendation may change.
pub proof fn one_candidate_changes_only_the_evaluation(
    nodes: Seq<u32>,
    leaves: LeavesModel,
    candidates: int,
    width: int,
    bits: Seq<u64>,
)
    requires
        candidates <= 1,
        width >= 1,
        leaves.states.len() >= 1,
        bits.len() == rerank_limit(leaves, candidates, width),
    ensures
        reranked_result(nodes, leaves, bits) == (ResultModel {
            evaluation: half_up64(bits[0]),
            ..result_at(nodes, leaves, 0)
        }),
{
}

/// Valuing leaves anew changes neither how far a search has looked nor what it has
/// counted.
pub proof fn new_values_keep_depth_and_nodes(
    nodes: Seq<u32>,
    leaves: LeavesModel,
    bits: Seq<u64>,
)
    ensures
        reranked_result(nodes, leaves, bits).depth == result_at(nodes, leaves, 0).depth,
        reranked_result(nodes, leaves, bits).nodes == result_at(nodes, leaves, 0).nodes,
{
}

/// The chosen leaf has the greatest new value, and the first where several are equal.
pub proof fn the_chosen_leaf_has_the_greatest_value(bits: Seq<u64>, leaf: int)
    requires
        0 <= leaf < bits.len(),
        forall|i: int| 0 <= i < bits.len() ==> is_finite64(#[trigger] bits[i]),
    ensures
        ({
            let best = best_key(bits, bits.len() as int);
            &&& pattern_value(bits[leaf]) <= pattern_value(bits[best])
            &&& leaf < best ==> pattern_value(bits[leaf]) < pattern_value(bits[best])
        }),
{
    let best = best_key(bits, bits.len() as int);
    best_key_is_the_first_greatest(bits, bits.len() as int);
    assert(is_finite64(bits[leaf]) && is_finite64(bits[best]));
    patterns_are_ordered_as_numbers(bits[leaf], bits[best]);
    patterns_are_ordered_as_numbers(bits[best], bits[leaf]);
}

proof fn lemma_nothing_added<F: Fn(&Board, u8) -> u64>(
    residual: F,
    asked: Seq<(Board, u8)>,
    residuals: Seq<u64>,
    leaves: LeavesModel,
    weight: u64,
)
    requires
        adds_nothing(residual, weight),
        are_answers(residual, asked, residuals),
        asked.len() <= leaves.states.len(),
        have_binary64_values(leaves),
    ensures
        are_own_values(leaves, new_values(leaves, residuals, weight)),
        can_order(new_values(leaves, residuals, weight)),
{
    let bits = new_values(leaves, residuals, weight);
    assert forall|i: int| 0 <= i < bits.len() implies stands_for(
        #[trigger] bits[i],
        leaves.states[i].value,
    ) by {
        assert(call_ensures(residual, (&asked[i].0, asked[i].1), residuals[i]));
        assert(is_representable(leaves.states[i].value));
        nothing_is_added(leaves.states[i].value, residuals[i], weight);
    }
}

/// Whatever residuals are added to a search's first leaves, its depth and nodes stay;
/// one candidate changes the evaluation only; and where the weight is zero and the
/// residuals are finite, or all of them are zero, nothing changes at all.
pub proof fn a_reranked_search_agrees_with_the_plain_one<F: Fn(&Board, u8) -> u64>(
    result: ResultModel,
    nodes: Seq<u32>,
    leaves: LeavesModel,
    current_lines: int,
    candidates: int,
    width: int,
    weight: u64,
    residual: F,
)
    requires
        width >= 1,
        leaves.states.len() >= 1,
        is_ranked(leaves.states, state_worth()),
        have_binary64_values(leaves),
        is_reranked(
            result,
            nodes,
            leaves,
            current_lines,
            rerank_limit(leaves, candidates, width),
            weight,
            residual,
        ),
    ensures
        result.depth == result_at(nodes, leaves, 0).depth,
        result.nodes == result_at(nodes, leaves, 0).nodes,
        adds_nothing(residual, weight) ==> result == result_at(nodes, leaves, 0),
        candidates <= 1 ==> result == (ResultModel {
            evaluation: result.evaluation,
            ..result_at(nodes, leaves, 0)
        }),
{
    let count = rerank_limit(leaves, candidates, width);
    let (asked, residuals) = choose|asked: Seq<(Board, u8)>, residuals: Seq<u64>|
        {
            &&& #[trigger] are_answers(residual, asked, residuals)
            &&& asked.len() == count
            &&& is_asked_of_leaves(asked, leaves, current_lines)
            &&& result == reranked_result(
                nodes,
                leaves,
                ordered_part(
                    new_values(leaves, residuals, weight),
                    new_values(leaves, residuals, weight),
                ),
            )
        };
    if adds_nothing(residual, weight) {
        lemma_nothing_added(residual, asked, residuals, leaves, weight);
        own_values_keep_the_recommendation(
            nodes,
            leaves,
            new_values(leaves, residuals, weight),
        );
    }
}

} // verus!
