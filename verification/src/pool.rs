//! The usual move set against the best moves of a wider search.

use vstd::prelude::*;

use crate::binary64::{
    can_be_ordered, can_order, check_finite, half_up, is_finite64, is_representable, magnitude,
    ordered_part, patterns_are_ordered_as_units, stands_for,
};
use crate::float64::{
    a_product_with_zero_is_zero, half_up64, is_zero, multiply, patterns_round_as_units, product64,
    round_half_up,
};
use crate::native::{
    can_be_reranked, can_rerank, outcome_of, result_to_outcome, PackedBoard, Piece, SearchOutcome,
    Strategy,
};
use crate::rerank::{
    are_answers, best_key, best_of, leaf_lines, lemma_one_more_answer, nothing_is_added, weigh,
    weighed,
};
use crate::roots::{as_ints, distinct_roots, picked_roots_are_no_more_than_the_placements};
use crate::search::{result_at, Leaves, LeavesModel, ResultModel, SearchResult, StateModel};

verus! {

/// What a pool says: the usual search, the wider one, and the wider search's
/// leaves that compete.
pub ghost struct PoolModel {
    pub base: LeavesModel,
    pub wide: LeavesModel,
    pub picks: Seq<int>,
}

impl PoolModel {
    pub open spec fn len(self) -> int {
        self.picks.len() as int + 1
    }

    /// The leaf of an entry; entry zero is the usual move.
    pub open spec fn state(self, entry: int) -> StateModel {
        if entry == 0 {
            self.base.states[0]
        } else {
            self.wide.states[self.picks[entry - 1]]
        }
    }

    /// The board after the first piece of an entry.
    pub open spec fn board(self, entry: int) -> Seq<u8> {
        if entry == 0 {
            self.base.roots[self.state(entry).root_index].board
        } else {
            self.wide.roots[self.state(entry).root_index].board
        }
    }

    /// The lines that the first piece of an entry clears.
    pub open spec fn lines(self, entry: int) -> int {
        if entry == 0 {
            self.base.roots[self.state(entry).root_index].lines
        } else {
            self.wide.roots[self.state(entry).root_index].lines
        }
    }

    /// The recommendation that an entry stands for.
    pub open spec fn result(self, nodes: Seq<u32>, entry: int) -> ResultModel {
        if entry == 0 {
            result_at(nodes, self.base, 0)
        } else {
            result_at(nodes, self.wide, self.picks[entry - 1])
        }
    }

    /// The first of the entries below `count` with the greatest value.
    pub open spec fn best(self, count: int) -> int
        decreases count,
    {
        if count <= 1 {
            0
        } else {
            let best = self.best(count - 1);
            if self.state(count - 1).value > self.state(best).value {
                count - 1
            } else {
                best
            }
        }
    }

    /// The move of the entry with the first greatest new value, which is rounded for
    /// its evaluation.
    pub open spec fn reranked(self, nodes: Seq<u32>, bits: Seq<u64>) -> ResultModel {
        let best = best_key(bits, bits.len() as int);
        ResultModel { evaluation: half_up64(bits[best]), ..self.result(nodes, best) }
    }

    /// The new values of entries for which corrections were given.
    pub open spec fn new_values(self, corrections: Seq<u64>, weight: u64) -> Seq<u64> {
        Seq::new(
            corrections.len(),
            |i: int| weighed(self.state(i).value, product64(corrections[i], HUNDRED64), weight),
        )
    }

    /// Whether boards and line counts are those of a pool's first entries.
    pub open spec fn is_asked(self, asked: Seq<(PackedBoard, u8)>, current_lines: int) -> bool {
        &&& asked.len() <= self.len()
        &&& forall|i: int|
            0 <= i < asked.len() ==> (#[trigger] asked[i]).0@ == self.board(i) && asked[i].1
                == vstd::math::min(current_lines + self.lines(i), 255)
    }

    /// Whether bit patterns are the values of all entries with weighted corrections
    /// added.
    pub open spec fn is_corrected<F: Fn(&PackedBoard, u8) -> u64>(
        self,
        bits: Seq<u64>,
        current_lines: int,
        weight: u64,
        correction: F,
    ) -> bool {
        exists|asked: Seq<(PackedBoard, u8)>, corrections: Seq<u64>|
            {
                &&& #[trigger] are_answers(correction, asked, corrections)
                &&& asked.len() == self.len()
                &&& self.is_asked(asked, current_lines)
                &&& bits == self.new_values(corrections, weight)
            }
    }

    /// Whether the values of the entries are binary64 numbers.
    pub open spec fn has_binary64_values(self) -> bool {
        forall|i: int|
            0 <= i < self.len() ==> is_representable((#[trigger] self.state(i)).value)
                && magnitude(self.state(i).value) <= 0x10_0000_0000_0000_0000_0000_0000
    }
}

/// The pool of a position.
pub open spec fn pool_of(
    strategy: Strategy,
    board: Seq<u8>,
    current_lines: int,
    sequence: Seq<Piece>,
    width: int,
    candidate_width: int,
    candidates: int,
) -> PoolModel {
    let base = strategy.leaves(board, current_lines, sequence, width);
    let wide = strategy.leaves(board, current_lines, sequence, candidate_width);
    PoolModel { base, wide, picks: distinct_roots(wide, candidates, wide.states.len() as int) }
}

/// No entry of a pool is worth more than the chosen one.
pub proof fn the_best_entry_is_worth_most(pool: PoolModel, count: int)
    requires
        1 <= count,
    ensures
        0 <= pool.best(count) < count,
        forall|entry: int|
            0 <= entry < count ==> (#[trigger] pool.state(entry)).value <= pool.state(
                pool.best(count),
            ).value,
        forall|entry: int|
            0 <= entry < pool.best(count) ==> (#[trigger] pool.state(entry)).value < pool.state(
                pool.best(count),
            ).value,
    decreases count,
{
    if count > 1 {
        the_best_entry_is_worth_most(pool, count - 1);
    }
}

/// The pool's move is never worth less than the usual move.
pub proof fn a_pool_never_does_worse(pool: PoolModel)
    ensures
        pool.state(pool.best(pool.len())).value >= pool.state(0).value,
{
    the_best_entry_is_worth_most(pool, pool.len());
}

pub struct RootPool {
    pub base: Leaves,
    pub wide: Leaves,
    pub picks: Vec<usize>,
}

impl RootPool {
    pub open spec fn view(&self) -> PoolModel {
        PoolModel { base: self.base@, wide: self.wide@, picks: as_ints(self.picks@) }
    }

    pub open spec fn wf(&self) -> bool {
        &&& self.base.wf()
        &&& self.wide.wf()
        &&& forall|i: int|
            0 <= i < self.picks.len() ==> #[trigger] self.picks@[i] < self.wide.states.len()
        &&& self.picks.len() <= 160
    }

    /// How many entries compete.
    pub fn len(&self) -> (count: usize)
        requires
            self.wf(),
        ensures
            count == self@.len(),
    {
        self.picks.len() + 1
    }

    /// The value of an entry's leaf, in units of 2^-55.
    pub fn value(&self, entry: usize) -> (value: i128)
        requires
            self.wf(),
            entry < self@.len(),
        ensures
            value == self@.state(entry as int).value,
            is_representable(value as int),
            magnitude(value as int) <= 0x10_0000_0000_0000_0000_0000_0000,
    {
        if entry == 0 {
            assert(self.base@.states[0] == self.base.states@[0]@);
            self.base.states[0].value
        } else {
            let pick: usize = self.picks[entry - 1];
            assert(self.picks@[entry - 1] == pick);
            assert(self@.picks[entry - 1] == pick);
            assert(self.wide@.states[pick as int] == self.wide.states@[pick as int]@);
            self.wide.states[pick].value
        }
    }

    /// The board after the first piece of an entry.
    pub fn board(&self, entry: usize) -> (board: PackedBoard)
        requires
            self.wf(),
            entry < self@.len(),
        ensures
            board@ == self@.board(entry as int),
    {
        if entry == 0 {
            let leaf: usize = 0;
            assert(self.base.states@[0].wf());
            assert(self.base@.states[0] == self.base.states@[0]@);
            let root: usize = self.base.states[leaf].root_index as usize;
            assert(self.base@.roots[root as int] == self.base.roots@[root as int]@);
            self.base.roots[root].board
        } else {
            let pick: usize = self.picks[entry - 1];
            assert(self.picks@[entry - 1] == pick);
            assert(self@.picks[entry - 1] == pick);
            assert(self.wide.states@[pick as int].wf());
            assert(self.wide@.states[pick as int] == self.wide.states@[pick as int]@);
            let root: usize = self.wide.states[pick].root_index as usize;
            assert(self.wide@.roots[root as int] == self.wide.roots@[root as int]@);
            self.wide.roots[root].board
        }
    }

    /// The lines that the first piece of an entry clears.
    pub fn lines(&self, entry: usize) -> (lines: u8)
        requires
            self.wf(),
            entry < self@.len(),
        ensures
            lines == self@.lines(entry as int),
    {
        if entry == 0 {
            let leaf: usize = 0;
            assert(self.base.states@[0].wf());
            assert(self.base@.states[0] == self.base.states@[0]@);
            let root: usize = self.base.states[leaf].root_index as usize;
            assert(self.base@.roots[root as int] == self.base.roots@[root as int]@);
            self.base.roots[root].lines
        } else {
            let pick: usize = self.picks[entry - 1];
            assert(self.picks@[entry - 1] == pick);
            assert(self@.picks[entry - 1] == pick);
            assert(self.wide.states@[pick as int].wf());
            assert(self.wide@.states[pick as int] == self.wide.states@[pick as int]@);
            let root: usize = self.wide.states[pick].root_index as usize;
            assert(self.wide@.roots[root as int] == self.wide.roots@[root as int]@);
            self.wide.roots[root].lines
        }
    }

    fn best(&self) -> (best: usize)
        requires
            self.wf(),
        ensures
            best == self@.best(self@.len()),
            best < self@.len(),
    {
        let mut best: usize = 0;
        let mut entry: usize = 1;
        while entry < self.len()
            invariant
                self.wf(),
                1 <= entry <= self@.len(),
                best < entry,
                best == self@.best(entry as int),
            decreases self@.len() - entry,
        {
            if self.value(entry) > self.value(best) {
                best = entry;
            }
            entry += 1;
        }
        best
    }

    /// The values of all entries with weighted corrections added, as bit patterns.
    fn corrected<F: Fn(&PackedBoard, u8) -> u64>(
        &self,
        current_lines: u8,
        weight: u64,
        correction: F,
    ) -> (bits: Vec<u64>)
        requires
            self.wf(),
            forall|board: &PackedBoard, lines: u8| call_requires(correction, (board, lines)),
        ensures
            bits.len() == self@.len(),
            self@.is_corrected(bits@, current_lines as int, weight, correction),
            self@.has_binary64_values(),
    {
        let mut bits: Vec<u64> = Vec::new();
        let ghost mut asked: Seq<(PackedBoard, u8)> = Seq::empty();
        let ghost mut corrections: Seq<u64> = Seq::empty();
        assert(bits@ =~= self@.new_values(corrections, weight));
        while bits.len() < self.len()
            invariant
                self.wf(),
                bits.len() <= self@.len(),
                asked.len() == bits.len(),
                forall|board: &PackedBoard, lines: u8| call_requires(correction, (board, lines)),
                are_answers(correction, asked, corrections),
                self@.is_asked(asked, current_lines as int),
                bits@ == self@.new_values(corrections, weight),
                forall|i: int|
                    0 <= i < bits.len() ==> is_representable((#[trigger] self@.state(i)).value)
                        && magnitude(self@.state(i).value) <= 0x10_0000_0000_0000_0000_0000_0000,
            decreases self@.len() - bits.len(),
        {
            let entry: usize = bits.len();
            let after: PackedBoard = self.board(entry);
            let lines: u8 = leaf_lines(current_lines, self.lines(entry) as u16);
            let value: i128 = self.value(entry);
            let answer: u64 = correction(&after, lines);
            let ghost before = corrections;
            proof {
                lemma_one_more_answer(correction, asked, corrections, (after, lines), answer);
                asked = asked.push((after, lines));
                corrections = corrections.push(answer);
            }
            bits.push(weigh(value, multiply(answer, HUNDRED64), weight));
            assert(bits@ =~= self@.new_values(corrections, weight)) by {
                assert forall|i: int| 0 <= i < bits.len() implies #[trigger] bits@[i]
                    == self@.new_values(corrections, weight)[i] by {
                    if i < entry {
                        assert(bits@[i] == self@.new_values(before, weight)[i]);
                    }
                }
            }
        }
        bits
    }

    fn result(&self, lexicon: &[u32], entry: usize) -> (result: SearchResult)
        requires
            self.wf(),
            entry < self@.len(),
        ensures
            result.wf(),
            result@ == self@.result(lexicon@, entry as int),
    {
        if entry == 0 {
            self.base.result(lexicon, 0)
        } else {
            let pick: usize = self.picks[entry - 1];
            assert(self.picks@[entry - 1] == pick);
            assert(self@.picks[entry - 1] == pick);
            self.wide.result(lexicon, pick)
        }
    }
}

/// A correction counts a hundredfold, as a bit pattern.
pub const HUNDRED64: u64 = 0x4059_0000_0000_0000;

/// Whether nothing is ever added to a value: the corrections are finite, a hundredfold
/// too, and they or their weight are zero.
pub open spec fn corrects_nothing<F: Fn(&PackedBoard, u8) -> u64>(
    correction: F,
    weight: u64,
) -> bool {
    &&& is_finite64(weight)
    &&& forall|board: &PackedBoard, lines: u8, bits: u64| #[trigger]
        call_ensures(correction, (board, lines), bits) ==> is_finite64(bits) && is_finite64(
            product64(bits, HUNDRED64),
        ) && (is_zero(weight) || is_zero(bits))
}

proof fn lemma_nothing_corrected<F: Fn(&PackedBoard, u8) -> u64>(
    correction: F,
    asked: Seq<(PackedBoard, u8)>,
    corrections: Seq<u64>,
    pool: PoolModel,
    weight: u64,
    count: int,
)
    requires
        corrects_nothing(correction, weight),
        are_answers(correction, asked, corrections),
        1 <= count <= asked.len(),
        asked.len() == pool.len(),
        pool.has_binary64_values(),
    ensures
        ({
            let bits = pool.new_values(corrections, weight);
            let best = best_key(bits, count);
            &&& can_order(bits)
            &&& 0 <= best < count
            &&& best == pool.best(count)
            &&& half_up64(bits[best]) == half_up(pool.state(best).value)
        }),
    decreases count,
{
    let bits = pool.new_values(corrections, weight);
    assert forall|i: int| 0 <= i < bits.len() implies stands_for(
        #[trigger] bits[i],
        pool.state(i).value,
    ) by {
        assert(call_ensures(correction, (&asked[i].0, asked[i].1), corrections[i]));
        assert(is_representable(pool.state(i).value));
        if is_zero(corrections[i]) {
            a_product_with_zero_is_zero(corrections[i], HUNDRED64);
        }
        nothing_is_added(
            pool.state(i).value,
            product64(corrections[i], HUNDRED64),
            weight,
        );
    }
    if count > 1 {
        lemma_nothing_corrected(correction, asked, corrections, pool, weight, count - 1);
        let best = best_key(bits, count - 1);
        assert(stands_for(bits[count - 1], pool.state(count - 1).value));
        assert(stands_for(bits[best], pool.state(best).value));
        patterns_are_ordered_as_units(
            bits[count - 1],
            bits[best],
            pool.state(count - 1).value,
            pool.state(best).value,
        );
    }
    let best = best_key(bits, count);
    assert(stands_for(bits[best], pool.state(best).value));
    assert(is_representable(pool.state(best).value));
    patterns_round_as_units(bits[best], pool.state(best).value);
}

/// Where nothing is corrected, the choice is the pool's own.
proof fn lemma_corrected_choice<F: Fn(&PackedBoard, u8) -> u64>(
    nodes: Seq<u32>,
    pool: PoolModel,
    current_lines: int,
    weight: u64,
    correction: F,
    bits: Seq<u64>,
)
    requires
        pool.has_binary64_values(),
        pool.is_corrected(bits, current_lines, weight, correction),
    ensures
        corrects_nothing(correction, weight) ==> pool.reranked(nodes, ordered_part(bits, bits))
            == pool.result(nodes, pool.best(pool.len())),
{
    let (asked, corrections) = choose|asked: Seq<(PackedBoard, u8)>, corrections: Seq<u64>|
        {
            &&& #[trigger] are_answers(correction, asked, corrections)
            &&& asked.len() == pool.len()
            &&& pool.is_asked(asked, current_lines)
            &&& bits == pool.new_values(corrections, weight)
        };
    if corrects_nothing(correction, weight) {
        lemma_nothing_corrected(correction, asked, corrections, pool, weight, pool.len());
    }
}

/// What a root ranker looks at: the pieces after the first, the lexicon, and the
/// weight of its corrections as a binary64 bit pattern.
pub struct RootRerank<'a> {
    pub visible_after_root: &'a [Piece],
    pub lexicon: u8,
    pub candidate_beam_width: usize,
    pub candidates: usize,
    pub correction_weight: u64,
}

impl Strategy {
    /// The usual move and the best moves of a wider search.
    pub fn root_pool(
        &self,
        board: &PackedBoard,
        current_lines: u8,
        sequence: &[Piece],
        width: usize,
        candidate_width: usize,
        candidates: usize,
    ) -> (pool: Option<RootPool>)
        ensures
            pool.is_some() == self.can_search(board@, sequence@),
            pool matches Some(found) ==> {
                &&& found.wf()
                &&& found@ == pool_of(
                    *self,
                    board@,
                    current_lines as int,
                    sequence@,
                    width as int,
                    candidate_width as int,
                    candidates as int,
                )
            },
    {
        match self.search_leaves(board, current_lines, sequence, width) {
            None => None,
            Some(base) => match self.search_leaves(
                board,
                current_lines,
                sequence,
                candidate_width,
            ) {
                None => None,
                Some(wide) => {
                    let picks: Vec<usize> = wide.distinct_roots(candidates);
                    proof {
                        assert forall|i: int| 0 <= i < wide@.states.len() implies 0 <= (
                        #[trigger] wide@.states[i]).root_index < wide@.roots.len() by {
                            assert(wide.states@[i].wf());
                        }
                        picked_roots_are_no_more_than_the_placements(wide@, candidates as int);
                        assert(as_ints(picks@).len() == picks.len());
                    }
                    Some(RootPool { base, wide, picks })
                },
            },
        }
    }

    /// The best move among the usual one and the best moves of a wider search.
    pub fn find_best_move_with_root_candidates(
        &self,
        board: &PackedBoard,
        current_lines: u8,
        sequence: &[Piece],
        width: usize,
        candidate_width: usize,
        candidates: usize,
    ) -> (outcome: Option<SearchOutcome>)
        ensures
            outcome.is_some() == self.can_search(board@, sequence@),
            outcome matches Some(found) ==> {
                let pool = pool_of(
                    *self,
                    board@,
                    current_lines as int,
                    sequence@,
                    width as int,
                    candidate_width as int,
                    candidates as int,
                );
                &&& found.wf()
                &&& found@ == outcome_of(pool.result(self.nodes(), pool.best(pool.len())))
            },
    {
        match self.root_pool(
            board,
            current_lines,
            sequence,
            width,
            candidate_width,
            candidates,
        ) {
            None => None,
            Some(pool) => {
                let result: SearchResult = pool.result(self.lexicon(), pool.best());
                Some(result_to_outcome(&result))
            },
        }
    }

    /// The best move of a pool whose entries have been valued anew, the values given as
    /// binary64 bit patterns.
    fn choose_from_pool(&self, pool: &RootPool, bits: &[u64]) -> (outcome: SearchOutcome)
        requires
            pool.wf(),
            1 <= bits.len() <= pool@.len(),
            can_order(bits@),
        ensures
            outcome.wf(),
            outcome@ == outcome_of(pool@.reranked(self.nodes(), bits@)),
    {
        let best: usize = best_of(bits);
        let plain: SearchResult = pool.result(self.lexicon(), best);
        let result = SearchResult { evaluation: round_half_up(bits[best]), ..plain };
        result_to_outcome(&result)
    }

    /// The best move of a pool to whose entries weighted corrections are added. A
    /// correction is given for the board after an entry's first piece and the lines
    /// cleared by then, as a binary64 bit pattern. Where the new values cannot be
    /// ordered the usual move stays. Where nothing is added, as with a weight of zero,
    /// the move is that of `find_best_move_with_root_candidates`.
    pub fn find_best_move_with_root_ranker<F: Fn(&PackedBoard, u8) -> u64>(
        &self,
        board: &PackedBoard,
        current_lines: u8,
        sequence: &[Piece],
        width: usize,
        reranker: RootRerank<'_>,
        correction: F,
    ) -> (outcome: Option<SearchOutcome>)
        requires
            forall|board: &PackedBoard, lines: u8| call_requires(correction, (board, lines)),
        ensures
            outcome.is_some() == (self.can_search(board@, sequence@) && can_be_reranked(
                reranker.visible_after_root@,
                reranker.lexicon,
                reranker.correction_weight,
            )),
            outcome matches Some(found) ==> {
                let pool = pool_of(
                    *self,
                    board@,
                    current_lines as int,
                    sequence@,
                    width as int,
                    reranker.candidate_beam_width as int,
                    reranker.candidates as int,
                );
                &&& found.wf()
                &&& corrects_nothing(correction, reranker.correction_weight) ==> found@ == outcome_of(
                    pool.result(self.nodes(), pool.best(pool.len())),
                )
                &&& exists|bits: Seq<u64>|
                    #[trigger] pool.is_corrected(
                        bits,
                        current_lines as int,
                        reranker.correction_weight,
                        correction,
                    ) && found@ == outcome_of(
                        pool.reranked(self.nodes(), ordered_part(bits, bits)),
                    )
            },
    {
        if !can_rerank(reranker.visible_after_root, reranker.lexicon) || !check_finite(
            reranker.correction_weight,
        ) {
            return None;
        }
        match self.root_pool(
            board,
            current_lines,
            sequence,
            width,
            reranker.candidate_beam_width,
            reranker.candidates,
        ) {
            None => None,
            Some(pool) => {
                let mut bits: Vec<u64> = pool.corrected(
                    current_lines,
                    reranker.correction_weight,
                    correction,
                );
                let ghost all = bits@;
                if !can_be_ordered(bits.as_slice()) {
                    bits.truncate(1);
                }
                assert(bits@ =~= ordered_part(all, all));
                proof {
                    lemma_corrected_choice(
                        self.nodes(),
                        pool@,
                        current_lines as int,
                        reranker.correction_weight,
                        correction,
                        all,
                    );
                }
                Some(self.choose_from_pool(&pool, bits.as_slice()))
            },
        }
    }
}

} // verus!
