//! The different boards that a search's first piece can lead to.

use vstd::prelude::*;

use crate::board::Board;
use crate::search::{Leaves, LeavesModel};

verus! {

/// The board after the first piece on the way to leaf number `leaf`.
pub open spec fn root_board(leaves: LeavesModel, leaf: int) -> Seq<u8> {
    leaves.roots[leaves.states[leaf].root_index].board
}

/// Whether one of the picked leaves starts with the same board.
pub open spec fn is_picked(leaves: LeavesModel, picks: Seq<int>, leaf: int) -> bool {
    exists|i: int|
        0 <= i < picks.len() && root_board(leaves, #[trigger] picks[i]) == root_board(leaves, leaf)
}

/// Among the first `count` leaves, best first, the first leaf of each different
/// board after the first piece, and at most `limit` of them.
pub open spec fn distinct_roots(leaves: LeavesModel, limit: int, count: int) -> Seq<int>
    decreases count,
{
    if count <= 0 {
        Seq::empty()
    } else {
        let picks = distinct_roots(leaves, limit, count - 1);
        if picks.len() < limit && !is_picked(leaves, picks, count - 1) {
            picks.push(count - 1)
        } else {
            picks
        }
    }
}

proof fn lemma_distinct_roots(leaves: LeavesModel, limit: int, count: int)
    requires
        0 <= limit,
        0 <= count,
    ensures
        ({
            let picks = distinct_roots(leaves, limit, count);
            &&& picks.len() <= limit
            &&& forall|i: int| 0 <= i < picks.len() ==> 0 <= #[trigger] picks[i] < count
            &&& forall|i: int, j: int| 0 <= i < j < picks.len() ==> picks[i] < picks[j]
            &&& forall|i: int, j: int|
                0 <= i < j < picks.len() ==> root_board(leaves, picks[i]) != root_board(
                    leaves,
                    picks[j],
                )
            &&& picks.len() < limit ==> forall|leaf: int|
                0 <= leaf < count ==> #[trigger] is_picked(leaves, picks, leaf)
        }),
    decreases count,
{
    if count > 0 {
        lemma_distinct_roots(leaves, limit, count - 1);
        let before = distinct_roots(leaves, limit, count - 1);
        let after = distinct_roots(leaves, limit, count);
        assert forall|i: int, j: int| 0 <= i < j < after.len() implies root_board(leaves, after[i])
            != root_board(leaves, after[j]) by {
            if j == before.len() {
                assert(after[i] == before[i]);
                assert(!is_picked(leaves, before, count - 1));
            }
        }
        if after.len() < limit {
            assert forall|leaf: int| 0 <= leaf < count implies #[trigger] is_picked(
                leaves,
                after,
                leaf,
            ) by {
                if leaf < count - 1 {
                    assert(is_picked(leaves, before, leaf));
                    let i = choose|i: int|
                        0 <= i < before.len() && root_board(leaves, #[trigger] before[i])
                            == root_board(leaves, leaf);
                    assert(after[i] == before[i]);
                } else if after.len() > before.len() {
                    assert(after[after.len() - 1] == leaf);
                }
            }
        }
    }
}

/// The picks are within the limit, in the leaves' order, and all their boards
/// differ.
pub proof fn picked_roots_are_distinct(leaves: LeavesModel, limit: int)
    requires
        0 <= limit,
    ensures
        ({
            let picks = distinct_roots(leaves, limit, leaves.states.len() as int);
            &&& picks.len() <= limit
            &&& forall|i: int|
                0 <= i < picks.len() ==> 0 <= #[trigger] picks[i] < leaves.states.len()
            &&& forall|i: int, j: int| 0 <= i < j < picks.len() ==> picks[i] < picks[j]
            &&& forall|i: int, j: int|
                0 <= i < j < picks.len() ==> root_board(leaves, picks[i]) != root_board(
                    leaves,
                    picks[j],
                )
        }),
{
    lemma_distinct_roots(leaves, limit, leaves.states.len() as int);
}

/// Below the limit nothing is missing: each leaf's first board is picked.
pub proof fn picked_roots_cover_every_leaf(leaves: LeavesModel, limit: int, leaf: int)
    requires
        0 <= leaf < leaves.states.len(),
        distinct_roots(leaves, limit, leaves.states.len() as int).len() < limit,
    ensures
        is_picked(leaves, distinct_roots(leaves, limit, leaves.states.len() as int), leaf),
{
    lemma_distinct_roots(leaves, limit, leaves.states.len() as int);
}

/// There are no more picks than placements of the first piece.
pub proof fn picked_roots_are_no_more_than_the_placements(leaves: LeavesModel, limit: int)
    requires
        0 <= limit,
        forall|i: int|
            0 <= i < leaves.states.len() ==> 0 <= (#[trigger] leaves.states[i]).root_index
                < leaves.roots.len(),
    ensures
        distinct_roots(leaves, limit, leaves.states.len() as int).len() <= leaves.roots.len(),
{
    let picks = distinct_roots(leaves, limit, leaves.states.len() as int);
    lemma_distinct_roots(leaves, limit, leaves.states.len() as int);
    let roots = Seq::new(picks.len(), |i: int| leaves.states[picks[i]].root_index);
    assert(roots.no_duplicates()) by {
        assert forall|i: int, j: int| 0 <= i < j < roots.len() implies roots[i] != roots[j] by {
            assert(root_board(leaves, picks[i]) != root_board(leaves, picks[j]));
        }
    }
    let count = leaves.roots.len() as int;
    roots.unique_seq_to_set();
    vstd::set_lib::lemma_int_range(0, count);
    assert(roots.to_set().subset_of(vstd::set_lib::set_int_range(0, count))) by {
        assert forall|root: int| roots.to_set().contains(root) implies vstd::set_lib::set_int_range(
            0,
            count,
        ).contains(root) by {
            let i = choose|i: int| 0 <= i < roots.len() && roots[i] == root;
            assert(0 <= picks[i] < leaves.states.len());
        }
    }
    vstd::set_lib::lemma_len_subset(roots.to_set(), vstd::set_lib::set_int_range(0, count));
}

/// Where anything can be picked, the best leaf comes first.
pub proof fn the_best_leaf_is_picked_first(leaves: LeavesModel, limit: int, count: int)
    requires
        1 <= limit,
        1 <= count,
    ensures
        distinct_roots(leaves, limit, count).len() >= 1,
        distinct_roots(leaves, limit, count)[0] == 0,
    decreases count,
{
    if count > 1 {
        the_best_leaf_is_picked_first(leaves, limit, count - 1);
    } else {
        reveal_with_fuel(distinct_roots, 2);
    }
}

/// Whether two boards are the same.
pub fn same_board(left: &Board, right: &Board) -> (same: bool)
    ensures
        same == (left@ == right@),
{
    let mut index: usize = 0;
    while index < 220
        invariant
            index <= 220,
            forall|i: int| 0 <= i < index ==> #[trigger] left@[i] == right@[i],
        decreases 220 - index,
    {
        if left[index] != right[index] {
            return false;
        }
        index += 1;
    }
    assert(left@ =~= right@);
    true
}

pub open spec fn as_ints(indices: Seq<usize>) -> Seq<int> {
    Seq::new(indices.len(), |i: int| indices[i] as int)
}

impl Leaves {
    /// The first leaf of each different board after the first piece.
    pub fn distinct_roots(&self, limit: usize) -> (picks: Vec<usize>)
        requires
            self.wf(),
        ensures
            as_ints(picks@) == distinct_roots(self@, limit as int, self.states.len() as int),
            forall|i: int| 0 <= i < picks.len() ==> #[trigger] picks@[i] < self.states.len(),
    {
        let mut picks: Vec<usize> = Vec::new();
        let mut leaf: usize = 0;
        assert(as_ints(picks@) =~= Seq::<int>::empty());
        while leaf < self.states.len()
            invariant
                self.wf(),
                leaf <= self.states.len(),
                as_ints(picks@) == distinct_roots(self@, limit as int, leaf as int),
                forall|i: int| 0 <= i < picks.len() ==> #[trigger] picks@[i] < self.states.len(),
            decreases self.states.len() - leaf,
        {
            let ghost before = as_ints(picks@);
            if picks.len() < limit && !self.has_root(&picks, leaf) {
                picks.push(leaf);
                assert(as_ints(picks@) =~= before.push(leaf as int));
            }
            leaf += 1;
        }
        picks
    }

    fn has_root(&self, picks: &Vec<usize>, leaf: usize) -> (found: bool)
        requires
            self.wf(),
            leaf < self.states.len(),
            forall|i: int| 0 <= i < picks.len() ==> #[trigger] picks@[i] < self.states.len(),
        ensures
            found == is_picked(self@, as_ints(picks@), leaf as int),
    {
        let ghost ints = as_ints(picks@);
        assert(self.states@[leaf as int].wf());
        assert(self@.states[leaf as int] == self.states@[leaf as int]@);
        let root: usize = self.states[leaf].root_index as usize;
        assert(self@.roots[root as int] == self.roots@[root as int]@);
        let mut index: usize = 0;
        while index < picks.len()
            invariant
                self.wf(),
                leaf < self.states.len(),
                index <= picks.len(),
                ints == as_ints(picks@),
                root < self.roots.len(),
                root_board(self@, leaf as int) == self.roots@[root as int].board@,
                forall|i: int| 0 <= i < picks.len() ==> #[trigger] picks@[i] < self.states.len(),
                forall|i: int|
                    0 <= i < index ==> root_board(self@, #[trigger] ints[i]) != root_board(
                        self@,
                        leaf as int,
                    ),
            decreases picks.len() - index,
        {
            let pick: usize = picks[index];
            assert(picks@[index as int] == pick);
            assert(self.states@[pick as int].wf());
            assert(self@.states[pick as int] == self.states@[pick as int]@);
            let other: usize = self.states[pick].root_index as usize;
            assert(self@.roots[other as int] == self.roots@[other as int]@);
            assert(ints[index as int] == pick);
            if same_board(&self.roots[other].board, &self.roots[root].board) {
                assert(root_board(self@, ints[index as int]) == root_board(self@, leaf as int));
                return true;
            }
            index += 1;
        }
        false
    }
}

} // verus!
