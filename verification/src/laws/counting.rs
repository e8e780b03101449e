//! Counting by sets: how many there are of what a test tells.

use vstd::prelude::*;
use vstd::set_lib::{lemma_int_range, lemma_map_size, set_int_range};

verus! {

/// The numbers below a limit that pass a test.
pub open spec fn passing(test: spec_fn(int) -> bool, limit: int) -> Set<int> {
    Set::new(|i: int| 0 <= i < limit && test(i))
}

pub proof fn lemma_passing(test: spec_fn(int) -> bool, limit: int)
    requires
        0 <= limit,
    ensures
        passing(test, limit).finite(),
        passing(test, 0).len() == 0,
        passing(test, limit + 1).len() == passing(test, limit).len() + (if test(limit) {
            1int
        } else {
            0
        }),
{
    lemma_int_range(0, limit);
    let before = passing(test, limit);
    let after = passing(test, limit + 1);
    vstd::set_lib::lemma_set_subset_finite(set_int_range(0, limit), before);
    assert(before.finite());
    assert(passing(test, 0) =~= Set::<int>::empty());
    if test(limit) {
        assert(after =~= before.insert(limit));
    } else {
        assert(after =~= before);
    }
}

/// The numbers from `low` up to `high`.
pub proof fn lemma_interval(low: int, high: int, limit: int)
    requires
        0 <= low,
        high <= limit,
    ensures
        passing(|i: int| low <= i < high, limit).len() == (if low < high {
            high - low
        } else {
            0
        }),
{
    let found = passing(|i: int| low <= i < high, limit);
    if low < high {
        assert(found =~= set_int_range(low, high));
        lemma_int_range(low, high);
    } else {
        assert(found =~= Set::<int>::empty());
    }
}

/// The pairs of a number below a limit and something that belongs to it.
pub open spec fn sections<B>(inside: spec_fn(int) -> Set<B>, limit: int) -> Set<(int, B)> {
    Set::new(|pair: (int, B)| 0 <= pair.0 < limit && inside(pair.0).contains(pair.1))
}

pub proof fn lemma_sections<B>(inside: spec_fn(int) -> Set<B>, limit: int)
    requires
        0 <= limit,
        forall|i: int| 0 <= i <= limit ==> (#[trigger] inside(i)).finite(),
    ensures
        sections(inside, limit).finite(),
        sections(inside, 0).len() == 0,
        sections(inside, limit + 1).finite(),
        sections(inside, limit + 1).len() == sections(inside, limit).len() + inside(limit).len(),
    decreases limit,
{
    let before = sections(inside, limit);
    let after = sections(inside, limit + 1);
    assert(sections(inside, 0) =~= Set::<(int, B)>::empty());
    if limit > 0 {
        lemma_sections(inside, limit - 1);
    }
    let join = |item: B| (limit, item);
    let new = inside(limit).map(join);
    assert(vstd::relations::injective_on(join, inside(limit)));
    lemma_map_size(inside(limit), new, join);
    assert(before.disjoint(new));
    assert(after =~= before + new) by {
        assert forall|pair: (int, B)| after.contains(pair) implies (before + new).contains(
            pair,
        ) by {
            if pair.0 == limit {
                assert(join(pair.1) == pair);
            }
        }
    }
    vstd::set_lib::lemma_set_disjoint_lens(before, new);
}

/// Whether `sums` are the sums of the first parts: of none, of one, and so on.
pub open spec fn are_running_sums(parts: Seq<int>, sums: Seq<int>) -> bool {
    &&& sums.len() == parts.len() + 1
    &&& sums[0] == 0
    &&& forall|k: int| 0 <= k < parts.len() ==> sums[k + 1] == sums[k] + #[trigger] parts[k]
}

/// Whether the parts add up to a total.
pub open spec fn adds_up_to(parts: Seq<int>, total: int) -> bool {
    exists|sums: Seq<int>| #[trigger]
        are_running_sums(parts, sums) && sums[parts.len() as int] == total
}

pub proof fn lemma_longer_sums(parts: Seq<int>, sums: Seq<int>, more: int)
    requires
        are_running_sums(parts, sums),
    ensures
        are_running_sums(parts.push(more), sums.push(sums[parts.len() as int] + more)),
{
    let longer = parts.push(more);
    let after = sums.push(sums[parts.len() as int] + more);
    assert forall|k: int| 0 <= k < longer.len() implies after[k + 1] == after[k]
        + #[trigger] longer[k] by {
        if k < parts.len() {
            assert(sums[k + 1] == sums[k] + parts[k]);
        }
    }
}

/// Nothing adds up to zero, and one part more makes a total greater by that part.
pub proof fn one_part_more_adds_itself(parts: Seq<int>, total: int, more: int)
    ensures
        adds_up_to(Seq::<int>::empty(), 0),
        adds_up_to(parts, total) ==> adds_up_to(parts.push(more), total + more),
{
    assert(are_running_sums(Seq::<int>::empty(), seq![0int]));
    if adds_up_to(parts, total) {
        let sums = choose|sums: Seq<int>| #[trigger]
            are_running_sums(parts, sums) && sums[parts.len() as int] == total;
        lemma_longer_sums(parts, sums, more);
    }
}

proof fn lemma_same_sums(parts: Seq<int>, left: Seq<int>, right: Seq<int>, k: int)
    requires
        are_running_sums(parts, left),
        are_running_sums(parts, right),
        0 <= k <= parts.len(),
    ensures
        left[k] == right[k],
    decreases k,
{
    if k > 0 {
        lemma_same_sums(parts, left, right, k - 1);
        assert(left[k - 1 + 1] == left[k - 1] + parts[k - 1]);
        assert(right[k - 1 + 1] == right[k - 1] + parts[k - 1]);
    }
}

/// Parts add up to one total only.
pub proof fn parts_have_one_total(parts: Seq<int>, left: int, right: int)
    requires
        adds_up_to(parts, left),
        adds_up_to(parts, right),
    ensures
        left == right,
{
    let first = choose|sums: Seq<int>| #[trigger]
        are_running_sums(parts, sums) && sums[parts.len() as int] == left;
    let second = choose|sums: Seq<int>| #[trigger]
        are_running_sums(parts, sums) && sums[parts.len() as int] == right;
    lemma_same_sums(parts, first, second, parts.len() as int);
}

/// Whether these are the numbers below a limit that pass a test, in order.
pub open spec fn are_passing(found: Seq<int>, test: spec_fn(int) -> bool, limit: int) -> bool {
    &&& forall|i: int| 0 <= i < found.len() ==> 0 <= #[trigger] found[i] < limit && test(found[i])
    &&& forall|i: int, j: int| 0 <= i < j < found.len() ==> found[i] < found[j]
    &&& forall|number: int| 0 <= number < limit && #[trigger] test(number) ==> found.contains(number)
}

pub proof fn lemma_one_more_passing(found: Seq<int>, test: spec_fn(int) -> bool, limit: int)
    requires
        0 <= limit,
        are_passing(found, test, limit),
    ensures
        are_passing(
            if test(limit) {
                found.push(limit)
            } else {
                found
            },
            test,
            limit + 1,
        ),
{
    if test(limit) {
        let more = found.push(limit);
        assert forall|number: int| 0 <= number < limit + 1 && #[trigger] test(
            number,
        ) implies more.contains(number) by {
            if number < limit {
                let i = choose|i: int| 0 <= i < found.len() && found[i] == number;
                assert(more[i] == number);
            } else {
                assert(more[found.len() as int] == number);
            }
        }
    }
}

} // verus!
