//! Stable ranking: the highest value first, equal values in the order they came.

use vstd::prelude::*;

verus! {

/// Puts an item behind the last item that is worth at least as much.
pub open spec fn insert_ranked<A>(ranked: Seq<A>, item: A, value: spec_fn(A) -> int) -> Seq<A>
    decreases ranked.len(),
{
    if ranked.len() == 0 || value(ranked.last()) >= value(item) {
        ranked.push(item)
    } else {
        insert_ranked(ranked.drop_last(), item, value).push(ranked.last())
    }
}

/// The items by falling value; equal ones keep their order.
pub open spec fn rank<A>(items: Seq<A>, value: spec_fn(A) -> int) -> Seq<A>
    decreases items.len(),
{
    if items.len() == 0 {
        Seq::empty()
    } else {
        insert_ranked(rank(items.drop_last(), value), items.last(), value)
    }
}

pub open spec fn is_ranked<A>(items: Seq<A>, value: spec_fn(A) -> int) -> bool {
    forall|i: int, j: int| 0 <= i <= j < items.len() ==> value(items[i]) >= value(items[j])
}

/// At most the first `width` items.
pub open spec fn first_items<A>(items: Seq<A>, width: int) -> Seq<A> {
    if items.len() <= width {
        items
    } else {
        items.take(width)
    }
}

/// An insertion cuts a ranking in two and puts the item between the parts.
pub proof fn lemma_insert_at<A>(
    ranked: Seq<A>,
    item: A,
    value: spec_fn(A) -> int,
    position: int,
)
    requires
        0 <= position <= ranked.len(),
        forall|i: int| position <= i < ranked.len() ==> value(#[trigger] ranked[i]) < value(item),
        position > 0 ==> value(ranked[position - 1]) >= value(item),
    ensures
        insert_ranked(ranked, item, value) == ranked.insert(position, item),
    decreases ranked.len(),
{
    if position == ranked.len() {
        assert(ranked.insert(position, item) =~= ranked.push(item));
    } else {
        lemma_insert_at(ranked.drop_last(), item, value, position);
        assert(value(ranked[ranked.len() - 1]) < value(item));
        assert(ranked.insert(position, item) =~= ranked.drop_last().insert(position, item).push(
            ranked.last(),
        ));
    }
}

/// Where an insertion puts its item.
pub open spec fn rank_position<A>(ranked: Seq<A>, item: A, value: spec_fn(A) -> int) -> int
    decreases ranked.len(),
{
    if ranked.len() == 0 || value(ranked.last()) >= value(item) {
        ranked.len() as int
    } else {
        rank_position(ranked.drop_last(), item, value)
    }
}

pub proof fn lemma_rank_position<A>(ranked: Seq<A>, item: A, value: spec_fn(A) -> int)
    ensures
        ({
            let position = rank_position(ranked, item, value);
            &&& 0 <= position <= ranked.len()
            &&& forall|i: int|
                position <= i < ranked.len() ==> value(#[trigger] ranked[i]) < value(item)
            &&& position > 0 ==> value(ranked[position - 1]) >= value(item)
            &&& insert_ranked(ranked, item, value) == ranked.insert(position, item)
        }),
    decreases ranked.len(),
{
    let position = rank_position(ranked, item, value);
    if ranked.len() == 0 || value(ranked.last()) >= value(item) {
    } else {
        lemma_rank_position(ranked.drop_last(), item, value);
        assert forall|i: int| position <= i < ranked.len() implies value(#[trigger] ranked[i])
            < value(item) by {
            if i < ranked.len() - 1 {
                assert(ranked.drop_last()[i] == ranked[i]);
            }
        }
    }
    lemma_insert_at(ranked, item, value, position);
}

proof fn lemma_insert_keeps_ranked<A>(ranked: Seq<A>, item: A, value: spec_fn(A) -> int)
    requires
        is_ranked(ranked, value),
    ensures
        is_ranked(insert_ranked(ranked, item, value), value),
{
    lemma_rank_position(ranked, item, value);
    let position = rank_position(ranked, item, value);
    let after = ranked.insert(position, item);
    assert forall|i: int, j: int| 0 <= i <= j < after.len() implies value(after[i]) >= value(
        after[j],
    ) by {
        if i < position {
            assert(after[i] == ranked[i]);
            assert(value(ranked[i]) >= value(ranked[position - 1]));
        } else if i > position {
            assert(after[i] == ranked[i - 1]);
        }
        if j < position {
            assert(after[j] == ranked[j]);
        } else if j > position {
            assert(after[j] == ranked[j - 1]);
        }
    }
}

/// A ranking falls in value from front to back.
pub proof fn ranking_is_sorted<A>(items: Seq<A>, value: spec_fn(A) -> int)
    ensures
        is_ranked(rank(items, value), value),
    decreases items.len(),
{
    if items.len() > 0 {
        ranking_is_sorted(items.drop_last(), value);
        lemma_insert_keeps_ranked(rank(items.drop_last(), value), items.last(), value);
    }
}

/// A ranking holds the items it was given, each as often.
pub proof fn ranking_keeps_the_items<A>(items: Seq<A>, value: spec_fn(A) -> int)
    ensures
        rank(items, value).len() == items.len(),
        rank(items, value).to_multiset() == items.to_multiset(),
    decreases items.len(),
{
    broadcast use vstd::seq_lib::group_to_multiset_ensures;

    if items.len() > 0 {
        let shorter = rank(items.drop_last(), value);
        ranking_keeps_the_items(items.drop_last(), value);
        lemma_rank_position(shorter, items.last(), value);
        let position = rank_position(shorter, items.last(), value);
        assert(shorter.insert(position, items.last()).to_multiset()
            == shorter.to_multiset().insert(items.last()));
        assert(items.drop_last().push(items.last()) =~= items);
    } else {
        assert(rank(items, value) =~= items);
    }
}

/// The items that are worth exactly `worth`, in order.
pub open spec fn items_worth<A>(items: Seq<A>, value: spec_fn(A) -> int, worth: int) -> Seq<A>
    decreases items.len(),
{
    if items.len() == 0 {
        Seq::empty()
    } else if value(items.last()) == worth {
        items_worth(items.drop_last(), value, worth).push(items.last())
    } else {
        items_worth(items.drop_last(), value, worth)
    }
}

proof fn lemma_insert_is_stable<A>(
    ranked: Seq<A>,
    item: A,
    value: spec_fn(A) -> int,
    worth: int,
)
    requires
        is_ranked(ranked, value),
    ensures
        items_worth(insert_ranked(ranked, item, value), value, worth) == (if value(item) == worth {
            items_worth(ranked, value, worth).push(item)
        } else {
            items_worth(ranked, value, worth)
        }),
    decreases ranked.len(),
{
    if ranked.len() == 0 || value(ranked.last()) >= value(item) {
        assert(ranked.push(item).drop_last() =~= ranked);
    } else {
        let shorter = ranked.drop_last();
        assert(is_ranked(shorter, value)) by {
            assert forall|i: int, j: int| 0 <= i <= j < shorter.len() implies value(shorter[i])
                >= value(shorter[j]) by {
                assert(value(ranked[i]) >= value(ranked[j]));
            }
        }
        lemma_insert_is_stable(shorter, item, value, worth);
        let inserted = insert_ranked(shorter, item, value);
        assert(inserted.push(ranked.last()).drop_last() =~= inserted);
        if value(item) == worth {
            assert(value(ranked.last()) != worth);
        }
    }
}

/// Items of equal value keep the order in which they came.
pub proof fn ranking_is_stable<A>(items: Seq<A>, value: spec_fn(A) -> int, worth: int)
    ensures
        items_worth(rank(items, value), value, worth) == items_worth(items, value, worth),
    decreases items.len(),
{
    if items.len() > 0 {
        ranking_is_stable(items.drop_last(), value, worth);
        ranking_is_sorted(items.drop_last(), value);
        lemma_insert_is_stable(rank(items.drop_last(), value), items.last(), value, worth);
    }
}

/// The place of the first item of greatest value among the first `count`.
pub open spec fn first_best<A>(items: Seq<A>, value: spec_fn(A) -> int, count: int) -> int
    decreases count,
{
    if count <= 1 {
        0
    } else {
        let best = first_best(items, value, count - 1);
        if value(items[count - 1]) > value(items[best]) {
            count - 1
        } else {
            best
        }
    }
}

proof fn lemma_first_best_prefix<A>(
    items: Seq<A>,
    longer: Seq<A>,
    value: spec_fn(A) -> int,
    count: int,
)
    requires
        0 <= count <= items.len() <= longer.len(),
        forall|i: int| 0 <= i < items.len() ==> #[trigger] items[i] == longer[i],
    ensures
        first_best(items, value, count) == first_best(longer, value, count),
        0 <= first_best(items, value, count),
        count >= 1 ==> first_best(items, value, count) < count,
    decreases count,
{
    if count > 1 {
        lemma_first_best_prefix(items, longer, value, count - 1);
    }
}

/// A ranking begins with the first item of greatest value.
pub proof fn ranking_begins_with_the_first_best<A>(items: Seq<A>, value: spec_fn(A) -> int)
    requires
        items.len() >= 1,
    ensures
        0 <= first_best(items, value, items.len() as int) < items.len(),
        rank(items, value).len() == items.len(),
        rank(items, value)[0] == items[first_best(items, value, items.len() as int)],
    decreases items.len(),
{
    ranking_keeps_the_items(items, value);
    let before = items.drop_last();
    let ranked = rank(before, value);
    lemma_rank_position(ranked, items.last(), value);
    if items.len() > 1 {
        ranking_begins_with_the_first_best(before, value);
        ranking_is_sorted(before, value);
        lemma_first_best_prefix(before, items, value, before.len() as int);
        let position = rank_position(ranked, items.last(), value);
        let best = first_best(before, value, before.len() as int);
        assert(items[best] == before[best]);
        if position == 0 {
            assert(value(ranked[0]) < value(items.last()));
        } else {
            assert(value(ranked[0]) >= value(ranked[position - 1]));
        }
    } else {
        assert(ranked =~= Seq::<A>::empty());
    }
}

/// Ranking a ranking changes nothing.
pub proof fn ranking_keeps_a_ranking<A>(items: Seq<A>, value: spec_fn(A) -> int)
    requires
        is_ranked(items, value),
    ensures
        rank(items, value) == items,
    decreases items.len(),
{
    if items.len() > 0 {
        let before = items.drop_last();
        assert(is_ranked(before, value)) by {
            assert forall|i: int, j: int| 0 <= i <= j < before.len() implies value(before[i])
                >= value(before[j]) by {
                assert(value(items[i]) >= value(items[j]));
            }
        }
        ranking_keeps_a_ranking(before, value);
        if before.len() > 0 {
            assert(value(items[items.len() - 2]) >= value(items[items.len() - 1]));
        }
        assert(before.push(items.last()) =~= items);
    } else {
        assert(items =~= Seq::<A>::empty());
    }
}

/// The best `width` items after an insertion are already decided by the best
/// `width` items before it.
pub proof fn lemma_insert_into_first<A>(
    ranked: Seq<A>,
    item: A,
    value: spec_fn(A) -> int,
    width: int,
)
    requires
        is_ranked(ranked, value),
        0 <= width,
    ensures
        first_items(insert_ranked(ranked, item, value), width) == first_items(
            insert_ranked(first_items(ranked, width), item, value),
            width,
        ),
{
    lemma_rank_position(ranked, item, value);
    let position = rank_position(ranked, item, value);
    if ranked.len() > width {
        let short = ranked.take(width);
        if position <= width {
            assert forall|i: int| position <= i < short.len() implies value(#[trigger] short[i])
                < value(item) by {
                assert(short[i] == ranked[i]);
            }
            lemma_insert_at(short, item, value, position);
        } else {
            if width > 0 {
                assert(value(ranked[width - 1]) >= value(ranked[position - 1]));
            }
            lemma_insert_at(short, item, value, width);
        }
        assert(first_items(insert_ranked(ranked, item, value), width) =~= first_items(
            insert_ranked(short, item, value),
            width,
        ));
    }
}

/// A thing that can be ranked by a number.
pub trait Ranked {
    spec fn worth(&self) -> int;

    fn rank_value(&self) -> (value: i128)
        ensures
            value == self.worth(),
    ;
}

/// Where a thing of value `value` belongs in a ranked list.
pub fn find_position<T: Ranked>(ranked: &Vec<T>, value: i128) -> (position: usize)
    ensures
        position <= ranked.len(),
        forall|i: int| position <= i < ranked.len() ==> (#[trigger] ranked@[i]).worth() < value,
        position > 0 ==> ranked@[position - 1].worth() >= value,
{
    let mut position: usize = ranked.len();
    while position > 0
        invariant
            position <= ranked.len(),
            forall|i: int| position <= i < ranked.len() ==> (#[trigger] ranked@[i]).worth() < value,
        decreases position,
    {
        if ranked[position - 1].rank_value() >= value {
            return position;
        }
        position -= 1;
    }
    position
}

} // verus!
