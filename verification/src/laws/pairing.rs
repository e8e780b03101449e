//! Laws of what belongs together: pairs of moves, games of two runs, games of a group, and
//! the tasks of an episode.

use vstd::prelude::*;

use crate::compare::{
    group_names, members, partners, place_of_seed, same_conditions, times_in, CompareFault,
    EpisodeRow,
};
use crate::counterfactual::{
    is_sampled, played_piece, played_pieces, task_at, tasks_from, EpisodeRecord, PieceModel,
    TaskFault, TaskModel,
};
use crate::random::{lemma_swap_keeps_the_items, next64, shuffled, swapped};
use crate::selection::{pair_of, pairs_below, pairs_with, RankPair};

verus! {

// ---------------------------------------------------------------------------
// Pairs of moves
// ---------------------------------------------------------------------------

/// Whether a pair tells two moves apart: which they are, which is worth more, and by how
/// much.
pub open spec fn tells_apart(
    pair: RankPair,
    values: Seq<int>,
    offset: int,
    left: int,
    right: int,
) -> bool {
    &&& 0 <= left < right < values.len()
    &&& pair.left == offset + left
    &&& pair.right == offset + right
    &&& values[left] != values[right]
    &&& pair.left_wins ==> values[left] - values[right] == pair.difference
    &&& !pair.left_wins ==> values[right] - values[left] == pair.difference
    &&& pair.difference > 0
}

/// Whether one pair comes before another: by its first move, then by its second.
pub open spec fn comes_first(first: RankPair, second: RankPair) -> bool {
    first.left < second.left || (first.left == second.left && first.right < second.right)
}

/// Whether a pair is one of two moves of a group.
pub open spec fn is_of_group(pair: RankPair, values: Seq<int>, offset: int) -> bool {
    exists|left: int, right: int| #[trigger] tells_apart(pair, values, offset, left, right)
}

/// Whether two moves are told apart by some pair.
pub open spec fn is_told(
    pairs: Seq<RankPair>,
    values: Seq<int>,
    offset: int,
    left: int,
    right: int,
) -> bool {
    exists|i: int| 0 <= i < pairs.len() && tells_apart(
        #[trigger] pairs[i],
        values,
        offset,
        left,
        right,
    )
}

/// Whether worths are small enough for their differences to be told.
pub open spec fn are_modest(values: Seq<int>, offset: int) -> bool {
    &&& 0 <= offset
    &&& offset + values.len() <= u32::MAX
    &&& forall|i: int|
        0 <= i < values.len() ==> -0x2_0000_0000 <= #[trigger] values[i] <= 0x2_0000_0000
}

proof fn lemma_pair(values: Seq<int>, offset: int, left: int, right: int)
    requires
        are_modest(values, offset),
        0 <= left < right < values.len(),
        values[left] != values[right],
    ensures
        tells_apart(pair_of(values, offset, left, right), values, offset, left, right),
{
}

proof fn lemma_pairs_with(values: Seq<int>, offset: int, left: int, limit: int)
    requires
        are_modest(values, offset),
        0 <= left < values.len(),
        limit <= values.len(),
    ensures
        ({
            let pairs = pairs_with(values, offset, left, limit);
            &&& forall|i: int|
                0 <= i < pairs.len() ==> is_of_group(#[trigger] pairs[i], values, offset)
            &&& forall|i: int|
                0 <= i < pairs.len() ==> (#[trigger] pairs[i]).left == offset + left
                    && pairs[i].right < offset + vstd::math::max(limit, 0)
            &&& forall|i: int, j: int|
                0 <= i < j < pairs.len() ==> comes_first(pairs[i], pairs[j])
            &&& forall|right: int|
                left < right < limit && values[left] != #[trigger] values[right] ==> is_told(
                    pairs,
                    values,
                    offset,
                    left,
                    right,
                )
        }),
    decreases limit - left,
{
    if limit > left + 1 {
        let before = pairs_with(values, offset, left, limit - 1);
        let pairs = pairs_with(values, offset, left, limit);
        lemma_pairs_with(values, offset, left, limit - 1);
        if values[left] != values[limit - 1] {
            lemma_pair(values, offset, left, limit - 1);
        }
        assert forall|i: int| 0 <= i < pairs.len() implies is_of_group(
            #[trigger] pairs[i],
            values,
            offset,
        ) && pairs[i].left == offset + left && pairs[i].right < offset + limit by {
            if i < before.len() {
                assert(pairs[i] == before[i]);
            } else {
                assert(tells_apart(pairs[i], values, offset, left, limit - 1));
            }
        }
        assert forall|i: int, j: int| 0 <= i < j < pairs.len() implies comes_first(
            pairs[i],
            pairs[j],
        ) by {
            assert(pairs[i] == before[i]);
            if j < before.len() {
                assert(pairs[j] == before[j]);
            }
        }
        assert forall|right: int|
            left < right < limit && values[left] != #[trigger] values[right] implies is_told(
            pairs,
            values,
            offset,
            left,
            right,
        ) by {
            if right < limit - 1 {
                let i = choose|i: int|
                    0 <= i < before.len() && tells_apart(
                        #[trigger] before[i],
                        values,
                        offset,
                        left,
                        right,
                    );
                assert(pairs[i] == before[i]);
            } else {
                assert(tells_apart(
                    pairs[before.len() as int],
                    values,
                    offset,
                    left,
                    right,
                ));
            }
        }
    }
}

proof fn lemma_pairs_below(values: Seq<int>, offset: int, limit: int)
    requires
        are_modest(values, offset),
        0 <= limit <= values.len(),
    ensures
        ({
            let pairs = pairs_below(values, offset, limit);
            &&& forall|i: int|
                0 <= i < pairs.len() ==> is_of_group(#[trigger] pairs[i], values, offset)
                    && pairs[i].left < offset + limit
            &&& forall|i: int, j: int|
                0 <= i < j < pairs.len() ==> comes_first(pairs[i], pairs[j])
            &&& forall|left: int, right: int|
                0 <= left < limit && left < right < values.len() && #[trigger] values[left]
                    != #[trigger] values[right] ==> is_told(pairs, values, offset, left, right)
        }),
    decreases limit,
{
    if limit > 0 {
        let before = pairs_below(values, offset, limit - 1);
        let new = pairs_with(values, offset, limit - 1, values.len() as int);
        let pairs = pairs_below(values, offset, limit);
        lemma_pairs_below(values, offset, limit - 1);
        lemma_pairs_with(values, offset, limit - 1, values.len() as int);
        assert(pairs == before + new);
        assert forall|i: int| 0 <= i < pairs.len() implies is_of_group(
            #[trigger] pairs[i],
            values,
            offset,
        ) && pairs[i].left < offset + limit by {
            if i < before.len() {
                assert(pairs[i] == before[i]);
            } else {
                assert(pairs[i] == new[i - before.len()]);
            }
        }
        assert forall|i: int, j: int| 0 <= i < j < pairs.len() implies comes_first(
            pairs[i],
            pairs[j],
        ) by {
            if i < before.len() {
                assert(pairs[i] == before[i]);
            } else {
                assert(pairs[i] == new[i - before.len()]);
            }
            if j < before.len() {
                assert(pairs[j] == before[j]);
            } else {
                assert(pairs[j] == new[j - before.len()]);
            }
        }
        assert forall|left: int, right: int|
            0 <= left < limit && left < right < values.len() && #[trigger] values[left]
                != #[trigger] values[right] implies is_told(
            pairs,
            values,
            offset,
            left,
            right,
        ) by {
            if left < limit - 1 {
                let i = choose|i: int|
                    0 <= i < before.len() && tells_apart(
                        #[trigger] before[i],
                        values,
                        offset,
                        left,
                        right,
                    );
                assert(pairs[i] == before[i]);
            } else {
                let i = choose|i: int|
                    0 <= i < new.len() && tells_apart(
                        #[trigger] new[i],
                        values,
                        offset,
                        left,
                        right,
                    );
                assert(pairs[before.len() + i] == new[i]);
            }
        }
    }
}

/// Any two moves of a group that are worth different amounts are told apart by a pair,
/// no others are, and the pairs come in order, so that none comes twice.
pub proof fn differing_moves_are_paired_once(values: Seq<int>, offset: int)
    requires
        are_modest(values, offset),
    ensures
        ({
            let pairs = pairs_below(values, offset, values.len() as int);
            &&& forall|i: int|
                0 <= i < pairs.len() ==> is_of_group(#[trigger] pairs[i], values, offset)
            &&& forall|i: int, j: int|
                0 <= i < j < pairs.len() ==> comes_first(pairs[i], pairs[j])
            &&& forall|left: int, right: int|
                0 <= left < right < values.len() && #[trigger] values[left]
                    != #[trigger] values[right] ==> is_told(pairs, values, offset, left, right)
        }),
{
    lemma_pairs_below(values, offset, values.len() as int);
}

// ---------------------------------------------------------------------------
// Games of two runs
// ---------------------------------------------------------------------------

/// Whether this is the first game with a seed.
pub open spec fn is_first_with_seed(rows: Seq<EpisodeRow>, seed: u32, place: int) -> bool {
    &&& 0 <= place < rows.len()
    &&& rows[place].seed == seed
    &&& forall|i: int| 0 <= i < place ==> (#[trigger] rows[i]).seed != seed
}

proof fn lemma_place_of_seed(rows: Seq<EpisodeRow>, seed: u32, from: int)
    requires
        0 <= from <= rows.len(),
        forall|i: int| 0 <= i < from ==> (#[trigger] rows[i]).seed != seed,
    ensures
        match place_of_seed(rows, seed, from) {
            Some(place) => is_first_with_seed(rows, seed, place),
            None => forall|i: int| 0 <= i < rows.len() ==> (#[trigger] rows[i]).seed != seed,
        },
    decreases rows.len() - from,
{
    if from < rows.len() && rows[from].seed != seed {
        lemma_place_of_seed(rows, seed, from + 1);
    }
}

/// Whether a game of one run has this partner in the other: the first with its seed,
/// played under the same conditions.
pub open spec fn is_partner(game: EpisodeRow, candidate: Seq<EpisodeRow>, place: int) -> bool {
    &&& is_first_with_seed(candidate, game.seed, place)
    &&& game.depth == candidate[place].depth
    &&& game.lexicon@ == candidate[place].lexicon@
}

pub open spec fn has_partner(game: EpisodeRow, candidate: Seq<EpisodeRow>) -> bool {
    exists|place: int| #[trigger] is_partner(game, candidate, place)
}

/// Whether a game without a partner is what stops the pairing.
pub open spec fn is_without_partner(
    game: EpisodeRow,
    candidate: Seq<EpisodeRow>,
    fault: CompareFault,
) -> bool {
    ||| fault == CompareFault::Missing(game.seed) && forall|i: int|
        0 <= i < candidate.len() ==> (#[trigger] candidate[i]).seed != game.seed
    ||| fault == CompareFault::Mismatch(game.seed) && exists|place: int| #[trigger]
        is_first_with_seed(candidate, game.seed, place) && !is_partner(game, candidate, place)
}

/// Whether a game is the first without a partner.
pub open spec fn stops_at(
    baseline: Seq<EpisodeRow>,
    candidate: Seq<EpisodeRow>,
    stop: int,
    fault: CompareFault,
) -> bool {
    &&& is_without_partner(baseline[stop], candidate, fault)
    &&& forall|i: int| 0 <= i < stop ==> has_partner(#[trigger] baseline[i], candidate)
}

/// Games are paired by their seeds: each with the first game of the other run that has
/// its seed and the same conditions. The first game without a partner is the fault.
pub proof fn games_are_paired_by_seed(
    baseline: Seq<EpisodeRow>,
    candidate: Seq<EpisodeRow>,
    count: int,
)
    requires
        0 <= count <= baseline.len(),
    ensures
        match partners(baseline, candidate, count) {
            Ok(found) => found.len() == count && forall|i: int|
                0 <= i < count ==> is_partner(baseline[i], candidate, #[trigger] found[i]),
            Err(fault) => exists|stop: int|
                0 <= stop < count && #[trigger] stops_at(baseline, candidate, stop, fault),
        },
    decreases count,
{
    if count > 0 {
        games_are_paired_by_seed(baseline, candidate, count - 1);
        let game = baseline[count - 1];
        lemma_place_of_seed(candidate, game.seed, 0);
        match partners(baseline, candidate, count - 1) {
            Err(_) => {},
            Ok(found) => {
                match partners(baseline, candidate, count) {
                    Ok(all) => {},
                    Err(fault) => {
                        assert forall|i: int| 0 <= i < count - 1 implies has_partner(
                            #[trigger] baseline[i],
                            candidate,
                        ) by {
                            assert(is_partner(baseline[i], candidate, found[i]));
                        }
                        match place_of_seed(candidate, game.seed, 0) {
                            None => {},
                            Some(place) => {
                                assert(!same_conditions(game, candidate[place]));
                                assert(is_first_with_seed(candidate, game.seed, place)
                                    && !is_partner(game, candidate, place));
                            },
                        }
                        assert(is_without_partner(game, candidate, fault));
                        assert(stops_at(baseline, candidate, count - 1, fault));
                    },
                }
            },
        }
    }
}

// ---------------------------------------------------------------------------
// The pieces and tasks of an episode
// ---------------------------------------------------------------------------

/// Whether a piece is the one in play of a record.
pub open spec fn is_in_play(record: EpisodeRecord, piece: PieceModel) -> bool {
    played_piece(record) == Ok::<PieceModel, crate::source::SourceFault>(piece)
}

/// The pieces from a record on are those in play of the records that follow, all of one
/// game.
pub proof fn the_future_is_what_was_played(episode: Seq<EpisodeRecord>, from: int, count: int)
    requires
        0 <= count,
    ensures
        played_pieces(episode, from, count) matches Ok(pieces) ==> {
            &&& pieces.len() == count
            &&& forall|k: int|
                0 <= k < count ==> is_in_play(episode[from + k], #[trigger] pieces[k])
                    && episode[from + k].seed == episode[from].seed && episode[from + k].lexicon@
                    == episode[from].lexicon@
        },
    decreases count,
{
    if count > 0 {
        the_future_is_what_was_played(episode, from, count - 1);
    }
}

/// Whether a record gives a task: it is sampled, enough records follow, and nothing is
/// wrong with them.
pub open spec fn gives(
    episode: Seq<EpisodeRecord>,
    future: int,
    modulus: int,
    index: int,
    task: TaskModel,
) -> bool {
    &&& 0 <= index
    &&& index + future <= episode.len()
    &&& is_sampled(episode[index], modulus)
    &&& task_at(episode, index, future) == Ok::<TaskModel, TaskFault>(task)
}

/// Whether these records give the tasks that came after the first `old`, in order.
pub open spec fn are_sources(
    episode: Seq<EpisodeRecord>,
    future: int,
    modulus: int,
    tasks: Seq<TaskModel>,
    old: int,
    sources: Seq<int>,
) -> bool {
    &&& tasks.len() == old + sources.len()
    &&& forall|i: int|
        0 <= i < sources.len() ==> gives(
            episode,
            future,
            modulus,
            #[trigger] sources[i],
            tasks[old + i],
        )
    &&& forall|i: int, j: int| 0 <= i < j < sources.len() ==> sources[i] < sources[j]
}

/// Whether every sampled record below a number is a source.
pub open spec fn holds_all_sampled(
    episode: Seq<EpisodeRecord>,
    future: int,
    modulus: int,
    sources: Seq<int>,
    limit: int,
) -> bool {
    forall|index: int|
        0 <= index < limit && index + future <= episode.len() && is_sampled(
            #[trigger] episode[index],
            modulus,
        ) ==> sources.contains(index)
}

proof fn lemma_tasks(
    episode: Seq<EpisodeRecord>,
    future: int,
    modulus: int,
    positions: int,
    tasks: Seq<TaskModel>,
    index: int,
    old: int,
    sources: Seq<int>,
) -> (all: Seq<int>)
    requires
        0 <= index,
        0 <= future,
        are_sources(episode, future, modulus, tasks, old, sources),
        holds_all_sampled(episode, future, modulus, sources, index),
        forall|i: int| 0 <= i < sources.len() ==> #[trigger] sources[i] < index,
        0 <= old,
    ensures
        ({
            let (found, fault) = tasks_from(episode, future, modulus, positions, tasks, index);
            &&& are_sources(episode, future, modulus, found, old, all)
            &&& fault.is_none() && found.len() != positions ==> holds_all_sampled(
                episode,
                future,
                modulus,
                all,
                episode.len() as int,
            )
            &&& all.len() > 0 ==> holds_all_sampled(
                episode,
                future,
                modulus,
                all,
                all.last() + 1,
            )
        }),
    decreases episode.len() - index,
{
    if index >= episode.len() || index + future > episode.len() || tasks.len() == positions {
        if sources.len() > 0 {
            assert(sources[sources.len() - 1] < index);
        }
        sources
    } else if !is_sampled(episode[index], modulus) {
        lemma_tasks(episode, future, modulus, positions, tasks, index + 1, old, sources)
    } else {
        match task_at(episode, index, future) {
            Err(fault) => {
                if sources.len() > 0 {
                    assert(sources[sources.len() - 1] < index);
                }
                sources
            },
            Ok(task) => {
                let more = sources.push(index);
                let longer = tasks.push(task);
                assert forall|i: int| 0 <= i < more.len() implies gives(
                    episode,
                    future,
                    modulus,
                    #[trigger] more[i],
                    longer[old + i],
                ) by {
                    if i < sources.len() {
                        assert(gives(episode, future, modulus, sources[i], tasks[old + i]));
                    }
                }
                assert forall|i: int, j: int| 0 <= i < j < more.len() implies more[i]
                    < more[j] by {
                    assert(more[i] == sources[i]);
                }
                assert forall|at: int|
                    0 <= at < index + 1 && at + future <= episode.len() && is_sampled(
                        #[trigger] episode[at],
                        modulus,
                    ) implies more.contains(at) by {
                    if at < index {
                        let i = choose|i: int| 0 <= i < sources.len() && sources[i] == at;
                        assert(more[i] == at);
                    } else {
                        assert(more[sources.len() as int] == at);
                    }
                }
                lemma_tasks(episode, future, modulus, positions, longer, index + 1, old, more)
            },
        }
    }
}

/// An episode gives one task for each sampled record that enough others follow, in
/// order, until there are as many tasks as were asked for or something is wrong.
pub proof fn sampled_records_give_tasks(
    episode: Seq<EpisodeRecord>,
    future: int,
    modulus: int,
    positions: int,
    tasks: Seq<TaskModel>,
) -> (sources: Seq<int>)
    requires
        0 <= future,
    ensures
        ({
            let (found, fault) = tasks_from(episode, future, modulus, positions, tasks, 0);
            &&& are_sources(episode, future, modulus, found, tasks.len() as int, sources)
            &&& fault.is_none() && found.len() != positions ==> holds_all_sampled(
                episode,
                future,
                modulus,
                sources,
                episode.len() as int,
            )
            &&& sources.len() > 0 ==> holds_all_sampled(
                episode,
                future,
                modulus,
                sources,
                sources.last() + 1,
            )
        }),
{
    lemma_tasks(episode, future, modulus, positions, tasks, 0, tasks.len() as int, Seq::empty())
}

// ---------------------------------------------------------------------------
// Games of a group, and shuffles
// ---------------------------------------------------------------------------

/// A game is counted in a group once for each of its four names that is the group's.
pub proof fn games_are_counted_by_their_names(row: EpisodeRow, name: Seq<char>)
    ensures
        (times_in(row, name, 4) > 0) == group_names(row.depth as int, row.lexicon@).contains(name),
{
    let names = group_names(row.depth as int, row.lexicon@);
    reveal_with_fuel(times_in, 5);
    if names.contains(name) {
        let i = choose|i: int| 0 <= i < names.len() && names[i] == name;
        assert(i == 0 || i == 1 || i == 2 || i == 3);
    } else {
        assert(!(names[0] == name) && !(names[1] == name) && !(names[2] == name) && !(names[3]
            == name));
    }
}

/// A game is among the members of a group exactly if it has the group's name, and the
/// members are in order.
pub proof fn members_have_the_name(rows: Seq<EpisodeRow>, name: Seq<char>, count: int)
    requires
        0 <= count <= rows.len(),
    ensures
        ({
            let found = members(rows, name, count);
            &&& forall|i: int|
                0 <= i < found.len() ==> 0 <= #[trigger] found[i] < count && group_names(
                    rows[found[i]].depth as int,
                    rows[found[i]].lexicon@,
                ).contains(name)
            &&& forall|i: int, j: int| 0 <= i <= j < found.len() ==> found[i] <= found[j]
            &&& forall|game: int|
                0 <= game < count && group_names(
                    (#[trigger] rows[game]).depth as int,
                    rows[game].lexicon@,
                ).contains(name) ==> found.contains(game)
        }),
    decreases count,
{
    if count > 0 {
        members_have_the_name(rows, name, count - 1);
        games_are_counted_by_their_names(rows[count - 1], name);
        let before = members(rows, name, count - 1);
        let found = members(rows, name, count);
        let new = Seq::new(times_in(rows[count - 1], name, 4), |i: int| count - 1);
        assert(found == before + new);
        assert forall|i: int| 0 <= i < found.len() implies 0 <= #[trigger] found[i] < count
            && group_names(rows[found[i]].depth as int, rows[found[i]].lexicon@).contains(name) by {
            if i < before.len() {
                assert(found[i] == before[i]);
            } else {
                assert(found[i] == new[i - before.len()]);
            }
        }
        assert forall|i: int, j: int| 0 <= i <= j < found.len() implies found[i] <= found[j] by {
            if i < before.len() {
                assert(found[i] == before[i]);
            } else {
                assert(found[i] == new[i - before.len()]);
            }
            if j < before.len() {
                assert(found[j] == before[j]);
            } else {
                assert(found[j] == new[j - before.len()]);
            }
        }
        assert forall|game: int|
            0 <= game < count && group_names(
                (#[trigger] rows[game]).depth as int,
                rows[game].lexicon@,
            ).contains(name) implies found.contains(game) by {
            if game < count - 1 {
                let i = choose|i: int| 0 <= i < before.len() && before[i] == game;
                assert(found[i] == game);
            } else {
                assert(new[0] == game);
                assert(found[before.len() as int] == game);
            }
        }
    }
}

/// A shuffle keeps what it shuffles.
pub proof fn a_shuffle_keeps_the_values(values: Seq<u32>, state: u64, index: int)
    requires
        index < values.len(),
    ensures
        shuffled(values, state, index).0.len() == values.len(),
        shuffled(values, state, index).0.to_multiset() == values.to_multiset(),
    decreases index,
{
    if index >= 1 {
        let number = next64(state);
        let place = number as int % (index + 1);
        lemma_swap_keeps_the_items(values, index, place);
        a_shuffle_keeps_the_values(swapped(values, index, place), number, index - 1);
    }
}

} // verus!
