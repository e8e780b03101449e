//! Two runs over the same games, set against each other.

use vstd::prelude::*;

use crate::statistics::{
    ascending, in_order, int_views, middle, middle_of, positives, sum, sum_of, tally, zeros, Tally,
};
use crate::text::{decimal, push_decimal};

verus! {

/// What one game of a run came to.
pub struct EpisodeRow {
    pub seed: u32,
    pub depth: usize,
    pub lexicon: String,
    pub score: i32,
    pub words: u32,
    pub phase: String,
}

/// Why two runs cannot be compared.
#[derive(Clone, Copy, Debug, PartialEq, Eq, Structural)]
pub enum CompareFault {
    Counts,
    Missing(u32),
    Mismatch(u32),
}

/// Whether an earlier game has the same seed.
pub open spec fn is_repeated(rows: Seq<EpisodeRow>, index: int) -> bool {
    exists|i: int| 0 <= i < index && (#[trigger] rows[i]).seed == rows[index].seed
}

/// The place of the first game with a seed, from `from` on.
pub open spec fn place_of_seed(rows: Seq<EpisodeRow>, seed: u32, from: int) -> Option<int>
    decreases rows.len() - from,
{
    if from >= rows.len() {
        None
    } else if rows[from].seed == seed {
        Some(from)
    } else {
        place_of_seed(rows, seed, from + 1)
    }
}

fn find_seed(rows: &Vec<EpisodeRow>, seed: u32, limit: usize) -> (place: Option<usize>)
    requires
        limit <= rows.len(),
    ensures
        match place {
            Some(found) => {
                &&& found < limit
                &&& rows@[found as int].seed == seed
                &&& place_of_seed(rows@, seed, 0) == Some(found as int)
            },
            None => {
                &&& forall|i: int| 0 <= i < limit ==> (#[trigger] rows@[i]).seed != seed
                &&& place_of_seed(rows@, seed, 0) == place_of_seed(rows@, seed, limit as int)
            },
        },
{
    let mut index: usize = 0;
    while index < limit
        invariant
            index <= limit <= rows.len(),
            forall|i: int| 0 <= i < index ==> (#[trigger] rows@[i]).seed != seed,
            place_of_seed(rows@, seed, 0) == place_of_seed(rows@, seed, index as int),
        decreases limit - index,
    {
        if rows[index].seed == seed {
            return Some(index);
        }
        index += 1;
    }
    None
}

/// The first seed that a run plays twice, if there is one.
pub fn repeated_seed(rows: &Vec<EpisodeRow>) -> (seed: Option<u32>)
    ensures
        match seed {
            None => forall|i: int| 0 <= i < rows.len() ==> !is_repeated(rows@, i),
            Some(found) => exists|i: int|
                {
                    &&& 0 <= i < rows.len()
                    &&& #[trigger] is_repeated(rows@, i)
                    &&& rows@[i].seed == found
                    &&& forall|j: int| 0 <= j < i ==> !is_repeated(rows@, j)
                },
        },
{
    let mut index: usize = 0;
    while index < rows.len()
        invariant
            index <= rows.len(),
            forall|i: int| 0 <= i < index ==> !is_repeated(rows@, i),
        decreases rows.len() - index,
    {
        let seed: u32 = rows[index].seed;
        if find_seed(rows, seed, index).is_some() {
            assert(is_repeated(rows@, index as int));
            return Some(seed);
        }
        index += 1;
    }
    None
}

/// Whether two games were played under the same conditions.
pub open spec fn same_conditions(left: EpisodeRow, right: EpisodeRow) -> bool {
    left.depth == right.depth && left.lexicon@ == right.lexicon@
}

/// The partners of the first `count` games, or why one has none.
pub open spec fn partners(baseline: Seq<EpisodeRow>, candidate: Seq<EpisodeRow>, count: int) -> Result<
    Seq<int>,
    CompareFault,
>
    decreases count,
{
    if count <= 0 {
        Ok(Seq::empty())
    } else {
        match partners(baseline, candidate, count - 1) {
            Err(fault) => Err(fault),
            Ok(found) => {
                let game = baseline[count - 1];
                match place_of_seed(candidate, game.seed, 0) {
                    None => Err(CompareFault::Missing(game.seed)),
                    Some(place) => if same_conditions(game, candidate[place]) {
                        Ok(found.push(place))
                    } else {
                        Err(CompareFault::Mismatch(game.seed))
                    },
                }
            },
        }
    }
}

proof fn lemma_partner_fault_stays(
    baseline: Seq<EpisodeRow>,
    candidate: Seq<EpisodeRow>,
    count: int,
    last: int,
)
    requires
        0 <= count <= last,
        partners(baseline, candidate, count).is_err(),
    ensures
        partners(baseline, candidate, last) == partners(baseline, candidate, count),
    decreases last - count,
{
    if count < last {
        lemma_partner_fault_stays(baseline, candidate, count, last - 1);
    }
}

pub open spec fn places(indices: Seq<usize>) -> Seq<int> {
    Seq::new(indices.len(), |i: int| indices[i] as int)
}

/// Finds for each game of one run the game of the other with the same seed.
pub fn pair_up(baseline: &Vec<EpisodeRow>, candidate: &Vec<EpisodeRow>) -> (pairs: Result<
    Vec<usize>,
    CompareFault,
>)
    ensures
        match pairs {
            Ok(found) => {
                &&& baseline.len() == candidate.len()
                &&& partners(baseline@, candidate@, baseline.len() as int) == Ok::<
                    Seq<int>,
                    CompareFault,
                >(places(found@))
                &&& found.len() == baseline.len()
                &&& forall|i: int| 0 <= i < found.len() ==> #[trigger] found@[i] < candidate.len()
            },
            Err(CompareFault::Counts) => baseline.len() != candidate.len(),
            Err(fault) => {
                &&& baseline.len() == candidate.len()
                &&& partners(baseline@, candidate@, baseline.len() as int) == Err::<
                    Seq<int>,
                    CompareFault,
                >(fault)
            },
        },
{
    if baseline.len() != candidate.len() {
        return Err(CompareFault::Counts);
    }
    let mut pairs: Vec<usize> = Vec::new();
    let mut index: usize = 0;
    assert(places(pairs@) =~= Seq::<int>::empty());
    while index < baseline.len()
        invariant
            index <= baseline.len(),
            baseline.len() == candidate.len(),
            pairs.len() == index,
            partners(baseline@, candidate@, index as int) == Ok::<Seq<int>, CompareFault>(
                places(pairs@),
            ),
            forall|i: int| 0 <= i < pairs.len() ==> #[trigger] pairs@[i] < candidate.len(),
        decreases baseline.len() - index,
    {
        let game: &EpisodeRow = &baseline[index];
        let seed: u32 = game.seed;
        match find_seed(candidate, seed, candidate.len()) {
            None => {
                proof {
                    lemma_partner_fault_stays(
                        baseline@,
                        candidate@,
                        index + 1,
                        baseline.len() as int,
                    );
                }
                return Err(CompareFault::Missing(seed));
            },
            Some(place) => {
                let other: &EpisodeRow = &candidate[place];
                if game.depth != other.depth || game.lexicon != other.lexicon {
                    proof {
                        lemma_partner_fault_stays(
                            baseline@,
                            candidate@,
                            index + 1,
                            baseline.len() as int,
                        );
                    }
                    return Err(CompareFault::Mismatch(seed));
                }
                let ghost before = places(pairs@);
                pairs.push(place);
                assert(places(pairs@) =~= before.push(place as int));
            },
        }
        index += 1;
    }
    Ok(pairs)
}

// ---------------------------------------------------------------------------
// Groups
// ---------------------------------------------------------------------------

/// The names of the groups that a game is counted in.
pub open spec fn group_names(depth: int, lexicon: Seq<char>) -> Seq<Seq<char>> {
    seq![
        "all"@,
        "depth"@ + decimal(depth as nat),
        lexicon,
        "depth"@ + decimal(depth as nat) + "-"@ + lexicon,
    ]
}

/// The names of the groups that a game is counted in.
pub fn group_keys(row: &EpisodeRow) -> (names: Vec<String>)
    ensures
        names.len() == 4,
        forall|i: int|
            0 <= i < 4 ==> (#[trigger] names@[i])@ == group_names(row.depth as int, row.lexicon@)[i],
{
    let mut depth: String = String::new();
    depth.append("depth");
    push_decimal(&mut depth, row.depth as u64);
    assert(depth@ =~= "depth"@ + decimal(row.depth as nat));
    let mut both: String = depth.clone();
    both.append("-");
    both.append(row.lexicon.as_str());
    let mut names: Vec<String> = Vec::new();
    names.push("all".to_owned());
    names.push(depth);
    names.push(row.lexicon.clone());
    names.push(both);
    names
}

/// How often a game is counted in a group: once for each of its names that is the
/// group's.
pub open spec fn times_in(row: EpisodeRow, name: Seq<char>, names: int) -> nat
    decreases names,
{
    if names <= 0 {
        0
    } else if group_names(row.depth as int, row.lexicon@)[names - 1] == name {
        times_in(row, name, names - 1) + 1
    } else {
        times_in(row, name, names - 1)
    }
}

/// The games of a group among the first `count`, in order.
pub open spec fn members(rows: Seq<EpisodeRow>, name: Seq<char>, count: int) -> Seq<int>
    decreases count,
{
    if count <= 0 {
        Seq::empty()
    } else {
        members(rows, name, count - 1) + Seq::new(
            times_in(rows[count - 1], name, 4),
            |i: int| count - 1,
        )
    }
}

/// Finds the games of a group.
pub fn group_members(rows: &Vec<EpisodeRow>, name: &String) -> (found: Vec<usize>)
    ensures
        places(found@) == members(rows@, name@, rows.len() as int),
        forall|i: int| 0 <= i < found.len() ==> #[trigger] found@[i] < rows.len(),
{
    let mut found: Vec<usize> = Vec::new();
    let mut index: usize = 0;
    assert(places(found@) =~= Seq::<int>::empty());
    while index < rows.len()
        invariant
            index <= rows.len(),
            places(found@) == members(rows@, name@, index as int),
            forall|i: int| 0 <= i < found.len() ==> #[trigger] found@[i] < index,
        decreases rows.len() - index,
    {
        let keys: Vec<String> = group_keys(&rows[index]);
        let ghost before = places(found@);
        let mut key: usize = 0;
        assert(before + Seq::new(0, |i: int| index as int) =~= before);
        while key < 4
            invariant
                key <= 4,
                index < rows.len(),
                keys.len() == 4,
                forall|i: int|
                    0 <= i < 4 ==> (#[trigger] keys@[i])@ == group_names(
                        rows@[index as int].depth as int,
                        rows@[index as int].lexicon@,
                    )[i],
                places(found@) == before + Seq::new(
                    times_in(rows@[index as int], name@, key as int),
                    |i: int| index as int,
                ),
                forall|i: int| 0 <= i < found.len() ==> #[trigger] found@[i] <= index,
            decreases 4 - key,
        {
            let ghost so_far = places(found@);
            let ghost times = times_in(rows@[index as int], name@, key as int);
            if keys[key] == *name {
                found.push(index);
                assert(places(found@) =~= so_far.push(index as int));
                assert(so_far.push(index as int) =~= before + Seq::new(
                    times + 1,
                    |i: int| index as int,
                ));
            }
            key += 1;
        }
        assert(members(rows@, name@, index + 1) =~= places(found@));
        index += 1;
    }
    found
}

/// Whether a group has a name that a game is counted under.
pub open spec fn is_group(rows: Seq<EpisodeRow>, name: Seq<char>) -> bool {
    exists|i: int| 0 <= i < rows.len() && #[trigger] times_in(rows[i], name, 4) > 0
}

fn holds_name(names: &Vec<String>, name: &String) -> (held: bool)
    ensures
        held == exists|i: int| 0 <= i < names.len() && (#[trigger] names@[i])@ == name@,
{
    let mut index: usize = 0;
    while index < names.len()
        invariant
            index <= names.len(),
            forall|i: int| 0 <= i < index ==> (#[trigger] names@[i])@ != name@,
        decreases names.len() - index,
    {
        if names[index] == *name {
            assert(names@[index as int]@ == name@);
            return true;
        }
        index += 1;
    }
    false
}

proof fn lemma_times_in(row: EpisodeRow, name: Seq<char>, names: int)
    requires
        0 <= names <= 4,
    ensures
        times_in(row, name, names) > 0 <==> exists|i: int|
            0 <= i < names && #[trigger] group_names(row.depth as int, row.lexicon@)[i] == name,
    decreases names,
{
    if names > 0 {
        lemma_times_in(row, name, names - 1);
        let all = group_names(row.depth as int, row.lexicon@);
        if all[names - 1] == name {
            assert(0 <= names - 1 < names && all[names - 1] == name);
        }
    }
}

/// The names of all groups, each once.
pub fn group_list(rows: &Vec<EpisodeRow>) -> (names: Vec<String>)
    ensures
        forall|i: int, j: int| 0 <= i < j < names.len() ==> names@[i]@ != names@[j]@,
        forall|i: int| 0 <= i < names.len() ==> is_group(rows@, (#[trigger] names@[i])@),
        forall|name: Seq<char>| #[trigger] is_group(rows@, name) ==> is_among(names@, name),
{
    let mut names: Vec<String> = Vec::new();
    let mut index: usize = 0;
    while index < rows.len()
        invariant
            index <= rows.len(),
            forall|i: int, j: int| 0 <= i < j < names.len() ==> names@[i]@ != names@[j]@,
            forall|i: int| 0 <= i < names.len() ==> is_group(rows@, (#[trigger] names@[i])@),
            forall|row: int, key: int|
                0 <= row < index && 0 <= key < 4 ==> is_among(
                    names@,
                    #[trigger] group_names(rows@[row].depth as int, rows@[row].lexicon@)[key],
                ),
        decreases rows.len() - index,
    {
        let keys: Vec<String> = group_keys(&rows[index]);
        let mut key: usize = 0;
        while key < 4
            invariant
                key <= 4,
                index < rows.len(),
                keys.len() == 4,
                forall|i: int|
                    0 <= i < 4 ==> (#[trigger] keys@[i])@ == group_names(
                        rows@[index as int].depth as int,
                        rows@[index as int].lexicon@,
                    )[i],
                forall|i: int, j: int| 0 <= i < j < names.len() ==> names@[i]@ != names@[j]@,
                forall|i: int| 0 <= i < names.len() ==> is_group(rows@, (#[trigger] names@[i])@),
                forall|row: int, other: int|
                    0 <= row < index && 0 <= other < 4 ==> is_among(
                        names@,
                        #[trigger] group_names(rows@[row].depth as int, rows@[row].lexicon@)[other],
                    ),
                forall|i: int| 0 <= i < key ==> is_among(names@, (#[trigger] keys@[i])@),
            decreases 4 - key,
        {
            let ghost before = names@;
            let ghost name = keys@[key as int]@;
            if !holds_name(&names, &keys[key]) {
                names.push(keys[key].clone());
                proof {
                    lemma_times_in(rows@[index as int], name, 4);
                    assert(times_in(rows@[index as int], name, 4) > 0);
                    assert(names@[before.len() as int]@ == name);
                    assert forall|other: Seq<char>| is_among(before, other) implies #[trigger] is_among(
                        names@,
                        other,
                    ) by {
                        let place = choose|i: int|
                            0 <= i < before.len() && (#[trigger] before[i])@ == other;
                        assert(names@[place]@ == other);
                    }
                }
            }
            assert(is_among(names@, name));
            key += 1;
        }
        proof {
            assert forall|row: int, other: int| 0 <= row < index + 1 && 0 <= other < 4 implies is_among(
                names@,
                #[trigger] group_names(rows@[row].depth as int, rows@[row].lexicon@)[other],
            ) by {
                if row == index {
                    assert(is_among(names@, keys@[other]@));
                }
            }
        }
        index += 1;
    }
    proof {
        assert forall|name: Seq<char>| #[trigger] is_group(rows@, name) implies is_among(
            names@,
            name,
        ) by {
            let row = choose|i: int| 0 <= i < rows.len() && #[trigger] times_in(rows@[i], name, 4)
                > 0;
            lemma_times_in(rows@[row], name, 4);
            let all = group_names(rows@[row].depth as int, rows@[row].lexicon@);
            let key = choose|i: int| 0 <= i < 4 && #[trigger] all[i] == name;
            assert(is_among(names@, all[key]));
        }
    }
    names
}

/// Whether a name is in a list.
pub open spec fn is_among(names: Seq<String>, name: Seq<char>) -> bool {
    exists|i: int| 0 <= i < names.len() && (#[trigger] names[i])@ == name
}

// ---------------------------------------------------------------------------
// Scores
// ---------------------------------------------------------------------------

/// Scores of paired games, set against each other in whole numbers; the gains are in
/// order, the least first.
pub struct ScoreComparison {
    pub games: usize,
    pub deltas: Vec<i64>,
    pub baseline_sum: i64,
    pub candidate_sum: i64,
    pub delta_sum: i64,
    pub middle: Option<(i64, i64)>,
    pub tally: Tally,
}

pub open spec fn score_views(scores: Seq<i32>) -> Seq<int> {
    Seq::new(scores.len(), |i: int| scores[i] as int)
}

/// By how much each score of the second list is greater.
pub open spec fn gains(baseline: Seq<int>, candidate: Seq<int>) -> Seq<int> {
    Seq::new(baseline.len(), |i: int| candidate[i] - baseline[i])
}

fn widen(scores: &Vec<i32>) -> (wide: Vec<i64>)
    ensures
        int_views(wide@) == score_views(scores@),
        forall|i: int|
            0 <= i < wide.len() ==> -0x1_0000_0000 <= #[trigger] wide@[i] <= 0x1_0000_0000,
{
    let mut wide: Vec<i64> = Vec::new();
    let mut index: usize = 0;
    while index < scores.len()
        invariant
            index <= scores.len(),
            wide.len() == index,
            forall|i: int| 0 <= i < wide.len() ==> #[trigger] wide@[i] == scores@[i],
        decreases scores.len() - index,
    {
        wide.push(scores[index] as i64);
        index += 1;
    }
    assert(int_views(wide@) =~= score_views(scores@));
    wide
}

/// Sets the scores of paired games against each other.
pub fn compare_scores(baseline: &Vec<i32>, candidate: &Vec<i32>) -> (comparison: ScoreComparison)
    requires
        baseline.len() == candidate.len(),
        baseline.len() <= 0x7fff_ffff,
    ensures
        comparison.games == baseline.len(),
        ({
            let left = score_views(baseline@);
            let right = score_views(candidate@);
            let count = baseline.len() as int;
            let deltas = gains(left, right);
            &&& int_views(comparison.deltas@) == ascending(deltas)
            &&& comparison.baseline_sum == sum_of(left, count)
            &&& comparison.candidate_sum == sum_of(right, count)
            &&& comparison.delta_sum == sum_of(deltas, count)
            &&& comparison.middle.is_none() == (count == 0)
            &&& comparison.middle matches Some(found) ==> (found.0 as int, found.1 as int)
                == middle_of(deltas)
            &&& comparison.tally.wins == positives(deltas, count)
            &&& comparison.tally.ties == zeros(deltas, count)
            &&& comparison.tally.wins + comparison.tally.ties + comparison.tally.losses == count
        }),
{
    let left: Vec<i64> = widen(baseline);
    let right: Vec<i64> = widen(candidate);
    assert(int_views(left@).len() == left.len());
    assert(int_views(right@).len() == right.len());
    let mut deltas: Vec<i64> = Vec::new();
    let mut index: usize = 0;
    while index < baseline.len()
        invariant
            index <= baseline.len(),
            baseline.len() == candidate.len(),
            deltas.len() == index,
            forall|i: int|
                0 <= i < deltas.len() ==> #[trigger] deltas@[i] == candidate@[i] - baseline@[i],
        decreases baseline.len() - index,
    {
        deltas.push(candidate[index] as i64 - baseline[index] as i64);
        index += 1;
    }
    assert(int_views(deltas@) =~= gains(score_views(baseline@), score_views(candidate@)));
    let baseline_sum: i64 = sum(&left);
    let candidate_sum: i64 = sum(&right);
    let delta_sum: i64 = sum(&deltas);
    let found: Option<(i64, i64)> = middle(&deltas);
    let counts: Tally = tally(&deltas);
    ScoreComparison {
        games: baseline.len(),
        deltas: in_order(&deltas),
        baseline_sum,
        candidate_sum,
        delta_sum,
        middle: found,
        tally: counts,
    }
}

proof fn lemma_gains_add_up(baseline: Seq<int>, candidate: Seq<int>, count: int)
    requires
        0 <= count <= baseline.len(),
    ensures
        sum_of(gains(baseline, candidate), count) == sum_of(candidate, count) - sum_of(
            baseline,
            count,
        ),
    decreases count,
{
    if count > 0 {
        lemma_gains_add_up(baseline, candidate, count - 1);
    }
}

/// The gains add up to the difference of the sums.
pub proof fn gains_add_up(baseline: Seq<int>, candidate: Seq<int>)
    ensures
        sum_of(gains(baseline, candidate), baseline.len() as int) == sum_of(
            candidate,
            baseline.len() as int,
        ) - sum_of(baseline, baseline.len() as int),
{
    lemma_gains_add_up(baseline, candidate, baseline.len() as int);
}

// ---------------------------------------------------------------------------
// Groups of paired games
// ---------------------------------------------------------------------------

/// Whether a game was played to its end.
pub open spec fn is_completed(row: EpisodeRow) -> bool {
    row.phase@ == "complete"@
}

/// How many of the first `count` chosen games were played to their end.
pub open spec fn completed_in(rows: Seq<EpisodeRow>, chosen: Seq<int>, count: int) -> int
    decreases count,
{
    if count <= 0 {
        0
    } else {
        completed_in(rows, chosen, count - 1) + (if is_completed(rows[chosen[count - 1]]) {
            1int
        } else {
            0
        })
    }
}

/// Counts the chosen games that were played to their end.
pub fn completed_among(rows: &Vec<EpisodeRow>, chosen: &Vec<usize>) -> (completed: usize)
    requires
        forall|i: int| 0 <= i < chosen.len() ==> #[trigger] chosen@[i] < rows.len(),
    ensures
        completed == completed_in(rows@, places(chosen@), chosen.len() as int),
        completed <= chosen.len(),
{
    let mut completed: usize = 0;
    let mut index: usize = 0;
    while index < chosen.len()
        invariant
            forall|i: int| 0 <= i < chosen.len() ==> #[trigger] chosen@[i] < rows.len(),
            index <= chosen.len(),
            completed <= index,
            completed == completed_in(rows@, places(chosen@), index as int),
        decreases chosen.len() - index,
    {
        let row: &EpisodeRow = &rows[chosen[index]];
        assert(places(chosen@)[index as int] == chosen@[index as int]);
        if row.phase == "complete".to_owned() {
            completed += 1;
        }
        index += 1;
    }
    completed
}

/// The scores of chosen games.
pub open spec fn scores_of(rows: Seq<EpisodeRow>, chosen: Seq<int>) -> Seq<int> {
    Seq::new(chosen.len(), |i: int| rows[chosen[i]].score as int)
}

/// The numbers of words in chosen games.
pub open spec fn words_of(rows: Seq<EpisodeRow>, chosen: Seq<int>) -> Seq<int> {
    Seq::new(chosen.len(), |i: int| rows[chosen[i]].words as int)
}

/// The partners of chosen games.
pub open spec fn partners_of(partners: Seq<usize>, chosen: Seq<int>) -> Seq<int> {
    Seq::new(chosen.len(), |i: int| partners[chosen[i]] as int)
}

/// A group of paired games, set against each other.
pub struct GroupComparison {
    pub scores: ScoreComparison,
    pub baseline_completed: usize,
    pub candidate_completed: usize,
    pub words_delta: i64,
}

fn pick_scores(rows: &Vec<EpisodeRow>, chosen: &Vec<usize>) -> (scores: Vec<i32>)
    requires
        forall|i: int| 0 <= i < chosen.len() ==> #[trigger] chosen@[i] < rows.len(),
    ensures
        scores.len() == chosen.len(),
        score_views(scores@) == scores_of(rows@, places(chosen@)),
{
    let mut scores: Vec<i32> = Vec::new();
    let mut index: usize = 0;
    while index < chosen.len()
        invariant
            forall|i: int| 0 <= i < chosen.len() ==> #[trigger] chosen@[i] < rows.len(),
            index <= chosen.len(),
            scores.len() == index,
            forall|i: int|
                0 <= i < scores.len() ==> #[trigger] scores@[i] == rows@[chosen@[i] as int].score,
        decreases chosen.len() - index,
    {
        scores.push(rows[chosen[index]].score);
        index += 1;
    }
    assert(score_views(scores@) =~= scores_of(rows@, places(chosen@)));
    scores
}

fn word_gains(
    baseline: &Vec<EpisodeRow>,
    chosen: &Vec<usize>,
    candidate: &Vec<EpisodeRow>,
    others: &Vec<usize>,
) -> (gained: Vec<i64>)
    requires
        others.len() == chosen.len(),
        forall|i: int| 0 <= i < chosen.len() ==> #[trigger] chosen@[i] < baseline.len(),
        forall|i: int| 0 <= i < others.len() ==> #[trigger] others@[i] < candidate.len(),
    ensures
        gained.len() == chosen.len(),
        int_views(gained@) == gains(
            words_of(baseline@, places(chosen@)),
            words_of(candidate@, places(others@)),
        ),
        forall|i: int|
            0 <= i < gained.len() ==> -0x1_0000_0000 <= #[trigger] gained@[i] <= 0x1_0000_0000,
{
    let mut gained: Vec<i64> = Vec::new();
    let mut index: usize = 0;
    while index < chosen.len()
        invariant
            others.len() == chosen.len(),
            forall|i: int| 0 <= i < chosen.len() ==> #[trigger] chosen@[i] < baseline.len(),
            forall|i: int| 0 <= i < others.len() ==> #[trigger] others@[i] < candidate.len(),
            index <= chosen.len(),
            gained.len() == index,
            forall|i: int|
                0 <= i < gained.len() ==> #[trigger] gained@[i]
                    == candidate@[others@[i] as int].words - baseline@[chosen@[i] as int].words,
        decreases chosen.len() - index,
    {
        gained.push(
            candidate[others[index]].words as i64 - baseline[chosen[index]].words as i64,
        );
        index += 1;
    }
    assert(int_views(gained@) =~= gains(
        words_of(baseline@, places(chosen@)),
        words_of(candidate@, places(others@)),
    ));
    gained
}

/// Sets the games of a group against their partners.
pub fn compare_group(
    baseline: &Vec<EpisodeRow>,
    candidate: &Vec<EpisodeRow>,
    partners: &Vec<usize>,
    chosen: &Vec<usize>,
) -> (comparison: GroupComparison)
    requires
        partners.len() == baseline.len(),
        chosen.len() <= 0x7fff_ffff,
        forall|i: int| 0 <= i < partners.len() ==> #[trigger] partners@[i] < candidate.len(),
        forall|i: int| 0 <= i < chosen.len() ==> #[trigger] chosen@[i] < baseline.len(),
    ensures
        ({
            let count = chosen.len() as int;
            let ours = places(chosen@);
            let theirs = partners_of(partners@, ours);
            let left = scores_of(baseline@, ours);
            let right = scores_of(candidate@, theirs);
            let deltas = gains(left, right);
            let words = gains(words_of(baseline@, ours), words_of(candidate@, theirs));
            &&& comparison.scores.games == count
            &&& int_views(comparison.scores.deltas@) == ascending(deltas)
            &&& comparison.scores.baseline_sum == sum_of(left, count)
            &&& comparison.scores.candidate_sum == sum_of(right, count)
            &&& comparison.scores.delta_sum == sum_of(deltas, count)
            &&& comparison.scores.middle.is_none() == (count == 0)
            &&& comparison.scores.middle matches Some(found) ==> (found.0 as int, found.1 as int)
                == middle_of(deltas)
            &&& comparison.scores.tally.wins == positives(deltas, count)
            &&& comparison.scores.tally.ties == zeros(deltas, count)
            &&& comparison.scores.tally.wins + comparison.scores.tally.ties
                + comparison.scores.tally.losses == count
            &&& comparison.baseline_completed == completed_in(baseline@, ours, count)
            &&& comparison.candidate_completed == completed_in(candidate@, theirs, count)
            &&& comparison.words_delta == sum_of(words, count)
        }),
{
    let mut others: Vec<usize> = Vec::new();
    let mut index: usize = 0;
    while index < chosen.len()
        invariant
            partners.len() == baseline.len(),
            forall|i: int| 0 <= i < partners.len() ==> #[trigger] partners@[i] < candidate.len(),
            forall|i: int| 0 <= i < chosen.len() ==> #[trigger] chosen@[i] < baseline.len(),
            index <= chosen.len(),
            others.len() == index,
            forall|i: int|
                0 <= i < others.len() ==> #[trigger] others@[i] == partners@[chosen@[i] as int]
                    && others@[i] < candidate.len(),
        decreases chosen.len() - index,
    {
        others.push(partners[chosen[index]]);
        index += 1;
    }
    assert(places(others@) =~= partners_of(partners@, places(chosen@)));
    let left: Vec<i32> = pick_scores(baseline, chosen);
    let right: Vec<i32> = pick_scores(candidate, &others);
    let gained: Vec<i64> = word_gains(baseline, chosen, candidate, &others);
    GroupComparison {
        scores: compare_scores(&left, &right),
        baseline_completed: completed_among(baseline, chosen),
        candidate_completed: completed_among(candidate, &others),
        words_delta: sum(&gained),
    }
}

/// Every game is counted in the group of all games once, unless its lexicon is named
/// like that group.
pub proof fn the_first_group_holds_every_game(rows: Seq<EpisodeRow>, count: int)
    requires
        0 <= count <= rows.len(),
        forall|i: int| 0 <= i < rows.len() ==> (#[trigger] rows[i]).lexicon@ != "all"@,
    ensures
        members(rows, "all"@, count) == Seq::new(count as nat, |i: int| i),
    decreases count,
{
    if count > 0 {
        the_first_group_holds_every_game(rows, count - 1);
        let row = rows[count - 1];
        let names = group_names(row.depth as int, row.lexicon@);
        reveal_strlit("all");
        reveal_strlit("depth");
        assert("all"@[0] == 'a');
        assert(names[1][0] == 'd');
        assert(names[3][0] == 'd');
        reveal_with_fuel(times_in, 5);
        assert(row.lexicon@ != "all"@);
        assert(times_in(row, "all"@, 4) == 1);
    }
    assert(members(rows, "all"@, count) =~= Seq::new(count as nat, |i: int| i));
}

} // verus!
