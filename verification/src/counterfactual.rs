//! Positions from which alternative moves are tried out.

use vstd::prelude::*;

use crate::board::{cells_valid, Board};
use crate::fragments::{lexicon_id, lexicon_number};
use crate::native::string_views;
use crate::pieces::Piece;
use crate::random::{mixed_hash, position_hash};
use crate::records::{BoardView, PieceView};
use crate::source::{
    piece_fault, read_piece, read_rows, text_bytes, written_kind, written_rows, SourceFault,
};

verus! {

/// How positions are chosen and tried out.
#[derive(Clone, Copy, Debug)]
pub struct TrialOptions {
    pub positions: usize,
    pub candidates: usize,
    pub search_depth: usize,
    pub rollout_depth: usize,
    pub horizon: usize,
    pub candidate_beam_width: usize,
    pub rollout_beam_width: usize,
    pub threads: usize,
    pub sample_modulus: u32,
}

impl TrialOptions {
    pub open spec fn valid(&self) -> bool {
        &&& self.positions >= 1
        &&& 1 <= self.candidates <= 255
        &&& 1 <= self.search_depth <= 5
        &&& 1 <= self.rollout_depth <= 5
        &&& self.horizon >= 1
        &&& 12 <= self.candidate_beam_width <= 160
        &&& 12 <= self.rollout_beam_width <= 160
        &&& self.threads >= 1
        &&& self.sample_modulus >= 1
    }

    /// Whether every option is within its range.
    pub fn is_valid(&self) -> (valid: bool)
        ensures
            valid == self.valid(),
    {
        self.positions >= 1 && self.candidates >= 1 && self.candidates <= 255 && self.search_depth
            >= 1 && self.search_depth <= 5 && self.rollout_depth >= 1 && self.rollout_depth <= 5
            && self.horizon >= 1 && self.candidate_beam_width >= 12 && self.candidate_beam_width
            <= 160 && self.rollout_beam_width >= 12 && self.rollout_beam_width <= 160
            && self.threads >= 1 && self.sample_modulus >= 1
    }

    /// How many pieces have to be known from a position on.
    pub open spec fn future(&self) -> int {
        vstd::math::max(
            vstd::math::max(self.search_depth as int, self.horizon + self.rollout_depth),
            6,
        )
    }

    /// How many pieces have to be known from a position on.
    pub fn required_future(&self) -> (count: usize)
        requires
            self.horizon + self.rollout_depth <= usize::MAX,
        ensures
            count == self.future(),
    {
        let mut count: usize = self.horizon + self.rollout_depth;
        if self.search_depth > count {
            count = self.search_depth;
        }
        if count < 6 {
            count = 6;
        }
        count
    }
}

// ---------------------------------------------------------------------------
// Choosing positions
// ---------------------------------------------------------------------------

/// A position of a game, as a run has written it.
pub struct EpisodeRecord {
    pub episode_id: String,
    pub step: u16,
    pub lexicon: String,
    pub seed: u32,
    pub board: BoardView,
    pub active: PieceView,
    pub lines: u8,
}

/// What is wrong with an episode.
#[derive(Clone, Copy, Debug, PartialEq, Eq, Structural)]
pub enum TaskFault {
    /// The records are not of one game, move by move.
    Order,
    /// A record of an unknown lexicon, by its number.
    Lexicon(usize),
    /// A game that changes its seed or its lexicon.
    Boundary,
    /// A piece that cannot be read, by its record's number.
    Piece(usize, SourceFault),
    /// A board without exactly 22 rows.
    Rows,
    /// A board that cannot be read.
    Board(SourceFault),
}

/// A position to try moves in.
pub struct Task {
    pub seed: u32,
    pub step: u16,
    pub lexicon: u8,
    pub board: Board,
    pub current_lines: u8,
    pub future: Vec<Piece>,
}

/// A piece by what it is made of.
pub ghost struct PieceModel {
    pub kind: u8,
    pub letters: Seq<u8>,
}

pub ghost struct TaskModel {
    pub seed: u32,
    pub step: u16,
    pub lexicon: u8,
    pub board: Seq<u8>,
    pub current_lines: u8,
    pub future: Seq<PieceModel>,
}

pub open spec fn piece_models(pieces: Seq<Piece>) -> Seq<PieceModel> {
    Seq::new(
        pieces.len(),
        |i: int| PieceModel { kind: pieces[i].kind, letters: pieces[i].letters@ },
    )
}

impl Task {
    pub open spec fn view(&self) -> TaskModel {
        TaskModel {
            seed: self.seed,
            step: self.step,
            lexicon: self.lexicon,
            board: self.board@,
            current_lines: self.current_lines,
            future: piece_models(self.future@),
        }
    }

    pub open spec fn wf(&self) -> bool {
        &&& self.lexicon <= 1
        &&& cells_valid(self.board@)
        &&& forall|i: int| 0 <= i < self.future.len() ==> (#[trigger] self.future@[i]).valid()
    }
}

pub open spec fn task_views(tasks: Seq<Task>) -> Seq<TaskModel> {
    Seq::new(tasks.len(), |i: int| tasks[i]@)
}

/// Whether the records are of one game, move by move.
pub open spec fn is_contiguous(episode: Seq<EpisodeRecord>) -> bool {
    forall|i: int|
        1 <= i < episode.len() ==> (#[trigger] episode[i]).episode_id@ == episode[i
            - 1].episode_id@ && episode[i].step == episode[i - 1].step + 1
}

/// Whether a record is chosen.
pub open spec fn is_sampled(record: EpisodeRecord, modulus: int) -> bool {
    position_hash(record.seed, record.step) as int % modulus == 0
}

/// The piece in play of a record.
pub open spec fn played_piece(record: EpisodeRecord) -> Result<PieceModel, SourceFault> {
    let name = text_bytes(record.active.piece@);
    let letters = text_bytes(record.active.letters@);
    match piece_fault(name, letters, false) {
        Some(fault) => Err(fault),
        None => Ok(
            PieceModel {
                kind: written_kind(name)->Ok_0,
                letters: Seq::new(4, |i: int| (letters[i] - 0x40) as u8),
            },
        ),
    }
}

/// The pieces in play of `count` records from number `from` on.
pub open spec fn played_pieces(episode: Seq<EpisodeRecord>, from: int, count: int) -> Result<
    Seq<PieceModel>,
    TaskFault,
>
    decreases count,
{
    if count <= 0 {
        Ok(Seq::empty())
    } else {
        match played_pieces(episode, from, count - 1) {
            Err(fault) => Err(fault),
            Ok(pieces) => {
                let index = from + count - 1;
                let record = episode[index];
                if record.seed != episode[from].seed || record.lexicon@ != episode[from].lexicon@ {
                    Err(TaskFault::Boundary)
                } else {
                    match played_piece(record) {
                        Err(fault) => Err(TaskFault::Piece(index as usize, fault)),
                        Ok(piece) => Ok(pieces.push(piece)),
                    }
                }
            },
        }
    }
}

/// The board of a record.
pub open spec fn record_board(record: EpisodeRecord) -> Result<Seq<u8>, TaskFault> {
    if record.board.letters.len() != 22 || record.board.pieces.len() != 22 {
        Err(TaskFault::Rows)
    } else {
        match written_rows(
            string_views(record.board.letters@),
            string_views(record.board.pieces@),
            true,
            22,
        ) {
            Err(fault) => Err(TaskFault::Board(fault)),
            Ok(cells) => Ok(cells),
        }
    }
}

/// The task that record number `index` gives.
pub open spec fn task_at(episode: Seq<EpisodeRecord>, index: int, future: int) -> Result<
    TaskModel,
    TaskFault,
> {
    let record = episode[index];
    match lexicon_number(record.lexicon@) {
        None => Err(TaskFault::Lexicon(index as usize)),
        Some(lexicon) => match played_pieces(episode, index, future) {
            Err(fault) => Err(fault),
            Ok(pieces) => match record_board(record) {
                Err(fault) => Err(fault),
                Ok(board) => Ok(
                    TaskModel {
                        seed: record.seed,
                        step: record.step,
                        lexicon,
                        board,
                        current_lines: record.lines,
                        future: pieces,
                    },
                ),
            },
        },
    }
}

/// The tasks once the records from number `index` on have been looked at, and the
/// fault that stopped this.
pub open spec fn tasks_from(
    episode: Seq<EpisodeRecord>,
    future: int,
    modulus: int,
    positions: int,
    tasks: Seq<TaskModel>,
    index: int,
) -> (Seq<TaskModel>, Option<TaskFault>)
    decreases episode.len() - index,
{
    if index >= episode.len() || index + future > episode.len() || tasks.len() == positions {
        (tasks, None)
    } else if !is_sampled(episode[index], modulus) {
        tasks_from(episode, future, modulus, positions, tasks, index + 1)
    } else {
        match task_at(episode, index, future) {
            Err(fault) => (tasks, Some(fault)),
            Ok(task) => tasks_from(
                episode,
                future,
                modulus,
                positions,
                tasks.push(task),
                index + 1,
            ),
        }
    }
}

/// The tasks after an episode, and the fault that was found in it.
pub open spec fn with_episode(
    episode: Seq<EpisodeRecord>,
    future: int,
    modulus: int,
    positions: int,
    tasks: Seq<TaskModel>,
) -> (Seq<TaskModel>, Option<TaskFault>) {
    if episode.len() == 0 || tasks.len() == positions || episode.len() < future {
        (tasks, None)
    } else if !is_contiguous(episode) {
        (tasks, Some(TaskFault::Order))
    } else {
        tasks_from(episode, future, modulus, positions, tasks, 0)
    }
}

fn check_contiguous(episode: &Vec<EpisodeRecord>) -> (contiguous: bool)
    ensures
        contiguous == is_contiguous(episode@),
{
    let mut index: usize = 1;
    while index < episode.len()
        invariant
            1 <= index,
            index <= episode.len() || episode.len() == 0,
            forall|i: int|
                1 <= i < index && i < episode.len() ==> (#[trigger] episode@[i]).episode_id@
                    == episode@[i - 1].episode_id@ && episode@[i].step == episode@[i - 1].step + 1,
        decreases episode.len() - index,
    {
        let before: &EpisodeRecord = &episode[index - 1];
        let after: &EpisodeRecord = &episode[index];
        if before.episode_id != after.episode_id || after.step as u32 != before.step as u32 + 1 {
            assert(!(episode@[index as int].episode_id@ == episode@[index - 1].episode_id@
                && episode@[index as int].step == episode@[index - 1].step + 1));
            return false;
        }
        index += 1;
    }
    true
}

proof fn lemma_pieces_fault_stays(episode: Seq<EpisodeRecord>, from: int, count: int, last: int)
    requires
        0 <= count <= last,
        played_pieces(episode, from, count).is_err(),
    ensures
        played_pieces(episode, from, last) == played_pieces(episode, from, count),
    decreases last - count,
{
    if count < last {
        lemma_pieces_fault_stays(episode, from, count, last - 1);
    }
}

fn read_pieces(episode: &Vec<EpisodeRecord>, from: usize, count: usize) -> (pieces: Result<
    Vec<Piece>,
    TaskFault,
>)
    requires
        count >= 1,
        from + count <= episode.len(),
    ensures
        match pieces {
            Ok(found) => {
                &&& played_pieces(episode@, from as int, count as int) == Ok::<
                    Seq<PieceModel>,
                    TaskFault,
                >(piece_models(found@))
                &&& found.len() == count
                &&& forall|i: int| 0 <= i < found.len() ==> (#[trigger] found@[i]).valid()
            },
            Err(fault) => played_pieces(episode@, from as int, count as int) == Err::<
                Seq<PieceModel>,
                TaskFault,
            >(fault),
        },
{
    let mut pieces: Vec<Piece> = Vec::new();
    let mut index: usize = 0;
    assert(piece_models(pieces@) =~= Seq::<PieceModel>::empty());
    while index < count
        invariant
            index <= count,
            count >= 1,
            from + count <= episode.len(),
            pieces.len() == index,
            played_pieces(episode@, from as int, index as int) == Ok::<Seq<PieceModel>, TaskFault>(
                piece_models(pieces@),
            ),
            forall|i: int| 0 <= i < pieces.len() ==> (#[trigger] pieces@[i]).valid(),
        decreases count - index,
    {
        let record: &EpisodeRecord = &episode[from + index];
        let first: &EpisodeRecord = &episode[from];
        if record.seed != first.seed || record.lexicon != first.lexicon {
            proof {
                lemma_pieces_fault_stays(episode@, from as int, index + 1, count as int);
            }
            return Err(TaskFault::Boundary);
        }
        match read_piece(&record.active, false) {
            Ok(piece) => {
                let ghost before = piece_models(pieces@);
                let ghost letters = text_bytes(record.active.letters@);
                pieces.push(piece);
                assert(piece.letters@ =~= Seq::new(4, |i: int| (letters[i] - 0x40) as u8));
                assert(piece_models(pieces@) =~= before.push(
                    PieceModel { kind: piece.kind, letters: piece.letters@ },
                ));
            },
            Err(fault) => {
                proof {
                    lemma_pieces_fault_stays(episode@, from as int, index + 1, count as int);
                }
                return Err(TaskFault::Piece(from + index, fault));
            },
        }
        index += 1;
    }
    Ok(pieces)
}

fn read_task(episode: &Vec<EpisodeRecord>, index: usize, future: usize) -> (task: Result<
    Task,
    TaskFault,
>)
    requires
        future >= 1,
        index + future <= episode.len(),
    ensures
        match task {
            Ok(found) => {
                &&& task_at(episode@, index as int, future as int) == Ok::<TaskModel, TaskFault>(
                    found@,
                )
                &&& found.wf()
                &&& found.future.len() == future
            },
            Err(fault) => task_at(episode@, index as int, future as int) == Err::<
                TaskModel,
                TaskFault,
            >(fault),
        },
{
    let record: &EpisodeRecord = &episode[index];
    let lexicon: u8 = match lexicon_id(&record.lexicon) {
        Some(number) => number,
        None => return Err(TaskFault::Lexicon(index)),
    };
    let pieces: Vec<Piece> = match read_pieces(episode, index, future) {
        Ok(pieces) => pieces,
        Err(fault) => return Err(fault),
    };
    if record.board.letters.len() != 22 || record.board.pieces.len() != 22 {
        return Err(TaskFault::Rows);
    }
    let board: Board = match read_rows(&record.board.letters, &record.board.pieces, true) {
        Ok(board) => board,
        Err(fault) => return Err(TaskFault::Board(fault)),
    };
    Ok(
        Task {
            seed: record.seed,
            step: record.step,
            lexicon,
            board,
            current_lines: record.lines,
            future: pieces,
        },
    )
}

pub open spec fn tasks_wf(tasks: Seq<Task>, future: int) -> bool {
    forall|i: int|
        0 <= i < tasks.len() ==> (#[trigger] tasks[i]).wf() && tasks[i].future.len() == future
}

/// Adds the tasks that an episode gives, until there are enough.
pub fn add_episode_tasks(
    episode: &Vec<EpisodeRecord>,
    future: usize,
    modulus: u32,
    positions: usize,
    tasks: &mut Vec<Task>,
) -> (result: Result<(), TaskFault>)
    requires
        future >= 1,
        modulus >= 1,
        tasks_wf(old(tasks)@, future as int),
    ensures
        ({
            let (found, fault) = with_episode(
                episode@,
                future as int,
                modulus as int,
                positions as int,
                task_views(old(tasks)@),
            );
            &&& task_views(final(tasks)@) == found
            &&& match result {
                Ok(_) => fault.is_none(),
                Err(stopped) => fault == Some(stopped),
            }
        }),
        tasks_wf(final(tasks)@, future as int),
{
    if episode.len() == 0 || tasks.len() == positions || episode.len() < future {
        return Ok(());
    }
    if !check_contiguous(episode) {
        return Err(TaskFault::Order);
    }
    let ghost goal = tasks_from(
        episode@,
        future as int,
        modulus as int,
        positions as int,
        task_views(tasks@),
        0,
    );
    let mut index: usize = 0;
    while index <= episode.len() - future && tasks.len() != positions
        invariant
            future >= 1,
            modulus >= 1,
            future <= episode.len(),
            index <= episode.len(),
            tasks_wf(tasks@, future as int),
            goal == with_episode(
                episode@,
                future as int,
                modulus as int,
                positions as int,
                task_views(old(tasks)@),
            ),
            goal == tasks_from(
                episode@,
                future as int,
                modulus as int,
                positions as int,
                task_views(tasks@),
                index as int,
            ),
        decreases episode.len() - index,
    {
        let record: &EpisodeRecord = &episode[index];
        if mixed_hash(record.seed, record.step) % modulus == 0 {
            match read_task(episode, index, future) {
                Ok(task) => {
                    let ghost before = task_views(tasks@);
                    tasks.push(task);
                    assert(task_views(tasks@) =~= before.push(task@));
                },
                Err(fault) => {
                    return Err(fault);
                },
            }
        }
        index += 1;
    }
    Ok(())
}

/// Gathers tasks from a stream of records, game by game.
pub struct TaskCollector {
    pub episode: Vec<EpisodeRecord>,
    pub tasks: Vec<Task>,
}

impl TaskCollector {
    pub fn new() -> (collector: Self)
        ensures
            collector.episode@ == Seq::<EpisodeRecord>::empty(),
            collector.tasks@ == Seq::<Task>::empty(),
    {
        TaskCollector { episode: Vec::new(), tasks: Vec::new() }
    }

    /// Whether a record belongs to another game than the one before it.
    pub open spec fn starts_game(&self, record: EpisodeRecord) -> bool {
        self.episode.len() > 0 && self.episode@.last().episode_id@ != record.episode_id@
    }

    /// Takes the next record; a record of another game ends the one before.
    pub fn push(
        &mut self,
        record: EpisodeRecord,
        future: usize,
        modulus: u32,
        positions: usize,
    ) -> (result: Result<(), TaskFault>)
        requires
            future >= 1,
            modulus >= 1,
            tasks_wf(old(self).tasks@, future as int),
        ensures
            tasks_wf(final(self).tasks@, future as int),
            ({
                let (found, fault) = with_episode(
                    old(self).episode@,
                    future as int,
                    modulus as int,
                    positions as int,
                    task_views(old(self).tasks@),
                );
                if old(self).starts_game(record) {
                    &&& task_views(final(self).tasks@) == found
                    &&& match result {
                        Ok(_) => fault.is_none() && final(self).episode@ == seq![record],
                        Err(stopped) => fault == Some(stopped) && final(self).episode@ == old(
                            self,
                        ).episode@,
                    }
                } else {
                    &&& result.is_ok()
                    &&& final(self).tasks@ == old(self).tasks@
                    &&& final(self).episode@ == old(self).episode@.push(record)
                }
            }),
    {
        let count: usize = self.episode.len();
        if count > 0 && self.episode[count - 1].episode_id != record.episode_id {
            match add_episode_tasks(&self.episode, future, modulus, positions, &mut self.tasks) {
                Err(fault) => return Err(fault),
                Ok(_) => {},
            }
            self.episode = Vec::new();
            self.episode.push(record);
            assert(self.episode@ =~= seq![record]);
        } else {
            self.episode.push(record);
        }
        Ok(())
    }

    /// Ends the last game of a shard.
    pub fn finish(&mut self, future: usize, modulus: u32, positions: usize) -> (result: Result<
        (),
        TaskFault,
    >)
        requires
            future >= 1,
            modulus >= 1,
            tasks_wf(old(self).tasks@, future as int),
        ensures
            tasks_wf(final(self).tasks@, future as int),
            ({
                let (found, fault) = with_episode(
                    old(self).episode@,
                    future as int,
                    modulus as int,
                    positions as int,
                    task_views(old(self).tasks@),
                );
                &&& task_views(final(self).tasks@) == found
                &&& match result {
                    Ok(_) => fault.is_none() && final(self).episode.len() == 0,
                    Err(stopped) => fault == Some(stopped),
                }
            }),
    {
        match add_episode_tasks(&self.episode, future, modulus, positions, &mut self.tasks) {
            Err(fault) => Err(fault),
            Ok(_) => {
                self.episode = Vec::new();
                Ok(())
            },
        }
    }
}

proof fn lemma_tasks_stay_within(
    episode: Seq<EpisodeRecord>,
    future: int,
    modulus: int,
    positions: int,
    tasks: Seq<TaskModel>,
    index: int,
)
    requires
        tasks.len() <= positions,
    ensures
        tasks.len() <= tasks_from(episode, future, modulus, positions, tasks, index).0.len()
            <= positions,
        tasks_from(episode, future, modulus, positions, tasks, index).0.take(tasks.len() as int)
            == tasks,
    decreases episode.len() - index,
{
    let found = tasks_from(episode, future, modulus, positions, tasks, index).0;
    if index >= episode.len() || index + future > episode.len() || tasks.len() == positions {
        assert(tasks.take(tasks.len() as int) =~= tasks);
    } else if !is_sampled(episode[index], modulus) {
        lemma_tasks_stay_within(episode, future, modulus, positions, tasks, index + 1);
    } else {
        match task_at(episode, index, future) {
            Err(_) => {
                assert(tasks.take(tasks.len() as int) =~= tasks);
            },
            Ok(task) => {
                let more = tasks.push(task);
                lemma_tasks_stay_within(episode, future, modulus, positions, more, index + 1);
                assert(found.take(tasks.len() as int) =~= more.take(tasks.len() as int));
                assert(more.take(tasks.len() as int) =~= tasks);
            },
        }
    }
}

/// An episode only adds tasks, and never more than were asked for.
pub proof fn tasks_are_kept_and_limited(
    episode: Seq<EpisodeRecord>,
    future: int,
    modulus: int,
    positions: int,
    tasks: Seq<TaskModel>,
)
    requires
        tasks.len() <= positions,
    ensures
        ({
            let (found, fault) = with_episode(episode, future, modulus, positions, tasks);
            tasks.len() <= found.len() <= positions && found.take(tasks.len() as int) == tasks
        }),
{
    assert(tasks.take(tasks.len() as int) =~= tasks);
    lemma_tasks_stay_within(episode, future, modulus, positions, tasks, 0);
}

} // verus!
